use vstd::prelude::*;

use crate::error::PngDbError;
use crate::store::DataRow;
use crate::text::{
    digits_exec_wide, lemma_pow10_mono, pow10, all_digits, digits_exec, digits_value, find_exec, find_from, parse_i64_spec, parse_u32_spec,
    lemma_find_from_bounds, split, split_bounds, string_of, chars_of, trim, trim_bounds,
    unsigned_body,
};
use crate::value::{EPSILON_UNITS, Number, UNITS_PER_ONE, Value, object_field};

verus! {

#[derive(Clone, Copy, Debug, PartialEq, Eq, Structural)]
pub enum ComparisonOp {
    Equal,
    NotEqual,
    GreaterThan,
    LessThan,
    GreaterThanOrEqual,
    LessThanOrEqual,
}

/// The coordinate a coordinate condition reads.
#[derive(Clone, Copy, Debug, PartialEq, Eq, Structural)]
pub enum Axis {
    X,
    Y,
}

/// One clause of a filter.
#[derive(Debug, PartialEq)]
pub enum Condition {
    Coordinate { field: Axis, op: ComparisonOp, value: u32 },
    JsonField { field: String, op: ComparisonOp, value: Value },
}

/// A parsed filter: its conditions, all of which a row must meet.
#[derive(Debug, PartialEq)]
pub struct Query {
    pub conditions: Vec<Condition>,
}

// ---------------------------------------------------------------- semantics

pub open spec fn op_holds(op: ComparisonOp, l: int, r: int) -> bool {
    match op {
        ComparisonOp::Equal => l == r,
        ComparisonOp::NotEqual => l != r,
        ComparisonOp::GreaterThan => l > r,
        ComparisonOp::LessThan => l < r,
        ComparisonOp::GreaterThanOrEqual => l >= r,
        ComparisonOp::LessThanOrEqual => l <= r,
    }
}

pub open spec fn abs(a: int) -> int {
    if a < 0 {
        -a
    } else {
        a
    }
}

/// Numbers are equal when they differ by less than the tolerance.
pub open spec fn number_holds(op: ComparisonOp, l: int, r: int) -> bool {
    match op {
        ComparisonOp::Equal => abs(l - r) < EPSILON_UNITS,
        ComparisonOp::NotEqual => abs(l - r) >= EPSILON_UNITS,
        _ => op_holds(op, l, r),
    }
}

/// The outcome of comparing `l` with `r` under `op`.
pub open spec fn compare_spec(l: Value, r: Value, op: ComparisonOp) -> Result<bool, PngDbError> {
    match (l, r) {
        (Value::Str(a), Value::Str(b)) => match op {
            ComparisonOp::Equal => Ok(a@ == b@),
            ComparisonOp::NotEqual => Ok(a@ != b@),
            _ => Err(PngDbError::UnsupportedOperator(op)),
        },
        (Value::Number(a), Value::Number(b)) => Ok(number_holds(op, a.units as int, b.units as int)),
        (Value::Bool(a), Value::Bool(b)) => match op {
            ComparisonOp::Equal => Ok(a == b),
            ComparisonOp::NotEqual => Ok(a != b),
            _ => Err(PngDbError::UnsupportedOperator(op)),
        },
        _ => Err(PngDbError::TypeMismatch),
    }
}

pub open spec fn coordinate(row: DataRow, axis: Axis) -> u32 {
    match axis {
        Axis::X => row.x,
        Axis::Y => row.y,
    }
}

/// Whether `row` meets `c`, or the error that evaluating it raises.
pub open spec fn condition_spec(row: DataRow, c: Condition) -> Result<bool, PngDbError> {
    match c {
        Condition::Coordinate { field, op, value } => Ok(
            op_holds(op, coordinate(row, field) as int, value as int),
        ),
        Condition::JsonField { field, op, value } => match object_field(row.data, field@) {
            Some(v) => compare_spec(v, value, op),
            None => Ok(false),
        },
    }
}

/// Whether `row` meets the first `n` conditions, evaluated in order until one fails.
pub open spec fn conditions_spec(row: DataRow, conds: Seq<Condition>, n: int) -> Result<
    bool,
    PngDbError,
>
    decreases n,
{
    if n <= 0 {
        Ok(true)
    } else {
        match conditions_spec(row, conds, n - 1) {
            Ok(true) => condition_spec(row, conds[n - 1]),
            other => other,
        }
    }
}

pub open spec fn query_spec(row: DataRow, q: Query) -> Result<bool, PngDbError> {
    conditions_spec(row, q.conditions@, q.conditions@.len() as int)
}

pub fn compare_numbers(left: i64, right: i64, op: &ComparisonOp) -> (r: bool)
    ensures
        r == op_holds(*op, left as int, right as int),
{
    match op {
        ComparisonOp::Equal => left == right,
        ComparisonOp::NotEqual => left != right,
        ComparisonOp::GreaterThan => left > right,
        ComparisonOp::LessThan => left < right,
        ComparisonOp::GreaterThanOrEqual => left >= right,
        ComparisonOp::LessThanOrEqual => left <= right,
    }
}

fn number_distance_small(l: i128, r: i128) -> (b: bool)
    ensures
        b == (abs(l - r) < EPSILON_UNITS),
{
    let (hi, lo) = if l >= r {
        (l, r)
    } else {
        (r, l)
    };
    match lo.checked_add(EPSILON_UNITS) {
        Some(bound) => hi < bound,
        None => true,
    }
}

pub fn compare_json_values(left: &Value, right: &Value, op: &ComparisonOp) -> (r: Result<
    bool,
    PngDbError,
>)
    ensures
        r == compare_spec(*left, *right, *op),
{
    match (left, right) {
        (Value::Str(l), Value::Str(r)) => match op {
            ComparisonOp::Equal => Ok(*l == *r),
            ComparisonOp::NotEqual => Ok(*l != *r),
            _ => Err(PngDbError::UnsupportedOperator(*op)),
        },
        (Value::Number(l), Value::Number(r)) => {
            let (a, b) = (l.units, r.units);
            Ok(
                match op {
                    ComparisonOp::Equal => number_distance_small(a, b),
                    ComparisonOp::NotEqual => !number_distance_small(a, b),
                    ComparisonOp::GreaterThan => a > b,
                    ComparisonOp::LessThan => a < b,
                    ComparisonOp::GreaterThanOrEqual => a >= b,
                    ComparisonOp::LessThanOrEqual => a <= b,
                },
            )
        },
        (Value::Bool(l), Value::Bool(r)) => match op {
            ComparisonOp::Equal => Ok(*l == *r),
            ComparisonOp::NotEqual => Ok(*l != *r),
            _ => Err(PngDbError::UnsupportedOperator(*op)),
        },
        _ => Err(PngDbError::TypeMismatch),
    }
}

pub fn matches_condition(row: &DataRow, condition: &Condition) -> (r: Result<bool, PngDbError>)
    ensures
        r == condition_spec(*row, *condition),
{
    match condition {
        Condition::Coordinate { field, op, value } => {
            let coord_value = match field {
                Axis::X => row.x,
                Axis::Y => row.y,
            };
            Ok(compare_numbers(coord_value as i64, *value as i64, op))
        },
        Condition::JsonField { field, op, value } => match row.data.get(field) {
            Some(field_value) => compare_json_values(field_value, value, op),
            None => Ok(false),
        },
    }
}

proof fn lemma_conditions_settled(row: DataRow, conds: Seq<Condition>, k: int, n: int)
    requires
        0 <= k <= n,
        conditions_spec(row, conds, k) != Ok::<bool, PngDbError>(true),
    ensures
        conditions_spec(row, conds, n) == conditions_spec(row, conds, k),
    decreases n - k,
{
    if k < n {
        lemma_conditions_settled(row, conds, k, n - 1);
    }
}

pub fn matches_query(row: &DataRow, query: &Query) -> (r: Result<bool, PngDbError>)
    ensures
        r == query_spec(*row, *query),
{
    let mut i: usize = 0;
    while i < query.conditions.len()
        invariant
            i <= query.conditions@.len(),
            conditions_spec(*row, query.conditions@, i as int) == Ok::<bool, PngDbError>(true),
        decreases query.conditions@.len() - i,
    {
        let m = matches_condition(row, &query.conditions[i]);
        match m {
            Ok(true) => {},
            _ => {
                proof {
                    lemma_conditions_settled(
                        *row,
                        query.conditions@,
                        i + 1,
                        query.conditions@.len() as int,
                    );
                }
                return m;
            },
        }
        i = i + 1;
    }
    Ok(true)
}

// ---------------------------------------------------------------- parsing

pub open spec fn op_text(op: ComparisonOp) -> Seq<char> {
    match op {
        ComparisonOp::Equal => seq!['='],
        ComparisonOp::NotEqual => seq!['!', '='],
        ComparisonOp::GreaterThan => seq!['>'],
        ComparisonOp::LessThan => seq!['<'],
        ComparisonOp::GreaterThanOrEqual => seq!['>', '='],
        ComparisonOp::LessThanOrEqual => seq!['<', '='],
    }
}

/// The operator of a clause and where it stands: the first operator, in the order
/// `>=`, `<=`, `!=`, `=`, `>`, `<`, that occurs anywhere in it, at its first occurrence.
pub open spec fn first_operator(t: Seq<char>) -> Option<(ComparisonOp, int)> {
    if find_from(t, op_text(ComparisonOp::GreaterThanOrEqual), 0) is Some {
        Some((ComparisonOp::GreaterThanOrEqual, find_from(t, op_text(ComparisonOp::GreaterThanOrEqual), 0)->0))
    } else if find_from(t, op_text(ComparisonOp::LessThanOrEqual), 0) is Some {
        Some((ComparisonOp::LessThanOrEqual, find_from(t, op_text(ComparisonOp::LessThanOrEqual), 0)->0))
    } else if find_from(t, op_text(ComparisonOp::NotEqual), 0) is Some {
        Some((ComparisonOp::NotEqual, find_from(t, op_text(ComparisonOp::NotEqual), 0)->0))
    } else if find_from(t, op_text(ComparisonOp::Equal), 0) is Some {
        Some((ComparisonOp::Equal, find_from(t, op_text(ComparisonOp::Equal), 0)->0))
    } else if find_from(t, op_text(ComparisonOp::GreaterThan), 0) is Some {
        Some((ComparisonOp::GreaterThan, find_from(t, op_text(ComparisonOp::GreaterThan), 0)->0))
    } else if find_from(t, op_text(ComparisonOp::LessThan), 0) is Some {
        Some((ComparisonOp::LessThan, find_from(t, op_text(ComparisonOp::LessThan), 0)->0))
    } else {
        None
    }
}

/// The field name of a clause whose operator stands at `pos`.
pub open spec fn clause_field(t: Seq<char>, op: ComparisonOp, pos: int) -> Seq<char> {
    trim(t.subrange(0, pos))
}

/// The value text of a clause whose operator stands at `pos`.
pub open spec fn clause_value(t: Seq<char>, op: ComparisonOp, pos: int) -> Seq<char> {
    trim(t.subrange(pos + op_text(op).len(), t.len() as int))
}

pub open spec fn axis_of(f: Seq<char>) -> Option<Axis> {
    if f == seq!['x'] {
        Some(Axis::X)
    } else if f == seq!['y'] {
        Some(Axis::Y)
    } else {
        None
    }
}

/// The integer and fraction digits of a decimal literal without its sign.
pub open spec fn decimal_parts(b: Seq<char>) -> (Seq<char>, Seq<char>) {
    match find_from(b, seq!['.'], 0) {
        Some(d) => (b.subrange(0, d), b.subrange(d + 1, b.len() as int)),
        None => (b, Seq::empty()),
    }
}

/// The largest exponent, in magnitude, that a decimal literal may carry.
pub const MAX_EXPONENT: u64 = 1000;

/// The position of the first exponent marker (`e` or `E`) at or after `i`, or the length.
pub open spec fn exp_marker(b: Seq<char>, i: int) -> int
    decreases b.len() - i,
{
    if i < 0 || i >= b.len() {
        b.len() as int
    } else if b[i] == 'e' || b[i] == 'E' {
        i
    } else {
        exp_marker(b, i + 1)
    }
}

/// The exponent that the text after an exponent marker writes: an optional sign and
/// at least one digit, at most `MAX_EXPONENT` in magnitude.
pub open spec fn exponent_value(e: Seq<char>) -> Option<int> {
    let neg = e.len() > 0 && e[0] == '-';
    let body = if neg {
        e.drop_first()
    } else {
        unsigned_body(e)
    };
    if body.len() > 0 && all_digits(body) && digits_value(body) <= MAX_EXPONENT {
        Some(
            if neg {
                -digits_value(body)
            } else {
                digits_value(body) as int
            },
        )
    } else {
        None
    }
}

/// The magnitude in units of the digits `d` shifted left by `s` places (right, dropping
/// digits, where `s` is negative).
pub open spec fn shifted_value(d: Seq<char>, s: int) -> nat {
    if s >= 0 {
        digits_value(d) * pow10(s as nat)
    } else if -s >= d.len() {
        0
    } else {
        digits_value(d.subrange(0, d.len() + s))
    }
}

/// The units of the decimal literal `t` (`-1.25`, `+3.`, `.5`, `7`, `2.5E-1`, `1e3`):
/// its value times `10^18`, with digits beyond the 18th place dropped, where that fits
/// an `i128` and the exponent is at most `MAX_EXPONENT` in magnitude.
pub open spec fn parse_decimal_spec(t: Seq<char>) -> Option<int> {
    let neg = t.len() > 0 && t[0] == '-';
    let b = if neg {
        t.drop_first()
    } else {
        unsigned_body(t)
    };
    let p = exp_marker(b, 0);
    let mant = b.subrange(0, p);
    let ip = decimal_parts(mant).0;
    let fp = decimal_parts(mant).1;
    let e = if p < b.len() {
        exponent_value(b.subrange(p + 1, b.len() as int))
    } else {
        Some(0)
    };
    if ip.len() + fp.len() > 0 && all_digits(ip) && all_digits(fp) && e is Some {
        let m = shifted_value(ip + fp, 18 + e->0 - fp.len());
        if m <= i128::MAX {
            Some(
                if neg {
                    -m
                } else {
                    m as int
                },
            )
        } else {
            None
        }
    } else {
        None
    }
}

pub open spec fn is_quoted(t: Seq<char>) -> bool {
    t.len() >= 2 && t[0] == '"' && t[t.len() - 1] == '"'
}

/// Whether `v` is what the value text `t` of a field condition stands for.
pub open spec fn literal_value(t: Seq<char>, v: Value) -> bool {
    if is_quoted(t) {
        v is Str && v->Str_0@ == t.subrange(1, t.len() - 1)
    } else if parse_i64_spec(t) is Some {
        v == Value::Number(Number { units: (parse_i64_spec(t)->0 * UNITS_PER_ONE) as i128 })
    } else if parse_decimal_spec(t) is Some {
        v == Value::Number(Number { units: parse_decimal_spec(t)->0 as i128 })
    } else if t == seq!['t', 'r', 'u', 'e'] {
        v == Value::Bool(true)
    } else if t == seq!['f', 'a', 'l', 's', 'e'] {
        v == Value::Bool(false)
    } else {
        v is Str && v->Str_0@ == t
    }
}

/// Whether the clause `t` parses.
pub open spec fn clause_parses(t: Seq<char>) -> bool {
    match first_operator(t) {
        None => false,
        Some((op, pos)) => axis_of(clause_field(t, op, pos)) is None || parse_u32_spec(
            clause_value(t, op, pos),
        ) is Some,
    }
}

/// Whether `c` is the condition that the clause `t` writes.
pub open spec fn parsed_condition(t: Seq<char>, c: Condition) -> bool {
    match first_operator(t) {
        None => false,
        Some((op, pos)) => {
            let f = clause_field(t, op, pos);
            let v = clause_value(t, op, pos);
            match axis_of(f) {
                Some(axis) => parse_u32_spec(v) is Some && c == Condition::Coordinate {
                    field: axis,
                    op,
                    value: parse_u32_spec(v)->0,
                },
                None => match c {
                    Condition::JsonField { field, op: o, value } => field@ == f && o == op
                        && literal_value(v, value),
                    _ => false,
                },
            }
        },
    }
}

pub open spec fn is_keyword_char(c: char, lower: char, upper: char) -> bool {
    c == lower || c == upper
}

/// Whether `s` begins with `WHERE`, in any case.
pub open spec fn starts_with_where(s: Seq<char>) -> bool {
    s.len() >= 5 && is_keyword_char(s[0], 'w', 'W') && is_keyword_char(s[1], 'h', 'H')
        && is_keyword_char(s[2], 'e', 'E') && is_keyword_char(s[3], 'r', 'R') && is_keyword_char(
        s[4],
        'e',
        'E',
    )
}

pub open spec fn and_separator() -> Seq<char> {
    seq![' ', 'A', 'N', 'D', ' ']
}

/// The clauses of a filter text that begins with `WHERE`, each trimmed.
pub open spec fn clauses(s: Seq<char>) -> Seq<Seq<char>> {
    let t = trim(s);
    let body = trim(t.subrange(5, t.len() as int));
    split(body, and_separator()).map_values(|c: Seq<char>| trim(c))
}

/// Whether the filter text `s` parses.
pub open spec fn query_parses(s: Seq<char>) -> bool {
    starts_with_where(trim(s)) && forall|i: int|
        0 <= i < clauses(s).len() ==> clause_parses(#[trigger] clauses(s)[i])
}

/// Whether `q` is the query that the filter text `s` writes.
pub open spec fn parsed_query(s: Seq<char>, q: Query) -> bool {
    q.conditions@.len() == clauses(s).len() && forall|i: int|
        0 <= i < clauses(s).len() ==> parsed_condition(
            #[trigger] clauses(s)[i],
            q.conditions@[i],
        )
}

/// A copy of `s[lo..hi]`.
pub(crate) fn sub_vec(s: &Vec<char>, lo: usize, hi: usize) -> (r: Vec<char>)
    requires
        lo <= hi <= s@.len(),
    ensures
        r@ == s@.subrange(lo as int, hi as int),
{
    let mut r: Vec<char> = Vec::new();
    let mut k: usize = lo;
    while k < hi
        invariant
            lo <= k <= hi <= s@.len(),
            r@ == s@.subrange(lo as int, k as int),
        decreases hi - k,
    {
        r.push(s[k]);
        k = k + 1;
        assert(r@ =~= s@.subrange(lo as int, k as int));
    }
    r
}

fn find_op(t: &Vec<char>, op: ComparisonOp) -> (r: Option<usize>)
    ensures
        r matches Some(i) ==> find_from(t@, op_text(op), 0) == Some(i as int),
        r is None ==> find_from(t@, op_text(op), 0) is None,
{
    let pat: Vec<char> = match op {
        ComparisonOp::Equal => vec!['='],
        ComparisonOp::NotEqual => vec!['!', '='],
        ComparisonOp::GreaterThan => vec!['>'],
        ComparisonOp::LessThan => vec!['<'],
        ComparisonOp::GreaterThanOrEqual => vec!['>', '='],
        ComparisonOp::LessThanOrEqual => vec!['<', '='],
    };
    assert(pat@ =~= op_text(op));
    find_exec(t, pat.as_slice(), 0)
}


fn first_operator_exec(t: &Vec<char>) -> (r: Option<(ComparisonOp, usize)>)
    ensures
        r matches Some((op, i)) ==> first_operator(t@) == Some((op, i as int)) && find_from(
            t@,
            op_text(op),
            0,
        ) == Some(i as int),
        r is None ==> first_operator(t@) is None,
{
    if let Some(i) = find_op(t, ComparisonOp::GreaterThanOrEqual) {
        return Some((ComparisonOp::GreaterThanOrEqual, i));
    }
    if let Some(i) = find_op(t, ComparisonOp::LessThanOrEqual) {
        return Some((ComparisonOp::LessThanOrEqual, i));
    }
    if let Some(i) = find_op(t, ComparisonOp::NotEqual) {
        return Some((ComparisonOp::NotEqual, i));
    }
    if let Some(i) = find_op(t, ComparisonOp::Equal) {
        return Some((ComparisonOp::Equal, i));
    }
    if let Some(i) = find_op(t, ComparisonOp::GreaterThan) {
        return Some((ComparisonOp::GreaterThan, i));
    }
    if let Some(i) = find_op(t, ComparisonOp::LessThan) {
        return Some((ComparisonOp::LessThan, i));
    }
    None
}

/// What `u32::from_str` gives for `t`.
pub fn parse_u32(t: &Vec<char>) -> (r: Option<u32>)
    ensures
        r == parse_u32_spec(t@),
{
    let start: usize = if t.len() > 0 && t[0] == '+' {
        1
    } else {
        0
    };
    assert(unsigned_body(t@) =~= t@.subrange(start as int, t@.len() as int));
    if start == t.len() {
        return None;
    }
    match digits_exec(t, start, t.len(), u32::MAX as u64) {
        Some(v) => Some(v as u32),
        None => None,
    }
}

/// What `i64::from_str` gives for `t`.
pub fn parse_i64(t: &Vec<char>) -> (r: Option<i64>)
    ensures
        r == parse_i64_spec(t@),
{
    let neg = t.len() > 0 && t[0] == '-';
    let start: usize = if t.len() > 0 && (t[0] == '+' || t[0] == '-') {
        1
    } else {
        0
    };
    assert(neg ==> t@.drop_first() =~= t@.subrange(start as int, t@.len() as int));
    assert(!neg ==> unsigned_body(t@) =~= t@.subrange(start as int, t@.len() as int));
    if start == t.len() {
        return None;
    }
    if neg {
        match digits_exec(t, start, t.len(), 0x8000_0000_0000_0000u64) {
            Some(v) => {
                if v == 0x8000_0000_0000_0000u64 {
                    Some(i64::MIN)
                } else {
                    Some(-(v as i64))
                }
            },
            None => None,
        }
    } else {
        match digits_exec(t, start, t.len(), i64::MAX as u64) {
            Some(v) => Some(v as i64),
            None => None,
        }
    }
}

fn exp_marker_exec(b: &Vec<char>) -> (r: usize)
    ensures
        r == exp_marker(b@, 0),
        r <= b@.len(),
{
    let mut i: usize = 0;
    while i < b.len() && b[i] != 'e' && b[i] != 'E'
        invariant
            i <= b@.len(),
            exp_marker(b@, 0) == exp_marker(b@, i as int),
        decreases b@.len() - i,
    {
        i = i + 1;
    }
    i
}

/// The exponent written in `b[from..]`, as `exponent_value` describes it.
fn exponent_exec(b: &Vec<char>, from: usize) -> (r: Option<i128>)
    requires
        from <= b@.len(),
    ensures
        r matches Some(e) ==> exponent_value(b@.subrange(from as int, b@.len() as int)) == Some(
            e as int,
        ),
        r is None ==> exponent_value(b@.subrange(from as int, b@.len() as int)) is None,
        r matches Some(e) ==> -1000 <= e <= 1000,
{
    let ghost e = b@.subrange(from as int, b@.len() as int);
    let n = b.len();
    let neg = from < n && b[from] == '-';
    let start: usize = if from < n && (b[from] == '+' || b[from] == '-') {
        from + 1
    } else {
        from
    };
    assert(neg ==> e.drop_first() =~= b@.subrange(start as int, n as int));
    assert(!neg ==> unsigned_body(e) =~= b@.subrange(start as int, n as int));
    if start == n {
        return None;
    }
    match digits_exec(b, start, n, MAX_EXPONENT) {
        Some(v) => if neg {
            Some(-(v as i128))
        } else {
            Some(v as i128)
        },
        None => None,
    }
}

fn all_digits_exec(v: &Vec<char>) -> (r: bool)
    ensures
        r == all_digits(v@),
{
    let mut i: usize = 0;
    while i < v.len()
        invariant
            i <= v@.len(),
            forall|m: int| 0 <= m < i ==> crate::text::is_digit(#[trigger] v@[m]),
        decreases v@.len() - i,
    {
        if !('0' <= v[i] && v[i] <= '9') {
            assert(!crate::text::is_digit(v@[i as int]));
            return false;
        }
        i = i + 1;
    }
    true
}

/// `m * 10^s`, where it is at most `i128::MAX`.
fn scale_up(m: u128, s: u128) -> (r: Option<u128>)
    ensures
        r matches Some(v) ==> v == m * pow10(s as nat) && v <= i128::MAX,
        r is None ==> m * pow10(s as nat) > i128::MAX,
{
    let max: u128 = i128::MAX as u128;
    if m > max {
        proof {
            lemma_pow10_mono(0, s as nat);
            assert(m * pow10(s as nat) >= m) by (nonlinear_arith)
                requires
                    pow10(s as nat) >= 1,
            ;
        }
        return None;
    }
    let mut acc: u128 = m;
    let mut k: u128 = 0;
    assert(pow10(0) == 1);
    assert(m * pow10(0) == m);
    while k < s
        invariant
            k <= s,
            acc == m * pow10(k as nat),
            acc <= max,
            max == i128::MAX,
        decreases s - k,
    {
        assert(pow10((k + 1) as nat) == 10 * pow10(k as nat));
        if acc > max / 10 {
            proof {
                lemma_pow10_mono((k + 1) as nat, s as nat);
                assert(m * pow10(s as nat) >= m * pow10((k + 1) as nat)) by (nonlinear_arith)
                    requires
                        pow10(s as nat) >= pow10((k + 1) as nat),
                ;
                assert(m * pow10((k + 1) as nat) == acc * 10) by (nonlinear_arith)
                    requires
                        acc == m * pow10(k as nat),
                        pow10((k + 1) as nat) == 10 * pow10(k as nat),
                ;
            }
            return None;
        }
        proof {
            assert(m * pow10((k + 1) as nat) == acc * 10) by (nonlinear_arith)
                requires
                    acc == m * pow10(k as nat),
                    pow10((k + 1) as nat) == 10 * pow10(k as nat),
            ;
        }
        acc = acc * 10;
        k = k + 1;
    }
    Some(acc)
}

/// `shifted_value(digits, shift)`, where it is at most `i128::MAX`.
fn shifted_exec(digits: &Vec<char>, shift: i128) -> (r: Option<u128>)
    requires
        all_digits(digits@),
        shift > i128::MIN,
    ensures
        r matches Some(v) ==> v == shifted_value(digits@, shift as int) && v <= i128::MAX,
        r is None ==> shifted_value(digits@, shift as int) > i128::MAX,
{
    let max: u128 = i128::MAX as u128;
    let n = digits.len();
    assert(digits@.subrange(0, n as int) =~= digits@);
    if shift >= 0 {
        match digits_exec_wide(digits, 0, n, max) {
            Some(m) => scale_up(m, shift as u128),
            None => {
                proof {
                    lemma_pow10_mono(0, shift as nat);
                    assert(digits_value(digits@) * pow10(shift as nat) >= digits_value(digits@))
                        by (nonlinear_arith)
                        requires
                            pow10(shift as nat) >= 1,
                    ;
                }
                None
            },
        }
    } else if (-shift) as u128 >= n as u128 {
        Some(0)
    } else {
        let keep = n - (-shift) as usize;
        assert(all_digits(digits@.subrange(0, keep as int)));
        digits_exec_wide(digits, 0, keep, max)
    }
}

/// The digits of a mantissa without its point, and the number of fraction digits.
fn mantissa_digits(mant: &Vec<char>) -> (r: Option<(Vec<char>, usize)>)
    ensures
        ({
            let ip = decimal_parts(mant@).0;
            let fp = decimal_parts(mant@).1;
            match r {
                Some((d, fl)) => ip.len() + fp.len() > 0 && all_digits(ip) && all_digits(fp)
                    && d@ == ip + fp && fl == fp.len(),
                None => !(ip.len() + fp.len() > 0 && all_digits(ip) && all_digits(fp)),
            }
        }),
{
    let mant_len = mant.len();
    let dot = vec!['.'];
    assert(dot@ =~= seq!['.']);
    let (int_end, frac_start) = match find_exec(mant, dot.as_slice(), 0) {
        Some(d) => {
            proof {
                lemma_find_from_bounds(mant@, seq!['.'], 0);
            }
            (d, d + 1)
        },
        None => (mant.len(), mant.len()),
    };
    let ghost ip = decimal_parts(mant@).0;
    let ghost fp = decimal_parts(mant@).1;
    assert(ip =~= mant@.subrange(0, int_end as int));
    assert(fp =~= mant@.subrange(frac_start as int, mant@.len() as int));
    let frac_len = mant.len() - frac_start;
    if int_end + frac_len == 0 {
        return None;
    }
    let mut digits = sub_vec(mant, 0, int_end);
    let mut k: usize = frac_start;
    while k < mant.len()
        invariant
            frac_start <= k <= mant@.len(),
            digits@ == ip + mant@.subrange(frac_start as int, k as int),
        decreases mant@.len() - k,
    {
        digits.push(mant[k]);
        k = k + 1;
        assert(digits@ =~= ip + mant@.subrange(frac_start as int, k as int));
    }
    assert(digits@ =~= ip + fp);
    if !all_digits_exec(&digits) {
        assert(!(all_digits(ip) && all_digits(fp))) by {
            if all_digits(ip) && all_digits(fp) {
                assert forall|m: int| 0 <= m < digits@.len() implies crate::text::is_digit(
                    #[trigger] digits@[m],
                ) by {
                    if m < ip.len() {
                        assert(digits@[m] == ip[m]);
                    } else {
                        assert(digits@[m] == fp[m - ip.len()]);
                    }
                }
            }
        }
        return None;
    }
    assert(all_digits(ip) && all_digits(fp)) by {
        assert forall|m: int| 0 <= m < ip.len() implies crate::text::is_digit(#[trigger] ip[m]) by {
            assert(digits@[m] == ip[m]);
        }
        assert forall|m: int| 0 <= m < fp.len() implies crate::text::is_digit(#[trigger] fp[m]) by {
            assert(digits@[ip.len() + m] == fp[m]);
        }
    }
    Some((digits, frac_len))
}

/// The units of the decimal literal `t`, as `parse_decimal_spec` describes it.
pub fn parse_decimal(t: &Vec<char>) -> (r: Option<i128>)
    ensures
        r matches Some(u) ==> parse_decimal_spec(t@) == Some(u as int),
        r is None ==> parse_decimal_spec(t@) is None,
{
    let neg = t.len() > 0 && t[0] == '-';
    let start: usize = if t.len() > 0 && (t[0] == '+' || t[0] == '-') {
        1
    } else {
        0
    };
    let b = sub_vec(t, start, t.len());
    assert(neg ==> t@.drop_first() =~= b@);
    assert(!neg ==> unsigned_body(t@) =~= b@);
    let p = exp_marker_exec(&b);
    let mant = sub_vec(&b, 0, p);
    let exp: i128 = if p < b.len() {
        match exponent_exec(&b, p + 1) {
            Some(e) => e,
            None => {
                return None;
            },
        }
    } else {
        0
    };
    let (digits, frac_len) = match mantissa_digits(&mant) {
        Some(d) => d,
        None => {
            return None;
        },
    };
    let ghost ip = decimal_parts(mant@).0;
    let ghost fp = decimal_parts(mant@).1;
    let shift: i128 = 18 + exp - frac_len as i128;
    let mag: u128 = match shifted_exec(&digits, shift) {
        Some(v) => v,
        None => {
            return None;
        },
    };
    if neg {
        Some(-(mag as i128))
    } else {
        Some(mag as i128)
    }
}

/// The value that the value text `t` of a field condition stands for.
fn literal_exec(t: &Vec<char>) -> (r: Value)
    ensures
        literal_value(t@, r),
{
    let n = t.len();
    if n >= 2 && t[0] == '"' && t[n - 1] == '"' {
        let inner = sub_vec(t, 1, n - 1);
        return Value::Str(string_of(inner.as_slice()));
    }
    if let Some(i) = parse_i64(t) {
        return Value::Number(Number::from_i64(i));
    }
    if let Some(u) = parse_decimal(t) {
        return Value::Number(Number { units: u });
    }
    if n == 4 && t[0] == 't' && t[1] == 'r' && t[2] == 'u' && t[3] == 'e' {
        assert(t@ =~= seq!['t', 'r', 'u', 'e']);
        return Value::Bool(true);
    }
    if n == 5 && t[0] == 'f' && t[1] == 'a' && t[2] == 'l' && t[3] == 's' && t[4] == 'e' {
        assert(t@ =~= seq!['f', 'a', 'l', 's', 'e']);
        return Value::Bool(false);
    }
    assert(t@ != seq!['t', 'r', 'u', 'e'] && t@ != seq!['f', 'a', 'l', 's', 'e']) by {
        if t@ == seq!['t', 'r', 'u', 'e'] {
            assert(t@[0] == 't');
        }
        if t@ == seq!['f', 'a', 'l', 's', 'e'] {
            assert(t@[0] == 'f');
        }
    }
    Value::Str(string_of(t.as_slice()))
}


/// Parses one clause, `<field><op><value>`.
pub fn parse_condition(t: &Vec<char>) -> (r: Result<Condition, PngDbError>)
    ensures
        r is Ok <==> clause_parses(t@),
        r matches Ok(c) ==> parsed_condition(t@, c),
        r matches Err(e) ==> e is QueryParse,
{
    match first_operator_exec(t) {
        None => Err(PngDbError::QueryParse(string_of(t.as_slice()))),
        Some((op, pos)) => {
            proof {
                lemma_find_from_bounds(t@, op_text(op), 0);
            }
            let op_len: usize = match op {
                ComparisonOp::Equal | ComparisonOp::GreaterThan | ComparisonOp::LessThan => 1,
                _ => 2,
            };
            assert(op_len == op_text(op).len());
            let n = t.len();
            let (fa, fb) = trim_bounds(t, 0, pos);
            let (va, vb) = trim_bounds(t, pos + op_len, n);
            let field = sub_vec(t, fa, fb);
            let value_text = sub_vec(t, va, vb);
            let is_x = field.len() == 1 && field[0] == 'x';
            let is_y = field.len() == 1 && field[0] == 'y';
            proof {
                if is_x {
                    assert(field@ =~= seq!['x']);
                } else if is_y {
                    assert(field@ =~= seq!['y']);
                } else {
                    if field@ == seq!['x'] {
                        assert(field@[0] == 'x');
                    }
                    if field@ == seq!['y'] {
                        assert(field@[0] == 'y');
                    }
                }
            }
            if is_x || is_y {
                match parse_u32(&value_text) {
                    Some(value) => Ok(
                        Condition::Coordinate {
                            field: if is_x {
                                Axis::X
                            } else {
                                Axis::Y
                            },
                            op,
                            value,
                        },
                    ),
                    None => Err(PngDbError::QueryParse(string_of(value_text.as_slice()))),
                }
            } else {
                Ok(
                    Condition::JsonField {
                        field: string_of(field.as_slice()),
                        op,
                        value: literal_exec(&value_text),
                    },
                )
            }
        },
    }
}

/// The trimmed pieces of `body` between the ` AND ` separators.
pub open spec fn body_clauses(body: Seq<char>) -> Seq<Seq<char>> {
    split(body, and_separator()).map_values(|c: Seq<char>| trim(c))
}

fn parse_clauses(body: &Vec<char>) -> (r: Result<Vec<Condition>, PngDbError>)
    ensures
        r is Ok <==> forall|j: int|
            0 <= j < body_clauses(body@).len() ==> clause_parses(#[trigger] body_clauses(body@)[j]),
        r matches Ok(v) ==> v@.len() == body_clauses(body@).len() && forall|j: int|
            0 <= j < v@.len() ==> parsed_condition(#[trigger] body_clauses(body@)[j], v@[j]),
        r matches Err(e) ==> e is QueryParse,
{
    let sep = vec![' ', 'A', 'N', 'D', ' '];
    assert(sep@ =~= and_separator());
    let parts = split_bounds(body, sep.as_slice());
    let ghost cl = body_clauses(body@);
    let mut conditions: Vec<Condition> = Vec::new();
    let mut k: usize = 0;
    while k < parts.len()
        invariant
            k <= parts@.len(),
            cl == body_clauses(body@),
            cl.len() == parts@.len(),
            forall|j: int|
                0 <= j < parts@.len() ==> (#[trigger] parts@[j]).0 <= parts@[j].1 <= body@.len()
                    && body@.subrange(parts@[j].0 as int, parts@[j].1 as int) == split(
                    body@,
                    and_separator(),
                )[j],
            conditions@.len() == k,
            forall|j: int| 0 <= j < k ==> clause_parses(#[trigger] cl[j]),
            forall|j: int| 0 <= j < k ==> parsed_condition(#[trigger] cl[j], conditions@[j]),
        decreases parts@.len() - k,
    {
        let (lo, hi) = parts[k];
        let (p, q) = trim_bounds(body, lo, hi);
        let clause = sub_vec(body, p, q);
        assert(clause@ == cl[k as int]) by {
            assert(parts@[k as int].0 <= parts@[k as int].1);
        }
        match parse_condition(&clause) {
            Ok(cond) => {
                conditions.push(cond);
            },
            Err(e) => {
                return Err(e);
            },
        }
        k = k + 1;
    }
    Ok(conditions)
}

fn starts_with_where_exec(s: &Vec<char>, a: usize, b: usize) -> (r: bool)
    requires
        a <= b <= s@.len(),
    ensures
        r == starts_with_where(s@.subrange(a as int, b as int)),
{
    b - a >= 5 && (s[a] == 'w' || s[a] == 'W') && (s[a + 1] == 'h' || s[a + 1] == 'H') && (s[a
        + 2] == 'e' || s[a + 2] == 'E') && (s[a + 3] == 'r' || s[a + 3] == 'R') && (s[a + 4]
        == 'e' || s[a + 4] == 'E')
}

/// Parses a filter text, `WHERE <clause> [AND <clause>]*`.
pub fn parse_query(query_str: &str) -> (r: Result<Query, PngDbError>)
    ensures
        r is Ok <==> query_parses(query_str@),
        r matches Ok(q) ==> parsed_query(query_str@, q),
        r matches Err(e) ==> e is QueryParse,
{
    let s = chars_of(query_str);
    let (a, b) = trim_bounds(&s, 0, s.len());
    let ghost t = trim(s@);
    assert(s@.subrange(0, s@.len() as int) =~= s@);
    if !starts_with_where_exec(&s, a, b) {
        return Err(PngDbError::QueryParse(string_of(s.as_slice())));
    }
    let (c, d) = trim_bounds(&s, a + 5, b);
    let body = sub_vec(&s, c, d);
    assert(body@ =~= trim(t.subrange(5, t.len() as int))) by {
        assert(s@.subrange(a + 5, b as int) =~= t.subrange(5, t.len() as int));
    }
    assert(clauses(query_str@) == body_clauses(body@));
    match parse_clauses(&body) {
        Ok(conditions) => Ok(Query { conditions }),
        Err(e) => Err(e),
    }
}


// ---------------------------------------------------------------- laws

/// Two-character operators are recognised before the one-character operators they
/// contain: a clause holding `>=` has the operator `>=`, never `>` followed by `=`.
pub proof fn lemma_two_char_operator_first(t: Seq<char>)
    requires
        find_from(t, seq!['>', '='], 0) is Some,
    ensures
        first_operator(t) matches Some((op, pos)) && op == ComparisonOp::GreaterThanOrEqual
            && find_from(t, seq!['>', '='], 0) == Some(pos),
{
    assert(op_text(ComparisonOp::GreaterThanOrEqual) =~= seq!['>', '=']);
}

/// A string never compares with a number: every operator raises a type mismatch.
pub proof fn lemma_string_number_mismatch(s: String, n: Number, op: ComparisonOp)
    ensures
        compare_spec(Value::Str(s), Value::Number(n), op) == Err::<bool, PngDbError>(
            PngDbError::TypeMismatch,
        ),
        compare_spec(Value::Number(n), Value::Str(s), op) == Err::<bool, PngDbError>(
            PngDbError::TypeMismatch,
        ),
{
}

/// A field condition on a name that the payload lacks does not match, and raises
/// no error.
pub proof fn lemma_absent_field(row: DataRow, field: String, op: ComparisonOp, value: Value)
    requires
        object_field(row.data, field@) is None,
    ensures
        condition_spec(row, Condition::JsonField { field, op, value }) == Ok::<bool, PngDbError>(
            false,
        ),
{
}

/// Numbers closer than the tolerance are equal under `=` and not under `!=`.
pub proof fn lemma_numeric_tolerance(a: Number, b: Number)
    requires
        abs(a.units - b.units) < EPSILON_UNITS,
    ensures
        compare_spec(Value::Number(a), Value::Number(b), ComparisonOp::Equal) == Ok::<
            bool,
            PngDbError,
        >(true),
        compare_spec(Value::Number(a), Value::Number(b), ComparisonOp::NotEqual) == Ok::<
            bool,
            PngDbError,
        >(false),
{
}

} // verus!
