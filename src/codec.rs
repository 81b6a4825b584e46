use vstd::prelude::*;

use crate::error::PngDbError;
use crate::filter::parse_u32;
use crate::store::{DataRow, PngDatabase, Schema};
use crate::text::{
    decimal, digit_char, find_from, lemma_decimal, occurs_at, parse_u32_spec, split,
    split_bounds, split_from, string_of, unsigned_body,
};
use crate::value::{Value, lookup_from};

verus! {

/// Why the text of a stored entry could not be turned into a value.
#[derive(Debug, PartialEq)]
pub enum EntryFault {
    /// The compressed text could not be recovered from the container.
    Unreadable(String),
    /// The text is not valid JSON.
    BadJson(String),
}

/// A named text entry read back from a container, its text already read as JSON.
#[derive(Debug)]
pub struct StoredEntry {
    pub keyword: String,
    pub content: Result<Value, EntryFault>,
}

/// What a store writes into a container: the schema entry and one entry per row.
#[derive(Debug)]
pub struct EncodedStore<'a> {
    pub width: u32,
    pub height: u32,
    /// The text of the `schema` entry, as a JSON value.
    pub schema: Value,
    /// For each row, in order, its keyword and its payload.
    pub rows: Vec<(String, &'a Value)>,
}

pub open spec fn schema_keyword() -> Seq<char> {
    seq!['s', 'c', 'h', 'e', 'm', 'a']
}

pub open spec fn row_prefix() -> Seq<char> {
    seq!['r', 'o', 'w', '_']
}

/// `row_{x}_{y}`.
pub open spec fn row_keyword_spec(x: u32, y: u32) -> Seq<char> {
    row_prefix() + decimal(x as nat) + seq!['_'] + decimal(y as nat)
}

pub open spec fn is_row_keyword(k: Seq<char>) -> bool {
    k.len() >= 4 && k.subrange(0, 4) == row_prefix()
}

pub open spec fn coordinate_or_zero(t: Seq<char>) -> u32 {
    match parse_u32_spec(t) {
        Some(n) => n,
        None => 0,
    }
}

/// The coordinates a row keyword names: it must split on `_` into exactly three
/// parts; a part that is no number counts as zero.
pub open spec fn row_coords(k: Seq<char>) -> Option<(u32, u32)> {
    let parts = split(k, seq!['_']);
    if parts.len() == 3 {
        Some((coordinate_or_zero(parts[1]), coordinate_or_zero(parts[2])))
    } else {
        None
    }
}

/// Whether no two members of `m` share a name.
pub open spec fn member_names_unique(m: Seq<(String, Value)>) -> bool {
    forall|i: int, j: int|
        0 <= i < j < m.len() ==> (#[trigger] m[i]).0@ != (#[trigger] m[j]).0@
}

/// Whether `v` is the JSON form of the schema `fields`: `{name: label, ...}`.
pub open spec fn is_schema_value(v: Value, fields: Seq<(String, String)>) -> bool {
    match v {
        Value::Object(m) => m@.len() == fields.len() && forall|i: int|
            0 <= i < fields.len() ==> (#[trigger] m@[i]).0 == fields[i].0 && m@[i].1 == Value::Str(
                fields[i].1,
            ),
        _ => false,
    }
}

/// Whether all members of `m` are strings.
pub open spec fn all_str(m: Seq<(String, Value)>) -> bool {
    forall|i: int| 0 <= i < m.len() ==> (#[trigger] m[i]).1 is Str
}

/// The schema fields that the JSON value `v` holds, if it is a schema: an object
/// whose members are strings, each name once.
pub open spec fn schema_of_value(v: Value) -> Option<Seq<(String, String)>> {
    match v {
        Value::Object(m) => if all_str(m@) && member_names_unique(m@) {
            Some(m@.map_values(|e: (String, Value)| (e.0, e.1->Str_0)))
        } else {
            None
        },
        _ => None,
    }
}

/// The schema fields and rows that the first `n` entries give, or the error they raise.
pub open spec fn decode_fold(entries: Seq<StoredEntry>, n: int) -> Result<
    (Seq<(String, String)>, Seq<DataRow>),
    PngDbError,
>
    decreases n,
{
    if n <= 0 {
        Ok((Seq::empty(), Seq::empty()))
    } else {
        match decode_fold(entries, n - 1) {
            Err(e) => Err(e),
            Ok((fields, rows)) => {
                let en = entries[n - 1];
                if en.keyword@ == schema_keyword() {
                    match en.content {
                        Err(EntryFault::Unreadable(m)) => Err(PngDbError::ContainerFormat(m)),
                        Err(EntryFault::BadJson(m)) => Err(PngDbError::SchemaParse(m)),
                        Ok(v) => match schema_of_value(v) {
                            Some(f) => Ok((f, rows)),
                            None => Err(PngDbError::InvalidSchema),
                        },
                    }
                } else if is_row_keyword(en.keyword@) {
                    match row_coords(en.keyword@) {
                        None => Ok((fields, rows)),
                        Some((x, y)) => match en.content {
                            Err(EntryFault::Unreadable(m)) => Err(PngDbError::ContainerFormat(m)),
                            Err(EntryFault::BadJson(m)) => Err(PngDbError::RowParse(m)),
                            Ok(v) => Ok((fields, rows.push(DataRow { x, y, data: v }))),
                        },
                    }
                } else {
                    Ok((fields, rows))
                }
            },
        }
    }
}

pub open spec fn decode_spec(entries: Seq<StoredEntry>) -> Result<
    (Seq<(String, String)>, Seq<DataRow>),
    PngDbError,
> {
    decode_fold(entries, entries.len() as int)
}

/// Whether `enc` is what `db` writes into a container.
pub open spec fn is_encoding(db: PngDatabase, enc: EncodedStore) -> bool {
    &&& enc.width == db.width
    &&& enc.height == db.height
    &&& is_schema_value(enc.schema, db.schema.fields@)
    &&& enc.rows@.len() == db.rows@.len()
    &&& forall|i: int|
        0 <= i < db.rows@.len() ==> (#[trigger] enc.rows@[i]).0@ == row_keyword_spec(
            db.rows@[i].x,
            db.rows@[i].y,
        ) && *enc.rows@[i].1 == db.rows@[i].data
}

/// Whether `entries` are the entries of `enc`, in order, each text read back as written.
pub open spec fn read_back(enc: EncodedStore, entries: Seq<StoredEntry>) -> bool {
    &&& entries.len() == enc.rows@.len() + 1
    &&& entries[0].keyword@ == schema_keyword()
    &&& entries[0].content == Ok::<Value, EntryFault>(enc.schema)
    &&& forall|i: int|
        0 <= i < enc.rows@.len() ==> (#[trigger] entries[i + 1]).keyword@ == enc.rows@[i].0@
            && entries[i + 1].content == Ok::<Value, EntryFault>(*enc.rows@[i].1)
}

// ---------------------------------------------------------------- keywords

fn digit_char_exec(d: u32) -> (c: char)
    requires
        d < 10,
    ensures
        c == digit_char(d as nat),
{
    let table = vec!['0', '1', '2', '3', '4', '5', '6', '7', '8', '9'];
    assert(table@ =~= seq!['0', '1', '2', '3', '4', '5', '6', '7', '8', '9']);
    table[d as usize]
}

fn push_decimal(n: u32, out: &mut Vec<char>)
    ensures
        final(out)@ == old(out)@ + decimal(n as nat),
    decreases n,
{
    if n < 10 {
        out.push(digit_char_exec(n));
        assert(decimal(n as nat) =~= seq![digit_char(n as nat)]);
    } else {
        push_decimal(n / 10, out);
        out.push(digit_char_exec(n % 10));
        assert(decimal(n as nat) == decimal((n / 10) as nat).push(digit_char((n % 10) as nat)));
    }
    assert(final(out)@ =~= old(out)@ + decimal(n as nat));
}

/// The keyword of the entry that holds the row at `(x, y)`: `row_{x}_{y}`.
pub fn row_keyword(x: u32, y: u32) -> (r: String)
    ensures
        r@ == row_keyword_spec(x, y),
{
    let mut cs: Vec<char> = vec!['r', 'o', 'w', '_'];
    push_decimal(x, &mut cs);
    cs.push('_');
    push_decimal(y, &mut cs);
    assert(cs@ =~= row_keyword_spec(x, y));
    string_of(cs.as_slice())
}

fn keyword_is(k: &Vec<char>, word: &Vec<char>) -> (r: bool)
    ensures
        r == (k@ == word@),
{
    if k.len() != word.len() {
        return false;
    }
    let mut i: usize = 0;
    while i < k.len()
        invariant
            k@.len() == word@.len(),
            i <= k@.len(),
            forall|j: int| 0 <= j < i ==> k@[j] == word@[j],
        decreases k@.len() - i,
    {
        if k[i] != word[i] {
            return false;
        }
        i = i + 1;
    }
    assert(k@ =~= word@);
    true
}

fn is_row_keyword_exec(k: &Vec<char>) -> (r: bool)
    ensures
        r == is_row_keyword(k@),
{
    let r = k.len() >= 4 && k[0] == 'r' && k[1] == 'o' && k[2] == 'w' && k[3] == '_';
    proof {
        if k@.len() >= 4 {
            if r {
                assert(k@.subrange(0, 4) =~= row_prefix());
            } else if k@.subrange(0, 4) == row_prefix() {
                assert(k@.subrange(0, 4)[0] == k@[0]);
                assert(k@.subrange(0, 4)[1] == k@[1]);
                assert(k@.subrange(0, 4)[2] == k@[2]);
                assert(k@.subrange(0, 4)[3] == k@[3]);
            }
        }
    }
    r
}

fn coordinate_or_zero_exec(k: &Vec<char>, lo: usize, hi: usize) -> (r: u32)
    requires
        lo <= hi <= k@.len(),
    ensures
        r == coordinate_or_zero(k@.subrange(lo as int, hi as int)),
{
    let part = crate::filter::sub_vec(k, lo, hi);
    match parse_u32(&part) {
        Some(n) => n,
        None => 0,
    }
}

/// The coordinates that a row keyword names, as `row_coords` describes them.
pub fn parse_row_keyword(keyword: &str) -> (r: Option<(u32, u32)>)
    ensures
        r == row_coords(keyword@),
{
    let k = crate::text::chars_of(keyword);
    let sep = vec!['_'];
    assert(sep@ =~= seq!['_']);
    let parts = split_bounds(&k, sep.as_slice());
    if parts.len() != 3 {
        return None;
    }
    let (a, b) = parts[1];
    let (c, d) = parts[2];
    Some((coordinate_or_zero_exec(&k, a, b), coordinate_or_zero_exec(&k, c, d)))
}


// ---------------------------------------------------------------- schema

/// The JSON form of the schema `fields`: `{name: label, ...}`.
pub fn schema_value(schema: &Schema) -> (r: Value)
    ensures
        is_schema_value(r, schema.fields@),
{
    let mut m: Vec<(String, Value)> = Vec::new();
    let mut i: usize = 0;
    while i < schema.fields.len()
        invariant
            i <= schema.fields@.len(),
            m@.len() == i,
            forall|j: int|
                0 <= j < i ==> (#[trigger] m@[j]).0 == schema.fields@[j].0 && m@[j].1 == Value::Str(
                    schema.fields@[j].1,
                ),
        decreases schema.fields@.len() - i,
    {
        let name = schema.fields[i].0.clone();
        let label = schema.fields[i].1.clone();
        m.push((name, Value::Str(label)));
        i = i + 1;
    }
    Value::Object(m)
}

fn member_names_unique_exec(m: &Vec<(String, Value)>) -> (r: bool)
    ensures
        r == member_names_unique(m@),
{
    let mut i: usize = 0;
    while i < m.len()
        invariant
            i <= m@.len(),
            forall|a: int, b: int| 0 <= a < b < i ==> (#[trigger] m@[a]).0@ != (#[trigger] m@[b]).0@,
        decreases m@.len() - i,
    {
        let mut j: usize = 0;
        while j < i
            invariant
                j <= i < m@.len(),
                forall|a: int| 0 <= a < j ==> (#[trigger] m@[a]).0@ != m@[i as int].0@,
            decreases i - j,
        {
            if m[j].0 == m[i].0 {
                assert(!member_names_unique(m@)) by {
                    assert(m@[j as int].0@ == m@[i as int].0@);
                }
                return false;
            }
            j = j + 1;
        }
        i = i + 1;
    }
    true
}

/// The schema fields that the JSON value `v` holds, as `schema_of_value` describes them.
pub fn schema_from_value(v: Value) -> (r: Option<Vec<(String, String)>>)
    ensures
        r matches Some(f) ==> schema_of_value(v) == Some(f@),
        r is None ==> schema_of_value(v) is None,
{
    let ghost v0 = v;
    assert(v0 == v);
    match v {
        Value::Object(mut m) => {
            let ghost m0 = m@;
            if !member_names_unique_exec(&m) {
                return None;
            }
            assert(all_str(m0) ==> schema_of_value(v0) == Some(
                m0.map_values(|e: (String, Value)| (e.0, e.1->Str_0)),
            ));
            assert(!all_str(m0) ==> schema_of_value(v0) is None);
            let n = m.len();
            let mut out: Vec<(String, String)> = Vec::new();
            let mut k: usize = 0;
            while k < n
                invariant
                    k <= n == m0.len(),
                    m@ == m0.subrange(k as int, n as int),
                    out@ == m0.subrange(0, k as int).map_values(
                        |e: (String, Value)| (e.0, e.1->Str_0),
                    ),
                    forall|j: int| 0 <= j < k ==> (#[trigger] m0[j]).1 is Str,
                    !all_str(m0) ==> schema_of_value(v0) is None,
                    v0 == v,
                decreases n - k,
            {
                let (name, val) = m.remove(0);
                assert(m0[k as int] == (name, val));
                match val {
                    Value::Str(label) => {
                        out.push((name, label));
                    },
                    _ => {
                        assert(!(m0[k as int].1 is Str));
                        assert(!all_str(m0));
                        return None;
                    },
                }
                k = k + 1;
                assert(out@ =~= m0.subrange(0, k as int).map_values(
                    |e: (String, Value)| (e.0, e.1->Str_0),
                ));
                assert(m@ =~= m0.subrange(k as int, n as int));
            }
            assert(m0.subrange(0, n as int) =~= m0);
            Some(out)
        },
        _ => None,
    }
}

// ---------------------------------------------------------------- store

impl PngDatabase {
    /// The entries that this store writes into a container, in order: the schema,
    /// then one `row_{x}_{y}` entry per row.
    pub fn encode(&self) -> (r: EncodedStore<'_>)
        ensures
            is_encoding(*self, r),
    {
        let schema = schema_value(&self.schema);
        let mut rows: Vec<(String, &Value)> = Vec::new();
        let mut i: usize = 0;
        while i < self.rows.len()
            invariant
                i <= self.rows@.len(),
                rows@.len() == i,
                forall|j: int|
                    0 <= j < i ==> (#[trigger] rows@[j]).0@ == row_keyword_spec(
                        self.rows@[j].x,
                        self.rows@[j].y,
                    ) && *rows@[j].1 == self.rows@[j].data,
            decreases self.rows@.len() - i,
        {
            let row = &self.rows[i];
            rows.push((row_keyword(row.x, row.y), &row.data));
            i = i + 1;
        }
        EncodedStore { width: self.width, height: self.height, schema, rows }
    }

    /// The store that a container of the given size and entries holds. Entries named
    /// neither `schema` nor `row_*` are passed over, and so is a row entry whose name
    /// does not split into three parts.
    pub fn decode(width: u32, height: u32, entries: Vec<StoredEntry>) -> (r: Result<
        PngDatabase,
        PngDbError,
    >)
        ensures
            r is Ok <==> decode_spec(entries@) is Ok,
            r matches Ok(db) ==> db.schema.wf() && db.width == width && db.height == height && decode_spec(entries@)
                == Ok::<(Seq<(String, String)>, Seq<DataRow>), PngDbError>(
                (db.schema.fields@, db.rows@),
            ),
            r matches Err(e) ==> decode_spec(entries@) == Err::<
                (Seq<(String, String)>, Seq<DataRow>),
                PngDbError,
            >(e),
    {
        let ghost orig = entries@;
        let mut pending = entries;
        let n = pending.len();
        let mut fields: Vec<(String, String)> = Vec::new();
        let mut rows: Vec<DataRow> = Vec::new();
        let schema_chars = vec!['s', 'c', 'h', 'e', 'm', 'a'];
        assert(schema_chars@ =~= schema_keyword());
        let mut k: usize = 0;
        while k < n
            invariant
                k <= n == orig.len(),
                orig == entries@,
                pending@ == orig.subrange(k as int, n as int),
                schema_chars@ == schema_keyword(),
                crate::store::names_unique(fields@),
                decode_fold(orig, k as int) == Ok::<
                    (Seq<(String, String)>, Seq<DataRow>),
                    PngDbError,
                >((fields@, rows@)),
            decreases n - k,
        {
            let entry = pending.remove(0);
            assert(entry == orig[k as int]);
            assert(pending@ =~= orig.subrange(k + 1, n as int));
            let kw = crate::text::chars_of(entry.keyword.as_str());
            assert(kw@ == orig[k as int].keyword@);
            assert(decode_fold(orig, k as int) is Ok);
            if keyword_is(&kw, &schema_chars) {
                match entry.content {
                    Err(EntryFault::Unreadable(m)) => {
                        assert(decode_fold(orig, k + 1) == Err::<(Seq<(String, String)>, Seq<DataRow>), PngDbError>(PngDbError::ContainerFormat(m)));
                        proof { lemma_fold_settled(orig, k + 1, n as int); }
                        return Err(PngDbError::ContainerFormat(m));
                    },
                    Err(EntryFault::BadJson(m)) => {
                        assert(decode_fold(orig, k + 1) == Err::<(Seq<(String, String)>, Seq<DataRow>), PngDbError>(PngDbError::SchemaParse(m)));
                        proof { lemma_fold_settled(orig, k + 1, n as int); }
                        return Err(PngDbError::SchemaParse(m));
                    },
                    Ok(v) => match schema_from_value(v) {
                        Some(f) => {
                            proof { lemma_schema_of_value_unique(v); }
                            fields = f;
                        },
                        None => {
                            assert(decode_fold(orig, k + 1) == Err::<(Seq<(String, String)>, Seq<DataRow>), PngDbError>(PngDbError::InvalidSchema));
                            proof { lemma_fold_settled(orig, k + 1, n as int); }
                            return Err(PngDbError::InvalidSchema);
                        },
                    },
                }
            } else if is_row_keyword_exec(&kw) {
                if let Some((x, y)) = parse_row_keyword(entry.keyword.as_str()) {
                    match entry.content {
                        Err(EntryFault::Unreadable(m)) => {
                            assert(decode_fold(orig, k + 1) == Err::<(Seq<(String, String)>, Seq<DataRow>), PngDbError>(PngDbError::ContainerFormat(m)));
                            proof { lemma_fold_settled(orig, k + 1, n as int); }
                            return Err(PngDbError::ContainerFormat(m));
                        },
                        Err(EntryFault::BadJson(m)) => {
                            assert(decode_fold(orig, k + 1) == Err::<(Seq<(String, String)>, Seq<DataRow>), PngDbError>(PngDbError::RowParse(m)));
                            proof { lemma_fold_settled(orig, k + 1, n as int); }
                            return Err(PngDbError::RowParse(m));
                        },
                        Ok(v) => {
                            rows.push(DataRow { x, y, data: v });
                        },
                    }
                }
            }
            k = k + 1;
        }
        Ok(PngDatabase { width, height, schema: Schema { fields }, rows })
    }
}

proof fn lemma_fold_settled(entries: Seq<StoredEntry>, k: int, n: int)
    requires
        0 <= k <= n,
        decode_fold(entries, k) is Err,
    ensures
        decode_fold(entries, n) == decode_fold(entries, k),
    decreases n - k,
{
    if k < n {
        lemma_fold_settled(entries, k, n - 1);
    }
}


// ---------------------------------------------------------------- laws

proof fn lemma_find_skip(s: Seq<char>, c: char, i: int, j: int)
    requires
        0 <= i <= j <= s.len(),
        forall|m: int| i <= m < j ==> s[m] != c,
    ensures
        j < s.len() && s[j] == c ==> find_from(s, seq![c], i) == Some(j),
        j == s.len() ==> find_from(s, seq![c], i) is None,
    decreases j - i,
{
    if i < s.len() {
        assert(s.subrange(i, i + 1) =~= seq![s[i]]);
        if i < j {
            assert(s.subrange(i, i + 1) != seq![c]) by {
                assert(s.subrange(i, i + 1)[0] == s[i]);
                assert(seq![c][0] == c);
            }
            assert(!occurs_at(s, seq![c], i));
            lemma_find_skip(s, c, i + 1, j);
        } else {
            assert(j < s.len() && s[j] == c ==> occurs_at(s, seq![c], i));
        }
    }
}

proof fn lemma_decimal_parses(n: u32)
    ensures
        parse_u32_spec(decimal(n as nat)) == Some(n),
        forall|m: int| 0 <= m < decimal(n as nat).len() ==> decimal(n as nat)[m] != '_',
{
    lemma_decimal(n as nat);
    let d = decimal(n as nat);
    assert(unsigned_body(d) == d);
    assert forall|m: int| 0 <= m < d.len() implies d[m] != '_' by {
        assert(crate::text::is_digit(d[m]));
    }
}

/// A row keyword gives back the coordinates it was written from.
pub proof fn lemma_row_keyword_round_trip(x: u32, y: u32)
    ensures
        is_row_keyword(row_keyword_spec(x, y)),
        row_keyword_spec(x, y) != schema_keyword(),
        row_coords(row_keyword_spec(x, y)) == Some((x, y)),
{
    let k = row_keyword_spec(x, y);
    let dx = decimal(x as nat);
    let dy = decimal(y as nat);
    lemma_decimal_parses(x);
    lemma_decimal_parses(y);
    let b: int = 4 + dx.len() as int;
    let sep = seq!['_'];
    assert(k.subrange(0, 4) =~= row_prefix());
    assert(k[0] == 'r');
    assert(forall|m: int| 4 <= m < b ==> k[m] == dx[m - 4]);
    assert(forall|m: int| b + 1 <= m < k.len() ==> k[m] == dy[m - b - 1]);
    assert(k[3] == '_' && k[b] == '_');
    lemma_find_skip(k, '_', 0, 3);
    lemma_find_skip(k, '_', 4, b);
    lemma_find_skip(k, '_', b + 1, k.len() as int);
    assert(split_from(k, sep, b + 1) =~= seq![k.subrange(b + 1, k.len() as int)]);
    assert(split_from(k, sep, 4) =~= seq![k.subrange(4, b)] + split_from(k, sep, b + 1));
    assert(split_from(k, sep, 0) =~= seq![k.subrange(0, 3)] + split_from(k, sep, 4));
    assert(k.subrange(4, b) =~= dx);
    assert(k.subrange(b + 1, k.len() as int) =~= dy);
    assert(split(k, sep).len() == 3);
}

proof fn lemma_schema_of_value_unique(v: Value)
    requires
        schema_of_value(v) is Some,
    ensures
        crate::store::names_unique(schema_of_value(v)->0),
{
    match v {
        Value::Object(m) => {
            let f = schema_of_value(v)->0;
            assert forall|i: int, j: int| 0 <= i < j < f.len() implies (#[trigger] f[i]).0@ != (
            #[trigger] f[j]).0@ by {
                assert(m@[i].0@ != m@[j].0@);
            }
        },
        _ => {},
    }
}

proof fn lemma_schema_value_round_trip(v: Value, fields: Seq<(String, String)>)
    requires
        is_schema_value(v, fields),
        crate::store::names_unique(fields),
    ensures
        schema_of_value(v) == Some(fields),
{
    match v {
        Value::Object(m) => {
            assert(member_names_unique(m@)) by {
                assert forall|i: int, j: int| 0 <= i < j < m@.len() implies (#[trigger] m@[i]).0@
                    != (#[trigger] m@[j]).0@ by {
                    assert(fields[i].0@ != fields[j].0@);
                }
            }
            assert(m@.map_values(|e: (String, Value)| (e.0, e.1->Str_0)) =~= fields);
        },
        _ => {},
    }
}

/// What a store writes into a container reads back as the same store: the same
/// schema fields and the same rows, in the same order. (The size travels in the
/// container's header and is handed to `decode` as it was written.)
pub proof fn lemma_round_trip(db: PngDatabase, enc: EncodedStore, entries: Seq<StoredEntry>)
    requires
        db.schema.wf(),
        is_encoding(db, enc),
        read_back(enc, entries),
    ensures
        enc.width == db.width && enc.height == db.height,
        decode_spec(entries) == Ok::<(Seq<(String, String)>, Seq<DataRow>), PngDbError>(
            (db.schema.fields@, db.rows@),
        ),
{
    lemma_round_trip_prefix(db, enc, entries, db.rows@.len() as int);
    assert(db.rows@.subrange(0, db.rows@.len() as int) =~= db.rows@);
}

proof fn lemma_round_trip_prefix(db: PngDatabase, enc: EncodedStore, entries: Seq<StoredEntry>, i: int)
    requires
        db.schema.wf(),
        is_encoding(db, enc),
        read_back(enc, entries),
        0 <= i <= db.rows@.len(),
    ensures
        decode_fold(entries, i + 1) == Ok::<(Seq<(String, String)>, Seq<DataRow>), PngDbError>(
            (db.schema.fields@, db.rows@.subrange(0, i)),
        ),
    decreases i,
{
    if i == 0 {
        lemma_schema_value_round_trip(enc.schema, db.schema.fields@);
        assert(db.rows@.subrange(0, 0) =~= Seq::<DataRow>::empty());
        assert(decode_fold(entries, 0) == Ok::<(Seq<(String, String)>, Seq<DataRow>), PngDbError>(
            (Seq::empty(), Seq::empty()),
        ));
    } else {
        lemma_round_trip_prefix(db, enc, entries, i - 1);
        let row = db.rows@[i - 1];
        lemma_row_keyword_round_trip(row.x, row.y);
        assert(entries[i].keyword@ == row_keyword_spec(row.x, row.y)) by {
            assert(enc.rows@[i - 1].0@ == row_keyword_spec(row.x, row.y));
            assert(entries[(i - 1) + 1].keyword@ == enc.rows@[i - 1].0@);
        }
        assert(entries[i].content == Ok::<Value, EntryFault>(row.data)) by {
            assert(entries[(i - 1) + 1].content == Ok::<Value, EntryFault>(*enc.rows@[i - 1].1));
        }
        assert(db.rows@.subrange(0, i) =~= db.rows@.subrange(0, i - 1).push(
            DataRow { x: row.x, y: row.y, data: row.data },
        ));
    }
}


/// A row entry whose keyword does not split into exactly three parts (`row_abc`) is
/// passed over, whatever its text: the entries before it decide the outcome, and
/// loading goes on.
pub proof fn lemma_malformed_keyword_skipped(entries: Seq<StoredEntry>, n: int)
    requires
        0 <= n < entries.len(),
        is_row_keyword(entries[n].keyword@),
        row_coords(entries[n].keyword@) is None,
    ensures
        decode_fold(entries, n + 1) == decode_fold(entries, n),
{
    assert(entries[n].keyword@ != schema_keyword()) by {
        assert(entries[n].keyword@.subrange(0, 4)[0] == entries[n].keyword@[0]);
        assert(row_prefix()[0] == 'r');
    }
}

} // verus!
