use vstd::prelude::*;
use vstd::string::StrSliceExecFns;

verus! {

/// Whether `c` is a Unicode `White_Space` character, as `char::is_whitespace` decides it.
pub open spec fn is_white(c: char) -> bool {
    ('\u{9}' <= c && c <= '\u{d}') || c == ' ' || c == '\u{85}' || c == '\u{a0}' || c
        == '\u{1680}' || ('\u{2000}' <= c && c <= '\u{200a}') || c == '\u{2028}' || c
        == '\u{2029}' || c == '\u{202f}' || c == '\u{205f}' || c == '\u{3000}'
}

/// Index of the first character at or after `i` that is not white space.
pub open spec fn lead(s: Seq<char>, i: int) -> int
    decreases s.len() - i,
{
    if 0 <= i < s.len() && is_white(s[i]) {
        lead(s, i + 1)
    } else {
        i
    }
}

/// End of the text once the white space before `j` (and not before `lo`) is dropped.
pub open spec fn trail(s: Seq<char>, lo: int, j: int) -> int
    decreases j - lo,
{
    if lo < j && j <= s.len() && is_white(s[j - 1]) {
        trail(s, lo, j - 1)
    } else {
        j
    }
}

/// `s` with leading and trailing white space removed.
pub open spec fn trim(s: Seq<char>) -> Seq<char> {
    let a = lead(s, 0);
    s.subrange(a, trail(s, a, s.len() as int))
}

/// Whether `pat` occurs in `s` at position `i`.
pub open spec fn occurs_at(s: Seq<char>, pat: Seq<char>, i: int) -> bool {
    0 <= i && i + pat.len() <= s.len() && s.subrange(i, i + pat.len()) == pat
}

/// The first position at or after `i` where `pat` occurs in `s`.
pub open spec fn find_from(s: Seq<char>, pat: Seq<char>, i: int) -> Option<int>
    decreases s.len() + 1 - i,
{
    if i < 0 || i + pat.len() > s.len() {
        None
    } else if occurs_at(s, pat, i) {
        Some(i)
    } else {
        find_from(s, pat, i + 1)
    }
}

/// The pieces of `s` from `start` on, cut at each occurrence of the non-empty `pat`.
pub open spec fn split_from(s: Seq<char>, pat: Seq<char>, start: int) -> Seq<Seq<char>>
    decreases s.len() + 1 - start,
{
    if pat.len() == 0 || start < 0 || start > s.len() {
        seq![]
    } else {
        match find_from(s, pat, start) {
            Some(i) => if start < i + pat.len() <= s.len() {
                seq![s.subrange(start, i)] + split_from(s, pat, i + pat.len())
            } else {
                seq![]
            },
            None => seq![s.subrange(start, s.len() as int)],
        }
    }
}

/// `s` cut at each occurrence of the non-empty `pat`, as `str::split` does.
pub open spec fn split(s: Seq<char>, pat: Seq<char>) -> Seq<Seq<char>> {
    split_from(s, pat, 0)
}

pub open spec fn is_digit(c: char) -> bool {
    '0' <= c && c <= '9'
}

pub open spec fn all_digits(s: Seq<char>) -> bool {
    forall|i: int| 0 <= i < s.len() ==> is_digit(#[trigger] s[i])
}

pub open spec fn digit_value(c: char) -> nat {
    (c as u32 - '0' as u32) as nat
}

/// The number that the decimal digits `s` write.
pub open spec fn digits_value(s: Seq<char>) -> nat
    decreases s.len(),
{
    if s.len() == 0 {
        0
    } else {
        digits_value(s.drop_last()) * 10 + digit_value(s.last())
    }
}

/// The text after an optional leading `+`.
pub open spec fn unsigned_body(s: Seq<char>) -> Seq<char> {
    if s.len() > 0 && s[0] == '+' {
        s.drop_first()
    } else {
        s
    }
}

/// What `u32::from_str` gives for `s`.
pub open spec fn parse_u32_spec(s: Seq<char>) -> Option<u32> {
    let b = unsigned_body(s);
    if b.len() > 0 && all_digits(b) && digits_value(b) <= u32::MAX {
        Some(digits_value(b) as u32)
    } else {
        None
    }
}

/// What `i64::from_str` gives for `s`.
pub open spec fn parse_i64_spec(s: Seq<char>) -> Option<i64> {
    if s.len() > 0 && s[0] == '-' {
        let b = s.drop_first();
        if b.len() > 0 && all_digits(b) && digits_value(b) <= 0x8000_0000_0000_0000 {
            Some((0 - digits_value(b)) as i64)
        } else {
            None
        }
    } else {
        let b = unsigned_body(s);
        if b.len() > 0 && all_digits(b) && digits_value(b) <= i64::MAX {
            Some(digits_value(b) as i64)
        } else {
            None
        }
    }
}

/// The decimal digits of `n`, without leading zeros.
pub open spec fn decimal(n: nat) -> Seq<char>
    decreases n,
{
    if n < 10 {
        seq![digit_char(n)]
    } else {
        decimal(n / 10).push(digit_char(n % 10))
    }
}

pub open spec fn digit_char(d: nat) -> char {
    seq!['0', '1', '2', '3', '4', '5', '6', '7', '8', '9'][d as int]
}

/// Ten to the power `n`.
pub open spec fn pow10(n: nat) -> nat
    decreases n,
{
    if n == 0 {
        1
    } else {
        10 * pow10((n - 1) as nat)
    }
}

pub proof fn lemma_pow10_mono(a: nat, b: nat)
    requires
        a <= b,
    ensures
        1 <= pow10(a) <= pow10(b),
    decreases b,
{
    if b > 0 {
        if a < b {
            lemma_pow10_mono(a, (b - 1) as nat);
        } else {
            lemma_pow10_mono((a - 1) as nat, (b - 1) as nat);
        }
    }
}

/// Digits only, with value at most `max`: the value; otherwise `None`.
pub(crate) fn digits_exec_wide(s: &Vec<char>, lo: usize, hi: usize, max: u128) -> (r: Option<u128>)
    requires
        lo <= hi <= s@.len(),
        max >= 9,
    ensures
        ({
            let t = s@.subrange(lo as int, hi as int);
            match r {
                Some(v) => all_digits(t) && digits_value(t) <= max && v == digits_value(t),
                None => !(all_digits(t) && digits_value(t) <= max),
            }
        }),
{
    let ghost t = s@.subrange(lo as int, hi as int);
    let mut k: usize = lo;
    while k < hi
        invariant
            lo <= k <= hi <= s@.len(),
            t == s@.subrange(lo as int, hi as int),
            forall|m: int| 0 <= m < k - lo ==> is_digit(#[trigger] t[m]),
        decreases hi - k,
    {
        if !('0' <= s[k] && s[k] <= '9') {
            assert(!is_digit(t[k - lo]));
            return None;
        }
        k = k + 1;
    }
    let mut acc: u128 = 0;
    let mut k: usize = lo;
    while k < hi
        invariant
            lo <= k <= hi <= s@.len(),
            t == s@.subrange(lo as int, hi as int),
            all_digits(t),
            acc <= max,
            acc == digits_value(t.subrange(0, k - lo)),
            max >= 9,
        decreases hi - k,
    {
        assert(is_digit(t[k - lo]) && t[k - lo] == s@[k as int]);
        let d = (s[k] as u32 - '0' as u32) as u128;
        proof {
            assert(t.subrange(0, k - lo + 1).drop_last() =~= t.subrange(0, k - lo));
            assert(digits_value(t.subrange(0, k - lo + 1)) == acc * 10 + d);
        }
        if acc > (max - d) / 10 {
            proof {
                lemma_digits_value_prefix_mono(t, k - lo + 1, t.len() as int);
                assert(t.subrange(0, t.len() as int) =~= t);
                assert(acc * 10 + d > max) by (nonlinear_arith)
                    requires
                        acc > (max - d) / 10,
                        d <= max,
                ;
            }
            return None;
        }
        proof {
            assert(acc * 10 + d <= max) by (nonlinear_arith)
                requires
                    acc <= (max - d) / 10,
                    d <= max,
            ;
        }
        acc = acc * 10 + d;
        k = k + 1;
    }
    assert(t.subrange(0, t.len() as int) =~= t);
    Some(acc)
}

proof fn lemma_digit_char(d: nat)
    requires
        d < 10,
    ensures
        is_digit(digit_char(d)),
        digit_value(digit_char(d)) == d,
{
    let t = seq!['0', '1', '2', '3', '4', '5', '6', '7', '8', '9'];
    assert(t[0] == '0' && t[1] == '1' && t[2] == '2' && t[3] == '3' && t[4] == '4');
    assert(t[5] == '5' && t[6] == '6' && t[7] == '7' && t[8] == '8' && t[9] == '9');
}

proof fn lemma_digits_value_prefix_mono(s: Seq<char>, i: int, j: int)
    requires
        0 <= i <= j <= s.len(),
    ensures
        digits_value(s.subrange(0, i)) <= digits_value(s.subrange(0, j)),
    decreases j - i,
{
    if i < j {
        lemma_digits_value_prefix_mono(s, i, j - 1);
        assert(s.subrange(0, j).drop_last() =~= s.subrange(0, j - 1));
    }
}

pub proof fn lemma_decimal(n: nat)
    ensures
        decimal(n).len() > 0,
        all_digits(decimal(n)),
        digits_value(decimal(n)) == n,
        decimal(n)[0] != '+' && decimal(n)[0] != '-',
    decreases n,
{
    lemma_digit_char(n % 10);
    if n < 10 {
        assert(decimal(n).drop_last() =~= Seq::<char>::empty());
        assert(digits_value(Seq::<char>::empty()) == 0);
        assert(digits_value(decimal(n)) == digits_value(decimal(n).drop_last()) * 10 + digit_value(
            decimal(n).last(),
        ));
    } else {
        lemma_decimal(n / 10);
        lemma_digit_char(n % 10);
        let d = decimal(n / 10);
        assert(decimal(n).drop_last() =~= d);
        assert(digit_value(decimal(n).last()) == n % 10);
        assert(n == (n / 10) * 10 + n % 10);
        assert(digits_value(decimal(n)) == digits_value(d) * 10 + digit_value(decimal(n).last()));
        assert(decimal(n)[0] == d[0]);
    }
}

/// The characters of `s`, in order.
pub(crate) fn chars_of(s: &str) -> (r: Vec<char>)
    ensures
        r@ == s@,
{
    let n = s.unicode_len();
    let mut v: Vec<char> = Vec::new();
    let mut i: usize = 0;
    while i < n
        invariant
            i <= n == s@.len(),
            v@ == s@.subrange(0, i as int),
        decreases n - i,
    {
        v.push(s.get_char(i));
        i = i + 1;
        assert(v@ =~= s@.subrange(0, i as int));
    }
    assert(v@ =~= s@);
    v
}

/// Relies on `FromIterator<char>` for `String`: the characters of `v`, in order.
#[verifier::external_body]
pub(crate) fn string_of(v: &[char]) -> (r: String)
    ensures
        r@ == v@,
{
    v.iter().collect()
}

pub(crate) fn is_white_char(c: char) -> (r: bool)
    ensures
        r == is_white(c),
{
    ('\u{9}' <= c && c <= '\u{d}') || c == ' ' || c == '\u{85}' || c == '\u{a0}' || c
        == '\u{1680}' || ('\u{2000}' <= c && c <= '\u{200a}') || c == '\u{2028}' || c
        == '\u{2029}' || c == '\u{202f}' || c == '\u{205f}' || c == '\u{3000}'
}

/// The bounds `(a, b)` of `s[lo..hi]` once white space is trimmed from both ends.
pub(crate) fn trim_bounds(s: &Vec<char>, lo: usize, hi: usize) -> (r: (usize, usize))
    requires
        lo <= hi <= s@.len(),
    ensures
        s@.subrange(r.0 as int, r.1 as int) == trim(s@.subrange(lo as int, hi as int)),
        lo <= r.0 <= r.1 <= hi,
{
    let ghost t = s@.subrange(lo as int, hi as int);
    let mut a: usize = lo;
    while a < hi && is_white_char(s[a])
        invariant
            lo <= a <= hi <= s@.len(),
            t == s@.subrange(lo as int, hi as int),
            lead(t, (a - lo) as int) == lead(t, 0),
        decreases hi - a,
    {
        a = a + 1;
    }
    let ghost la = (a - lo) as int;
    assert(lead(t, la) == la);
    let mut b: usize = hi;
    while b > a && is_white_char(s[b - 1])
        invariant
            lo <= a <= b <= hi <= s@.len(),
            t == s@.subrange(lo as int, hi as int),
            la == a - lo,
            trail(t, la, (b - lo) as int) == trail(t, la, t.len() as int),
        decreases b - a,
    {
        b = b - 1;
    }
    assert(trail(t, la, (b - lo) as int) == (b - lo) as int);
    assert(s@.subrange(a as int, b as int) =~= t.subrange(la, (b - lo) as int));
    (a, b)
}

/// Whether `pat` occurs in `s` at `i`.
pub(crate) fn occurs_at_exec(s: &Vec<char>, pat: &[char], i: usize) -> (r: bool)
    ensures
        r == occurs_at(s@, pat@, i as int),
{
    if pat.len() > s.len() || i > s.len() - pat.len() {
        return false;
    }
    let n = s.len();
    let mut k: usize = 0;
    while k < pat.len()
        invariant
            n == s@.len(),
            i + pat@.len() <= s@.len(),
            k <= pat@.len(),
            pat@.len() == pat.len(),
            forall|m: int| 0 <= m < k ==> s@[i + m] == pat@[m],
        decreases pat@.len() - k,
    {
        if s[i + k] != pat[k] {
            assert(s@.subrange(i as int, i + pat@.len())[k as int] != pat@[k as int]);
            return false;
        }
        k = k + 1;
    }
    assert(s@.subrange(i as int, i + pat@.len()) =~= pat@);
    true
}

/// The first position at or after `from` where `pat` occurs in `s`.
pub(crate) fn find_exec(s: &Vec<char>, pat: &[char], from: usize) -> (r: Option<usize>)
    requires
        from <= s@.len(),
    ensures
        r matches Some(i) ==> find_from(s@, pat@, from as int) == Some(i as int),
        r is None ==> find_from(s@, pat@, from as int) is None,
{
    if pat.len() > s.len() {
        return None;
    }
    let mut i: usize = from;
    while i <= s.len() - pat.len()
        invariant
            from <= i,
            pat@.len() <= s@.len(),
            find_from(s@, pat@, from as int) == find_from(s@, pat@, i as int),
        decreases s@.len() + 1 - i,
    {
        if occurs_at_exec(s, pat, i) {
            return Some(i);
        }
        if i == s.len() - pat.len() {
            assert(find_from(s@, pat@, i + 1) is None);
            return None;
        }
        i = i + 1;
    }
    None
}

/// The pieces of `s` cut at each occurrence of `pat`, as index ranges.
pub(crate) fn split_bounds(s: &Vec<char>, pat: &[char]) -> (r: Vec<(usize, usize)>)
    requires
        pat@.len() > 0,
    ensures
        r@.len() == split(s@, pat@).len(),
        forall|k: int|
            0 <= k < r@.len() ==> (#[trigger] r@[k]).0 <= r@[k].1 <= s@.len() && s@.subrange(
                r@[k].0 as int,
                r@[k].1 as int,
            ) == split(s@, pat@)[k],
{
    let mut out: Vec<(usize, usize)> = Vec::new();
    let n = s.len();
    let mut start: usize = 0;
    loop
        invariant
            n == s@.len(),
            pat@.len() > 0,
            start <= s@.len(),
            out@.len() + split_from(s@, pat@, start as int).len() == split(s@, pat@).len(),
            forall|k: int|
                0 <= k < out@.len() ==> (#[trigger] out@[k]).0 <= out@[k].1 <= s@.len()
                    && s@.subrange(out@[k].0 as int, out@[k].1 as int) == split(s@, pat@)[k],
            forall|k: int|
                0 <= k < split_from(s@, pat@, start as int).len() ==> #[trigger] split_from(
                    s@,
                    pat@,
                    start as int,
                )[k] == split(s@, pat@)[out@.len() + k],
        decreases s@.len() - start,
    {
        let ghost rest = split_from(s@, pat@, start as int);
        match find_exec(s, pat, start) {
            Some(i) => {
                proof {
                    lemma_find_from_bounds(s@, pat@, start as int);
                    assert(find_from(s@, pat@, start as int) == Some(i as int));
                    assert(start <= i);
                    assert(i + pat@.len() <= s@.len());
                    assert(rest == seq![s@.subrange(start as int, i as int)] + split_from(
                        s@,
                        pat@,
                        i + pat@.len(),
                    ));
                    assert(rest[0] == split(s@, pat@)[out@.len() as int]);
                    assert forall|k: int|
                        0 <= k < split_from(s@, pat@, i + pat@.len()).len() implies #[trigger] split_from(
                        s@,
                        pat@,
                        i + pat@.len(),
                    )[k] == split(s@, pat@)[out@.len() + 1 + k] by {
                        assert(rest[k + 1] == split(s@, pat@)[out@.len() + k + 1]);
                    }
                }
                out.push((start, i));
                start = i + pat.len();
            },
            None => {
                proof {
                    assert(find_from(s@, pat@, start as int) is None);
                    assert(rest =~= seq![s@.subrange(start as int, s@.len() as int)]);
                    assert(rest[0] == split(s@, pat@)[out@.len() as int]);
                }
                out.push((start, s.len()));
                assert(out@[out@.len() - 1] == (start, n));
                assert(out@.len() == split(s@, pat@).len());

                return out;
            },
        }
    }
}

pub proof fn lemma_find_from_bounds(s: Seq<char>, pat: Seq<char>, i: int)
    ensures
        find_from(s, pat, i) matches Some(j) ==> i <= j && j + pat.len() <= s.len() && occurs_at(
            s,
            pat,
            j,
        ),
    decreases s.len() + 1 - i,
{
    if !(i < 0 || i + pat.len() > s.len()) && !occurs_at(s, pat, i) {
        lemma_find_from_bounds(s, pat, i + 1);
    }
}

/// Digits only, with value at most `max`: the value; otherwise `None`.
pub(crate) fn digits_exec(s: &Vec<char>, lo: usize, hi: usize, max: u64) -> (r: Option<u64>)
    requires
        lo <= hi <= s@.len(),
        max >= 9,
    ensures
        ({
            let t = s@.subrange(lo as int, hi as int);
            match r {
                Some(v) => all_digits(t) && digits_value(t) <= max && v == digits_value(t),
                None => !(all_digits(t) && digits_value(t) <= max),
            }
        }),
{
    let ghost t = s@.subrange(lo as int, hi as int);
    let mut k: usize = lo;
    while k < hi
        invariant
            lo <= k <= hi <= s@.len(),
            t == s@.subrange(lo as int, hi as int),
            forall|m: int| 0 <= m < k - lo ==> is_digit(#[trigger] t[m]),
        decreases hi - k,
    {
        if !('0' <= s[k] && s[k] <= '9') {
            assert(!is_digit(t[k - lo]));
            return None;
        }
        k = k + 1;
    }
    let mut acc: u64 = 0;
    let mut k: usize = lo;
    while k < hi
        invariant
            lo <= k <= hi <= s@.len(),
            t == s@.subrange(lo as int, hi as int),
            all_digits(t),
            acc <= max,
            acc == digits_value(t.subrange(0, k - lo)),
            max >= 9,
        decreases hi - k,
    {
        assert(is_digit(t[k - lo]) && t[k - lo] == s@[k as int]);
        let d = (s[k] as u32 - '0' as u32) as u64;
        proof {
            assert(is_digit(t[k - lo]));
            assert(t.subrange(0, k - lo + 1).drop_last() =~= t.subrange(0, k - lo));
            assert(digits_value(t.subrange(0, k - lo + 1)) == acc * 10 + d);
        }
        if acc > (max - d) / 10 {
            proof {
                lemma_digits_value_prefix_mono(t, k - lo + 1, t.len() as int);
                assert(t.subrange(0, t.len() as int) =~= t);
                assert(acc * 10 + d > max) by (nonlinear_arith)
                    requires
                        acc > (max - d) / 10,
                        d <= max,
                ;
            }
            return None;
        }
        proof {
            assert(acc * 10 + d <= max) by (nonlinear_arith)
                requires
                    acc <= (max - d) / 10,
                    d <= max,
            ;
        }
        acc = acc * 10 + d;
        k = k + 1;
    }
    assert(t.subrange(0, t.len() as int) =~= t);
    Some(acc)
}

} // verus!
