//! Character-level helpers shared by the assembler and the circuit file codec.
use vstd::prelude::*;

verus! {

/// The first index `i` with `p <= i < end` and `s[i] == c`, or `end` when there is none.
pub open spec fn find_before(s: Seq<char>, c: char, p: int, end: int) -> int
    decreases end - p,
{
    if p >= end {
        end
    } else if s[p] == c {
        p
    } else {
        find_before(s, c, p + 1, end)
    }
}

/// What `find_before` returns: a position in `[p, end]` that holds `c`
/// unless it is `end`, with no `c` before it.
pub proof fn lemma_find_before(s: Seq<char>, c: char, p: int, end: int)
    requires
        p <= end,
    ensures
        p <= find_before(s, c, p, end) <= end,
        find_before(s, c, p, end) < end ==> s[find_before(s, c, p, end)] == c,
        forall|i: int| p <= i < find_before(s, c, p, end) ==> s[i] != c,
    decreases end - p,
{
    if p < end && s[p] != c {
        lemma_find_before(s, c, p + 1, end);
    }
}

/// Copies the characters of `s` into a vector, one entry per `char`.
pub fn chars_of(s: &str) -> (r: Vec<char>)
    ensures
        r@ == s@,
{
    let mut r: Vec<char> = Vec::new();
    for c in it: s.chars()
        invariant
            r@ == it.seq().take(it.index() as int),
    {
        r.push(c);
    }
    r
}

/// Relies on `String::push`: the character is appended at the end of the string.
#[verifier::external_body]
pub(crate) fn push_char(s: &mut String, c: char)
    ensures
        final(s)@ == old(s)@.push(c),
{
    s.push(c)
}

/// The characters `v[a..b]` as a `String`.
pub fn string_of_range(v: &Vec<char>, a: usize, b: usize) -> (r: String)
    requires
        a <= b <= v@.len(),
    ensures
        r@ == v@.subrange(a as int, b as int),
{
    let mut r = String::new();
    let mut i = a;
    while i < b
        invariant
            a <= i <= b <= v@.len(),
            r@ == v@.subrange(a as int, i as int),
        decreases b - i,
    {
        push_char(&mut r, v[i]);
        assert(v@.subrange(a as int, i + 1) == v@.subrange(a as int, i as int).push(v@[i as int]));
        i = i + 1;
    }
    r
}

/// Executable `find_before`.
pub fn find_char(v: &Vec<char>, c: char, p: usize, end: usize) -> (r: usize)
    requires
        p <= end <= v@.len(),
    ensures
        r == find_before(v@, c, p as int, end as int),
{
    let mut i = p;
    while i < end && v[i] != c
        invariant
            p <= i <= end <= v@.len(),
            find_before(v@, c, p as int, end as int) == find_before(v@, c, i as int, end as int),
        decreases end - i,
    {
        i = i + 1;
    }
    i
}


/// `c` is one of the ASCII digits `0` to `9`.
pub open spec fn is_digit(c: char) -> bool {
    48 <= c as u32 <= 57
}

/// The value of the digit `c`.
pub open spec fn digit_value(c: char) -> int {
    c as u32 - 48
}

/// The value of a string of decimal digits, most significant first.
pub open spec fn digits_value(d: Seq<char>) -> int
    decreases d.len(),
{
    if d.len() == 0 {
        0
    } else {
        10 * digits_value(d.drop_last()) + digit_value(d.last())
    }
}

/// A non-empty run of decimal digits.
pub open spec fn is_decimal(d: Seq<char>) -> bool {
    d.len() > 0 && forall|i: int| 0 <= i < d.len() ==> is_digit(#[trigger] d[i])
}

/// An unsigned decimal number, as Rust's `str::parse` reads one: an optional
/// `+` followed by at least one digit, and nothing else.
pub open spec fn parse_unsigned(s: Seq<char>) -> Option<int> {
    let d = if s.len() > 0 && s[0] == '+' {
        s.drop_first()
    } else {
        s
    };
    if is_decimal(d) {
        Some(digits_value(d))
    } else {
        None
    }
}

/// The value read by `parse_unsigned`, kept only where it is at most `limit`.
pub open spec fn parse_unsigned_upto(s: Seq<char>, limit: int) -> Option<int> {
    match parse_unsigned(s) {
        Some(n) => if n <= limit {
            Some(n)
        } else {
            None
        },
        None => None,
    }
}

/// A value of digits is never negative and never smaller than the value of a prefix.
pub proof fn lemma_digits_value_prefix(d: Seq<char>, i: int)
    requires
        0 <= i <= d.len(),
        forall|k: int| 0 <= k < d.len() ==> is_digit(#[trigger] d[k]),
    ensures
        0 <= digits_value(d.subrange(0, i)) <= digits_value(d),
    decreases d.len() - i,
{
    if i < d.len() {
        lemma_digits_value_prefix(d, i + 1);
        assert(d.subrange(0, i + 1).drop_last() == d.subrange(0, i));
    } else {
        assert(d.subrange(0, i) == d);
        lemma_digits_value_nonneg(d);
    }
}

/// A value of digits is never negative.
pub proof fn lemma_digits_value_nonneg(d: Seq<char>)
    requires
        forall|k: int| 0 <= k < d.len() ==> is_digit(#[trigger] d[k]),
    ensures
        0 <= digits_value(d),
    decreases d.len(),
{
    if d.len() > 0 {
        lemma_digits_value_nonneg(d.drop_last());
    }
}

/// A number read by `parse_unsigned` is never negative.
pub proof fn lemma_parse_unsigned_nonneg(s: Seq<char>)
    ensures
        parse_unsigned(s) matches Some(n) ==> n >= 0,
{
    let d = if s.len() > 0 && s[0] == '+' {
        s.drop_first()
    } else {
        s
    };
    if is_decimal(d) {
        lemma_digits_value_nonneg(d);
    }
}

/// Reads `v[a..b]` with `parse_unsigned` and keeps the value only where it is at most `limit`.
pub fn parse_unsigned_range(v: &Vec<char>, a: usize, b: usize, limit: u64) -> (r: Option<u64>)
    requires
        a <= b <= v@.len(),
    ensures
        r matches Some(n) ==> parse_unsigned_upto(v@.subrange(a as int, b as int), limit as int)
            == Some(n as int),
        r is None ==> parse_unsigned_upto(v@.subrange(a as int, b as int), limit as int) is None,
{
    let ghost s = v@.subrange(a as int, b as int);
    let mut start = a;
    if a < b && v[a] == '+' {
        start = a + 1;
    }
    let ghost d = v@.subrange(start as int, b as int);
    assert(d == if s.len() > 0 && s[0] == '+' { s.drop_first() } else { s });
    assert(parse_unsigned(s) == if is_decimal(d) { Some(digits_value(d)) } else { None::<int> });
    if start == b {
        return None;
    }
    let mut acc: u64 = 0;
    let mut i = start;
    while i < b
        invariant
            a <= start <= i <= b <= v@.len(),
            d == v@.subrange(start as int, b as int),
            s == v@.subrange(a as int, b as int),
            parse_unsigned(s) == if is_decimal(d) { Some(digits_value(d)) } else { None::<int> },
            d.len() > 0,
            acc <= limit,
            forall|k: int| 0 <= k < i - start ==> is_digit(#[trigger] d[k]),
            acc == digits_value(d.subrange(0, i - start)),
        decreases b - i,
    {
        let c = v[i];
        if !((c as u32) >= 48 && (c as u32) <= 57) {
            assert(!is_digit(d[i - start]));
            assert(!is_decimal(d));
            return None;
        }
        let dv = ((c as u32) - 48) as u64;
        assert(d.subrange(0, i - start + 1).drop_last() == d.subrange(0, i - start));
        if dv > limit || acc > (limit - dv) / 10 {
            proof {
                assert(digits_value(d.subrange(0, i - start + 1)) > limit) by (nonlinear_arith)
                    requires
                        dv > limit || acc > (limit - dv) / 10,
                        digits_value(d.subrange(0, i - start + 1)) == 10 * acc + dv,
                        acc >= 0,
                ;
                if is_decimal(d) {
                    lemma_digits_value_prefix(d, i - start + 1);
                }
            }
            return None;
        }
        assert(10 * acc + dv <= limit) by (nonlinear_arith)
            requires
                acc <= (limit - dv) / 10,
                dv <= 9,
                limit >= dv,
        ;
        acc = acc * 10 + dv;
        i = i + 1;
    }
    assert(d.subrange(0, d.len() as int) == d);
    Some(acc)
}

} // verus!
