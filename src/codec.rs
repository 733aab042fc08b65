//! The circuit file: a line-oriented text that lists each microcontroller
//! with its geometry and source, then the connections.
//!
//! ```text
//! <mc>
//! <x> <y> <w> <h>
//! <source, possibly several lines>
//! <mc>
//! ...
//! <connections>
//! <producer mc> <producer port> <consumer mc> <consumer port>
//! ...
//! ```
use vstd::prelude::*;
use crate::circuit::{
    circuit_wf, conn_insert, key_index, keys_unique, lemma_key_index, port_valid, ports_valid,
    Circuit, CircuitView,
};
use crate::connection::McConnection;
use crate::microcontroller::{McView, Rect};
use crate::program::blank_program;
use crate::text::{
    chars_of, digit_value, digits_value, find_before, find_char, is_digit,
    lemma_find_before, parse_unsigned, parse_unsigned_range, parse_unsigned_upto, push_char,
    string_of_range,
};

verus! {

/// The marker that starts a microcontroller.
pub open spec fn mc_mark() -> Seq<char> {
    seq!['<', 'm', 'c', '>']
}

/// The marker that starts the connections.
pub open spec fn conn_mark() -> Seq<char> {
    seq!['<', 'c', 'o', 'n', 'n', 'e', 'c', 't', 'i', 'o', 'n', 's', '>']
}

/// The character of decimal digit `d`.
pub open spec fn digit_char(d: int) -> char {
    seq!['0', '1', '2', '3', '4', '5', '6', '7', '8', '9'][d]
}

/// `n` in decimal, most significant digit first, without leading zeros.
pub open spec fn fmt_nat(n: nat) -> Seq<char>
    decreases n,
{
    if n < 10 {
        seq![digit_char(n as int)]
    } else {
        fmt_nat(n / 10) + seq![digit_char((n % 10) as int)]
    }
}

/// `n` in decimal, with a leading `-` when negative.
pub open spec fn fmt_int(n: int) -> Seq<char> {
    if n < 0 {
        seq!['-'] + fmt_nat((-n) as nat)
    } else {
        fmt_nat(n as nat)
    }
}

/// The geometry line of a microcontroller, without its newline.
pub open spec fn rect_line(r: Rect) -> Seq<char> {
    fmt_int(r.x as int) + seq![' '] + fmt_int(r.y as int) + seq![' '] + fmt_int(r.w as int) + seq![
        ' ',
    ] + fmt_int(r.h as int)
}

/// The text saved for one microcontroller; a newline always ends its source.
pub open spec fn mc_text(m: McView) -> Seq<char> {
    mc_mark() + seq!['\n'] + rect_line(m.rect) + seq!['\n'] + m.code + seq!['\n']
}

/// The line saved for one connection.
pub open spec fn conn_line(c: (McConnection, McConnection)) -> Seq<char> {
    fmt_nat(c.0.mc_i as nat) + seq![' '] + fmt_nat(c.0.io_i as nat) + seq![' '] + fmt_nat(
        c.1.mc_i as nat,
    ) + seq![' '] + fmt_nat(c.1.io_i as nat) + seq!['\n']
}

/// The saved text of the first `n` microcontrollers.
pub open spec fn mcs_text(mcs: Seq<McView>, n: int) -> Seq<char>
    decreases n,
{
    if n <= 0 {
        Seq::empty()
    } else {
        mcs_text(mcs, n - 1) + mc_text(mcs[n - 1])
    }
}

/// The saved lines of the first `n` connections.
pub open spec fn conns_text(cs: Seq<(McConnection, McConnection)>, n: int) -> Seq<char>
    decreases n,
{
    if n <= 0 {
        Seq::empty()
    } else {
        conns_text(cs, n - 1) + conn_line(cs[n - 1])
    }
}

/// The text a circuit is saved as.
pub open spec fn save_spec(c: CircuitView) -> Seq<char> {
    mcs_text(c.mcs, c.mcs.len() as int) + conn_mark() + seq!['\n'] + conns_text(
        c.connections,
        c.connections.len() as int,
    )
}

pub(crate) fn push_chars(s: &mut String, cs: &[char])
    ensures
        final(s)@ == old(s)@ + cs@,
{
    let mut i: usize = 0;
    while i < cs.len()
        invariant
            i <= cs@.len(),
            s@ == old(s)@ + cs@.take(i as int),
        decreases cs@.len() - i,
    {
        assert(cs@.take(i + 1) == cs@.take(i as int).push(cs@[i as int]));
        push_char(s, cs[i]);
        i = i + 1;
    }
    assert(cs@.take(cs@.len() as int) == cs@);
}

fn digit_of(d: u64) -> (c: char)
    requires
        d < 10,
    ensures
        c == digit_char(d as int),
{
    let digits = ['0', '1', '2', '3', '4', '5', '6', '7', '8', '9'];
    assert(digits@ == seq!['0', '1', '2', '3', '4', '5', '6', '7', '8', '9']);
    digits[d as usize]
}

pub(crate) fn push_nat(s: &mut String, n: u64)
    ensures
        final(s)@ == old(s)@ + fmt_nat(n as nat),
    decreases n,
{
    if n >= 10 {
        push_nat(s, n / 10);
    }
    push_char(s, digit_of(n % 10));
    if n < 10 {
        assert(fmt_nat(n as nat) == seq![digit_char(n as int)]);
    }
}

fn push_int(s: &mut String, n: i32)
    ensures
        final(s)@ == old(s)@ + fmt_int(n as int),
{
    if n < 0 {
        push_char(s, '-');
        let m = (0i64 - n as i64) as u64;
        push_nat(s, m);
        assert(seq!['-'] + fmt_nat((-n) as nat) == fmt_int(n as int));
    } else {
        push_nat(s, n as u64);
    }
}

fn push_str(out: &mut String, s: &str)
    ensures
        final(out)@ == old(out)@ + s@,
{
    let chars = crate::text::chars_of(s);
    let mut k: usize = 0;
    while k < chars.len()
        invariant
            k <= chars@.len(),
            chars@ == s@,
            out@ == old(out)@ + s@.take(k as int),
        decreases chars@.len() - k,
    {
        assert(s@.take(k + 1) == s@.take(k as int).push(s@[k as int]));
        push_char(out, chars[k]);
        k = k + 1;
    }
    assert(s@.take(s@.len() as int) == s@);
}

fn push_rect_line(out: &mut String, r: Rect)
    ensures
        final(out)@ == old(out)@ + rect_line(r),
{
    let ghost o = out@;
    push_int(out, r.x);
    push_char(out, ' ');
    push_int(out, r.y);
    push_char(out, ' ');
    push_int(out, r.w);
    push_char(out, ' ');
    push_int(out, r.h);
    assert(out@ =~= o + rect_line(r));
}

fn push_mc_text(out: &mut String, mc: &crate::microcontroller::Microcontroller)
    ensures
        final(out)@ == old(out)@ + mc_text(mc@),
{
    let ghost o = out@;
    push_chars(out, &['<', 'm', 'c', '>', '\n']);
    push_rect_line(out, mc.get_rect());
    push_char(out, '\n');
    push_str(out, mc.get_code());
    push_char(out, '\n');
    assert(['<', 'm', 'c', '>', '\n']@ == mc_mark() + seq!['\n']);
    assert(out@ =~= o + mc_text(mc@));
}

fn push_conn_line(out: &mut String, c: (McConnection, McConnection))
    ensures
        final(out)@ == old(out)@ + conn_line(c),
{
    let ghost o = out@;
    push_nat(out, c.0.mc_i as u64);
    push_char(out, ' ');
    push_nat(out, c.0.io_i as u64);
    push_char(out, ' ');
    push_nat(out, c.1.mc_i as u64);
    push_char(out, ' ');
    push_nat(out, c.1.io_i as u64);
    push_char(out, '\n');
    assert(out@ =~= o + conn_line(c));
}


// ---------------------------------------------------------------------------
// Loading

/// Why a circuit could not be saved or loaded.
#[derive(Debug)]
pub enum PersistenceError {
    /// The file could not be read or written.
    IoError(String),
    /// The text is not a circuit file.
    ParseError(String),
}

/// The white space that separates numbers.
pub open spec fn is_space(c: char) -> bool {
    c == ' ' || c == '\t' || c == '\n' || c == '\r' || c == '\x0b' || c == '\x0c'
}

/// The first position in `[p, end)` that is not white space, or `end`.
pub open spec fn skip_space(s: Seq<char>, p: int, end: int) -> int
    decreases end - p,
{
    if p >= end {
        end
    } else if is_space(s[p]) {
        skip_space(s, p + 1, end)
    } else {
        p
    }
}

/// The first position in `[p, end)` that is white space, or `end`.
pub open spec fn word_end(s: Seq<char>, p: int, end: int) -> int
    decreases end - p,
{
    if p >= end {
        end
    } else if is_space(s[p]) {
        p
    } else {
        word_end(s, p + 1, end)
    }
}

pub proof fn lemma_skip_space(s: Seq<char>, p: int, end: int)
    requires
        p <= end,
    ensures
        p <= skip_space(s, p, end) <= end,
        skip_space(s, p, end) < end ==> !is_space(s[skip_space(s, p, end)]),
        forall|i: int| p <= i < skip_space(s, p, end) ==> is_space(s[i]),
    decreases end - p,
{
    if p < end && is_space(s[p]) {
        lemma_skip_space(s, p + 1, end);
    }
}

pub proof fn lemma_word_end(s: Seq<char>, p: int, end: int)
    requires
        p <= end,
    ensures
        p <= word_end(s, p, end) <= end,
        word_end(s, p, end) < end ==> is_space(s[word_end(s, p, end)]),
        forall|i: int| p <= i < word_end(s, p, end) ==> !is_space(s[i]),
        p < end && !is_space(s[p]) ==> word_end(s, p, end) > p,
    decreases end - p,
{
    if p < end && !is_space(s[p]) {
        lemma_word_end(s, p + 1, end);
    }
}

/// The white-space separated words of `s[p..end]`.
pub open spec fn fields(s: Seq<char>, p: int, end: int) -> Seq<Seq<char>>
    decreases end - p,
{
    let q = skip_space(s, p, end);
    if q >= end || q < p {
        Seq::empty()
    } else {
        let e = word_end(s, q, end);
        proof {
            lemma_skip_space(s, p, end);
            lemma_word_end(s, q, end);
        }
        seq![s.subrange(q, e)] + fields(s, e, end)
    }
}

/// A decimal `i32`, with an optional sign.
pub open spec fn parse_i32(t: Seq<char>) -> Option<i32> {
    if t.len() > 0 && t[0] == '-' {
        let d = t.drop_first();
        if d.len() > 0 && d[0] == '+' {
            None
        } else {
            match parse_unsigned_upto(d, 2147483648) {
                Some(n) => Some((-n) as i32),
                None => None,
            }
        }
    } else {
        match parse_unsigned_upto(t, 2147483647) {
            Some(n) => Some(n as i32),
            None => None,
        }
    }
}

/// A decimal index.
pub open spec fn parse_index(t: Seq<char>) -> Option<usize> {
    match parse_unsigned_upto(t, usize::MAX as int) {
        Some(n) => Some(n as usize),
        None => None,
    }
}

/// The geometry in `s[a..b]`: exactly four numbers.
pub open spec fn parse_rect(s: Seq<char>, a: int, b: int) -> Option<Rect> {
    let f = fields(s, a, b);
    if f.len() == 4 {
        match (parse_i32(f[0]), parse_i32(f[1]), parse_i32(f[2]), parse_i32(f[3])) {
            (Some(x), Some(y), Some(w), Some(h)) => Some(Rect { x, y, w, h }),
            _ => None,
        }
    } else {
        None
    }
}

/// The connection in `s[a..b]`: exactly four indices.
pub open spec fn parse_conn(s: Seq<char>, a: int, b: int) -> Option<(McConnection, McConnection)> {
    let f = fields(s, a, b);
    if f.len() == 4 {
        match (parse_index(f[0]), parse_index(f[1]), parse_index(f[2]), parse_index(f[3])) {
            (Some(a0), Some(a1), Some(b0), Some(b1)) => Some(
                (McConnection { mc_i: a0, io_i: a1 }, McConnection { mc_i: b0, io_i: b1 }),
            ),
            _ => None,
        }
    } else {
        None
    }
}

/// The first `j` in `[p, end - pat.len()]` where `pat` occurs in `s`, or `end`.
pub open spec fn find_seq(s: Seq<char>, pat: Seq<char>, p: int, end: int) -> int
    decreases end - p,
{
    if p < 0 || p >= end || p + pat.len() > end {
        end
    } else if s.subrange(p, p + pat.len()) == pat {
        p
    } else {
        find_seq(s, pat, p + 1, end)
    }
}

pub proof fn lemma_find_seq(s: Seq<char>, pat: Seq<char>, p: int, end: int)
    requires
        0 <= p <= end,
    ensures
        p <= find_seq(s, pat, p, end) <= end,
        find_seq(s, pat, p, end) < end ==> find_seq(s, pat, p, end) + pat.len() <= end,
    decreases end - p,
{
    if p < end && p + pat.len() <= end && s.subrange(p, p + pat.len()) != pat {
        lemma_find_seq(s, pat, p + 1, end);
    }
}

/// One microcontroller chunk `s[a..b]`: its first non-blank line holds the
/// geometry and the rest, after that line's newline, is its source.
pub open spec fn parse_chunk(s: Seq<char>, a: int, b: int) -> Option<(Rect, Seq<char>)> {
    let q = skip_space(s, a, b);
    let e = find_before(s, '\n', q, b);
    if e >= b {
        None
    } else {
        match parse_rect(s, q, e) {
            Some(r) => Some((r, s.subrange(e + 1, b))),
            None => None,
        }
    }
}

/// The microcontroller chunks of `s[start..end]`, where `start` follows a
/// `<mc>` marker, after those already read in `acc`.
pub open spec fn parse_mcs_from(
    s: Seq<char>,
    start: int,
    end: int,
    acc: Seq<(Rect, Seq<char>)>,
) -> Option<Seq<(Rect, Seq<char>)>>
    decreases end - start,
{
    let next = find_seq(s, mc_mark(), start, end);
    match parse_chunk(s, start, next) {
        None => None,
        Some(x) => if next < end && start >= 0 && start <= end {
            proof {
                lemma_find_seq(s, mc_mark(), start, end);
            }
            parse_mcs_from(s, next + 4, end, acc.push(x))
        } else {
            Some(acc.push(x))
        },
    }
}

/// The microcontrollers of `s[0..end]`: the text is split at `<mc>` and
/// what comes before the first marker is ignored.
pub open spec fn parse_mcs(s: Seq<char>, end: int) -> Option<Seq<(Rect, Seq<char>)>> {
    let first = find_seq(s, mc_mark(), 0, end);
    if first >= end {
        Some(Seq::empty())
    } else {
        parse_mcs_from(s, first + 4, end, Seq::empty())
    }
}

/// The connection lines of `s[p..end]` after those read in `acc`; blank lines are skipped.
pub open spec fn parse_conns_from(
    s: Seq<char>,
    p: int,
    end: int,
    acc: Seq<(McConnection, McConnection)>,
) -> Option<Seq<(McConnection, McConnection)>>
    decreases end - p,
{
    let e = find_before(s, '\n', p, end);
    let next = if skip_space(s, p, e) >= e {
        Some(acc)
    } else {
        match parse_conn(s, p, e) {
            Some(c) => Some(acc.push(c)),
            None => None,
        }
    };
    match next {
        None => None,
        Some(acc2) => if e < end && p <= end {
            proof {
                lemma_find_before(s, '\n', p, end);
            }
            parse_conns_from(s, e + 1, end, acc2)
        } else {
            Some(acc2)
        },
    }
}

/// The connections wired one after another, each replacing an earlier one
/// from the same producer port.
pub open spec fn insert_all(pairs: Seq<(McConnection, McConnection)>, n: int) -> Seq<
    (McConnection, McConnection),
>
    decreases n,
{
    if n <= 0 {
        Seq::empty()
    } else {
        let c = pairs[n - 1];
        conn_insert(insert_all(pairs, n - 1), c.0, c.1)
    }
}

/// Every connection joins ports of the first `n` microcontrollers.
pub open spec fn all_ports_valid(pairs: Seq<(McConnection, McConnection)>, n: int) -> bool {
    forall|k: int| 0 <= k < pairs.len() ==> port_valid((#[trigger] pairs[k]).0, n) && port_valid(pairs[k].1, n)
}

/// A loaded microcontroller: its geometry and source, with a blank program.
pub open spec fn loaded_mc(x: (Rect, Seq<char>)) -> McView {
    McView { rect: x.0, code: x.1, program: blank_program() }
}

/// The circuit a text describes, or `None` where it is not a circuit file:
/// the `<connections>` marker is missing, a geometry or connection line does
/// not hold exactly four numbers, or a connection names a port that is not
/// in the circuit.
pub open spec fn load_spec(s: Seq<char>) -> Option<CircuitView> {
    let m = find_seq(s, conn_mark(), 0, s.len() as int);
    if m >= s.len() {
        None
    } else {
        match parse_mcs(s, m) {
            None => None,
            Some(mcs) => match parse_conns_from(s, m + 13, s.len() as int, Seq::empty()) {
                None => None,
                Some(pairs) => if all_ports_valid(pairs, mcs.len() as int) {
                    Some(
                        CircuitView {
                            mcs: mcs.map_values(|x: (Rect, Seq<char>)| loaded_mc(x)),
                            connections: insert_all(pairs, pairs.len() as int),
                        },
                    )
                } else {
                    None
                },
            },
        }
    }
}

fn is_space_char(c: char) -> (r: bool)
    ensures
        r == is_space(c),
{
    c == ' ' || c == '\t' || c == '\n' || c == '\r' || c == '\x0b' || c == '\x0c'
}

fn skip_space_exec(v: &Vec<char>, p: usize, end: usize) -> (r: usize)
    requires
        p <= end <= v@.len(),
    ensures
        r == skip_space(v@, p as int, end as int),
{
    let mut i = p;
    while i < end && is_space_char(v[i])
        invariant
            p <= i <= end <= v@.len(),
            skip_space(v@, p as int, end as int) == skip_space(v@, i as int, end as int),
        decreases end - i,
    {
        i = i + 1;
    }
    i
}

fn word_end_exec(v: &Vec<char>, p: usize, end: usize) -> (r: usize)
    requires
        p <= end <= v@.len(),
    ensures
        r == word_end(v@, p as int, end as int),
{
    let mut i = p;
    while i < end && !is_space_char(v[i])
        invariant
            p <= i <= end <= v@.len(),
            word_end(v@, p as int, end as int) == word_end(v@, i as int, end as int),
        decreases end - i,
    {
        i = i + 1;
    }
    i
}

/// The positions of the words of `v[p..end]`.
#[verifier::rlimit(40)]
fn field_ranges(v: &Vec<char>, p: usize, end: usize) -> (r: Vec<(usize, usize)>)
    requires
        p <= end <= v@.len(),
    ensures
        r@.len() == fields(v@, p as int, end as int).len(),
        forall|k: int| 0 <= k < r@.len() ==> (#[trigger] r@[k]).0 <= r@[k].1 <= end,
        forall|k: int|
            0 <= k < r@.len() ==> v@.subrange((#[trigger] r@[k]).0 as int, r@[k].1 as int)
                == fields(v@, p as int, end as int)[k],
{
    let ghost all = fields(v@, p as int, end as int);
    let mut r: Vec<(usize, usize)> = Vec::new();
    let mut i = p;
    loop
        invariant
            p <= i <= end <= v@.len(),
            all == fields(v@, p as int, end as int),
            all.len() == r@.len() + fields(v@, i as int, end as int).len(),
            forall|k: int| 0 <= k < r@.len() ==> (#[trigger] r@[k]).0 <= r@[k].1 <= end,
            forall|k: int|
                0 <= k < r@.len() ==> v@.subrange((#[trigger] r@[k]).0 as int, r@[k].1 as int)
                    == all[k],
            forall|k: int|
                0 <= k < fields(v@, i as int, end as int).len() ==> #[trigger] fields(
                    v@,
                    i as int,
                    end as int,
                )[k] == all[r@.len() + k],
        decreases end - i,
    {
        let q = skip_space_exec(v, i, end);
        proof {
            lemma_skip_space(v@, i as int, end as int);
        }
        if q >= end {
            assert(fields(v@, i as int, end as int).len() == 0);
            return r;
        }
        let e = word_end_exec(v, q, end);
        proof {
            lemma_word_end(v@, q as int, end as int);
            let f = fields(v@, i as int, end as int);
            assert(f == seq![v@.subrange(q as int, e as int)] + fields(v@, e as int, end as int));
            assert(f[0] == v@.subrange(q as int, e as int));
            assert(all[r@.len() as int] == v@.subrange(q as int, e as int));
            assert forall|k: int| 0 <= k < fields(v@, e as int, end as int).len() implies #[trigger] fields(
                v@,
                e as int,
                end as int,
            )[k] == all[r@.len() + 1 + k] by {
                assert(f[k + 1] == fields(v@, e as int, end as int)[k]);
            }
        }
        let ghost old_r = r@;
        r.push((q, e));
        assert forall|k: int|
            0 <= k < r@.len() implies v@.subrange((#[trigger] r@[k]).0 as int, r@[k].1 as int)
            == all[k] by {
            if k < old_r.len() {
                assert(r@[k] == old_r[k]);
            }
        }
        i = e;
    }
}

fn parse_i32_range(v: &Vec<char>, a: usize, b: usize) -> (r: Option<i32>)
    requires
        a <= b <= v@.len(),
    ensures
        r == parse_i32(v@.subrange(a as int, b as int)),
{
    let ghost t = v@.subrange(a as int, b as int);
    if a < b && v[a] == '-' {
        assert(t.drop_first() == v@.subrange(a + 1, b as int));
        if a + 1 < b && v[a + 1] == '+' {
            return None;
        }
        match parse_unsigned_range(v, a + 1, b, 2147483648) {
            Some(n) => Some((0i64 - n as i64) as i32),
            None => None,
        }
    } else {
        match parse_unsigned_range(v, a, b, 2147483647) {
            Some(n) => Some(n as i32),
            None => None,
        }
    }
}

fn parse_index_range(v: &Vec<char>, a: usize, b: usize) -> (r: Option<usize>)
    requires
        a <= b <= v@.len(),
    ensures
        r == parse_index(v@.subrange(a as int, b as int)),
{
    match parse_unsigned_range(v, a, b, usize::MAX as u64) {
        Some(n) => Some(n as usize),
        None => None,
    }
}

fn parse_rect_exec(v: &Vec<char>, a: usize, b: usize) -> (r: Option<Rect>)
    requires
        a <= b <= v@.len(),
    ensures
        r == parse_rect(v@, a as int, b as int),
{
    let f = field_ranges(v, a, b);
    if f.len() != 4 {
        return None;
    }
    let x = parse_i32_range(v, f[0].0, f[0].1);
    let y = parse_i32_range(v, f[1].0, f[1].1);
    let w = parse_i32_range(v, f[2].0, f[2].1);
    let h = parse_i32_range(v, f[3].0, f[3].1);
    match (x, y, w, h) {
        (Some(x), Some(y), Some(w), Some(h)) => Some(Rect { x, y, w, h }),
        _ => None,
    }
}

fn parse_conn_exec(v: &Vec<char>, a: usize, b: usize) -> (r: Option<(McConnection, McConnection)>)
    requires
        a <= b <= v@.len(),
    ensures
        r == parse_conn(v@, a as int, b as int),
{
    let f = field_ranges(v, a, b);
    if f.len() != 4 {
        return None;
    }
    let a0 = parse_index_range(v, f[0].0, f[0].1);
    let a1 = parse_index_range(v, f[1].0, f[1].1);
    let b0 = parse_index_range(v, f[2].0, f[2].1);
    let b1 = parse_index_range(v, f[3].0, f[3].1);
    match (a0, a1, b0, b1) {
        (Some(a0), Some(a1), Some(b0), Some(b1)) => Some(
            (McConnection::new(a0, a1), McConnection::new(b0, b1)),
        ),
        _ => None,
    }
}

fn find_seq_exec(v: &Vec<char>, pat: &[char], p: usize, end: usize) -> (r: usize)
    requires
        p <= end <= v@.len(),
        pat@.len() > 0,
    ensures
        r == find_seq(v@, pat@, p as int, end as int),
{
    let mut i = p;
    while i < end && pat.len() <= end - i
        invariant
            p <= i <= end <= v@.len(),
            find_seq(v@, pat@, p as int, end as int) == find_seq(v@, pat@, i as int, end as int),
        decreases end - i,
    {
        let mut j: usize = 0;
        while j < pat.len() && v[i + j] == pat[j]
            invariant
                j <= pat@.len(),
                i + pat@.len() <= end <= v@.len(),
                forall|t: int| 0 <= t < j ==> v@[i + t] == pat@[t],
            decreases pat@.len() - j,
        {
            j = j + 1;
        }
        if j == pat.len() {
            assert(v@.subrange(i as int, i + pat@.len()) == pat@);
            return i;
        }
        assert(v@.subrange(i as int, i + pat@.len())[j as int] != pat@[j as int]);
        i = i + 1;
    }
    end
}

pub open spec fn chunks_view(out: Seq<(Rect, String)>) -> Seq<(Rect, Seq<char>)> {
    out.map_values(|x: (Rect, String)| (x.0, x.1@))
}

fn parse_chunk_exec(v: &Vec<char>, a: usize, b: usize) -> (r: Option<(Rect, String)>)
    requires
        a <= b <= v@.len(),
    ensures
        match parse_chunk(v@, a as int, b as int) {
            Some(x) => r matches Some(y) && y.0 == x.0 && y.1@ == x.1,
            None => r is None,
        },
{
    let q = skip_space_exec(v, a, b);
    proof {
        lemma_skip_space(v@, a as int, b as int);
    }
    let e = find_char(v, '\n', q, b);
    proof {
        lemma_find_before(v@, '\n', q as int, b as int);
    }
    if e >= b {
        return None;
    }
    match parse_rect_exec(v, q, e) {
        Some(r) => Some((r, string_of_range(v, e + 1, b))),
        None => None,
    }
}

fn parse_mcs_exec(v: &Vec<char>, end: usize) -> (r: Option<Vec<(Rect, String)>>)
    requires
        end <= v@.len(),
    ensures
        match parse_mcs(v@, end as int) {
            Some(x) => r matches Some(y) && chunks_view(y@) == x,
            None => r is None,
        },
{
    let mark = ['<', 'm', 'c', '>'];
    assert(mark@ == mc_mark());
    let first = find_seq_exec(v, &mark, 0, end);
    proof {
        lemma_find_seq(v@, mc_mark(), 0, end as int);
    }
    let mut out: Vec<(Rect, String)> = Vec::new();
    if first >= end {
        assert(chunks_view(out@) == Seq::<(Rect, Seq<char>)>::empty());
        return Some(out);
    }
    let ghost goal = parse_mcs(v@, end as int);
    let mut start = first + 4;
    assert(chunks_view(out@) == Seq::<(Rect, Seq<char>)>::empty());
    loop
        invariant
            start <= end <= v@.len(),
            mark@ == mc_mark(),
            goal == parse_mcs(v@, end as int),
            goal == parse_mcs_from(v@, start as int, end as int, chunks_view(out@)),
        decreases end - start,
    {
        let next = find_seq_exec(v, &mark, start, end);
        proof {
            lemma_find_seq(v@, mc_mark(), start as int, end as int);
        }
        match parse_chunk_exec(v, start, next) {
            None => {
                return None;
            },
            Some(x) => {
                let ghost before = chunks_view(out@);
                out.push(x);
                assert(chunks_view(out@) == before.push((x.0, x.1@)));
            },
        }
        if next < end {
            start = next + 4;
        } else {
            return Some(out);
        }
    }
}

fn parse_conns_exec(v: &Vec<char>, p: usize, end: usize) -> (r: Option<
    Vec<(McConnection, McConnection)>,
>)
    requires
        p <= end <= v@.len(),
    ensures
        match parse_conns_from(v@, p as int, end as int, Seq::empty()) {
            Some(x) => r matches Some(y) && y@ == x,
            None => r is None,
        },
{
    let ghost goal = parse_conns_from(v@, p as int, end as int, Seq::empty());
    let mut out: Vec<(McConnection, McConnection)> = Vec::new();
    let mut i = p;
    loop
        invariant
            i <= end <= v@.len(),
            goal == parse_conns_from(v@, p as int, end as int, Seq::empty()),
            goal == parse_conns_from(v@, i as int, end as int, out@),
        decreases end - i,
    {
        let e = find_char(v, '\n', i, end);
        proof {
            lemma_find_before(v@, '\n', i as int, end as int);
        }
        let ghost acc = out@;
        if skip_space_exec(v, i, e) < e {
            match parse_conn_exec(v, i, e) {
                Some(c) => out.push(c),
                None => {
                    assert(parse_conns_from(v@, i as int, end as int, acc) == None::<
                        Seq<(McConnection, McConnection)>,
                    >);
                    return None;
                },
            }
        }
        if e < end {
            i = e + 1;
        } else {
            return Some(out);
        }
    }
}

// ---------------------------------------------------------------------------
// Saving and loading are inverse

pub proof fn lemma_digit_char(d: int)
    requires
        0 <= d < 10,
    ensures
        is_digit(digit_char(d)),
        digit_value(digit_char(d)) == d,
        !is_space(digit_char(d)),
        digit_char(d) != '<' && digit_char(d) != '\n' && digit_char(d) != '-' && digit_char(d)
            != '+' && digit_char(d) != ';',
{
    assert(d == 0 || d == 1 || d == 2 || d == 3 || d == 4 || d == 5 || d == 6 || d == 7 || d == 8
        || d == 9);
}

pub proof fn lemma_fmt_nat(n: nat)
    ensures
        fmt_nat(n).len() > 0,
        forall|i: int| 0 <= i < fmt_nat(n).len() ==> is_digit(#[trigger] fmt_nat(n)[i]),
        forall|i: int| 0 <= i < fmt_nat(n).len() ==> !is_space(#[trigger] fmt_nat(n)[i]) && fmt_nat(n)[i]
            != '<' && fmt_nat(n)[i] != '\n' && fmt_nat(n)[i] != '-' && fmt_nat(n)[i] != '+'
            && fmt_nat(n)[i] != ';',
        digits_value(fmt_nat(n)) == n,
    decreases n,
{
    if n < 10 {
        lemma_digit_char(n as int);
        assert(fmt_nat(n).drop_last() =~= Seq::<char>::empty());
        assert(fmt_nat(n).last() == digit_char(n as int));
        assert(digits_value(Seq::<char>::empty()) == 0);
    } else {
        lemma_fmt_nat(n / 10);
        lemma_digit_char((n % 10) as int);
        let f = fmt_nat(n);
        assert(f.drop_last() =~= fmt_nat(n / 10));
        assert forall|i: int| 0 <= i < f.len() implies is_digit(#[trigger] f[i]) && !is_space(f[i])
            && f[i] != '<' && f[i] != '\n' && f[i] != '-' && f[i] != '+' && f[i] != ';' by {
            if i < f.len() - 1 {
                assert(f[i] == fmt_nat(n / 10)[i]);
            }
        }
        assert(f.last() == digit_char((n % 10) as int));
        assert(digits_value(f) == 10 * digits_value(fmt_nat(n / 10)) + digit_value(f.last()));
        assert(10 * (n / 10) + n % 10 == n);
    }
}

pub proof fn lemma_parse_fmt_nat(n: nat)
    ensures
        parse_unsigned(fmt_nat(n)) == Some(n as int),
{
    lemma_fmt_nat(n);
}

pub proof fn lemma_fmt_int(v: int)
    ensures
        fmt_int(v).len() > 0,
        !is_space(fmt_int(v)[0]),
        forall|i: int| 0 <= i < fmt_int(v).len() ==> !is_space(#[trigger] fmt_int(v)[i]) && fmt_int(v)[i]
            != '<' && fmt_int(v)[i] != '\n',
        i32::MIN <= v <= i32::MAX ==> parse_i32(fmt_int(v)) == Some(v as i32),
{
    if v < 0 {
        let d = fmt_nat((-v) as nat);
        lemma_fmt_nat((-v) as nat);
        let t = fmt_int(v);
        assert(t.drop_first() =~= d);
        assert forall|i: int| 0 <= i < t.len() implies !is_space(#[trigger] t[i]) && t[i] != '<'
            && t[i] != '\n' by {
            if i > 0 {
                assert(t[i] == d[i - 1]);
            }
        }
    } else {
        lemma_fmt_nat(v as nat);
    }
}


pub proof fn lemma_word_end_at(s: Seq<char>, p: int, e: int, end: int)
    requires
        p <= e <= end,
        forall|i: int| p <= i < e ==> !is_space(#[trigger] s[i]),
        e == end || is_space(s[e]),
    ensures
        word_end(s, p, end) == e,
    decreases e - p,
{
    if p < e {
        lemma_word_end_at(s, p + 1, e, end);
    }
}

/// A word without spaces that ends at a space or at `end` is the first field.
pub proof fn lemma_fields_cons(s: Seq<char>, p: int, e: int, end: int)
    requires
        p < e <= end,
        forall|i: int| p <= i < e ==> !is_space(#[trigger] s[i]),
        e == end || is_space(s[e]),
    ensures
        fields(s, p, end) == seq![s.subrange(p, e)] + fields(s, e, end),
{
    assert(skip_space(s, p, end) == p);
    lemma_word_end_at(s, p, e, end);
}

pub proof fn lemma_fields_skip(s: Seq<char>, p: int, end: int)
    requires
        p < end,
        is_space(s[p]),
    ensures
        fields(s, p, end) == fields(s, p + 1, end),
{
    lemma_skip_space(s, p + 1, end);
}

/// Four words, each without white space, separated by single spaces.
pub open spec fn four_words(w1: Seq<char>, w2: Seq<char>, w3: Seq<char>, w4: Seq<char>) -> Seq<char> {
    w1 + seq![' '] + w2 + seq![' '] + w3 + seq![' '] + w4
}

pub open spec fn solid(w: Seq<char>) -> bool {
    w.len() > 0 && forall|i: int| 0 <= i < w.len() ==> !is_space(#[trigger] w[i])
}

#[verifier::rlimit(40)]
pub proof fn lemma_fields_four(
    s: Seq<char>,
    q: int,
    w1: Seq<char>,
    w2: Seq<char>,
    w3: Seq<char>,
    w4: Seq<char>,
)
    requires
        0 <= q,
        q + four_words(w1, w2, w3, w4).len() <= s.len(),
        s.subrange(q, q + four_words(w1, w2, w3, w4).len()) == four_words(w1, w2, w3, w4),
        solid(w1),
        solid(w2),
        solid(w3),
        solid(w4),
    ensures
        fields(s, q, q + four_words(w1, w2, w3, w4).len()) == seq![w1, w2, w3, w4],
{
    let line = four_words(w1, w2, w3, w4);
    let end = q + line.len();
    let a2 = q + w1.len() + 1;
    let a3 = a2 + w2.len() + 1;
    let a4 = a3 + w3.len() + 1;
    assert forall|i: int| 0 <= i < line.len() implies s[q + i] == #[trigger] line[i] by {
        assert(s.subrange(q, end)[i] == s[q + i]);
    }
    assert forall|i: int| q <= i < a2 - 1 implies !is_space(#[trigger] s[i]) by {
        assert(s[i] == line[i - q]);
        assert(line[i - q] == w1[i - q]);
    }
    assert(s[a2 - 1] == line[w1.len() as int]);
    assert forall|i: int| a2 <= i < a3 - 1 implies !is_space(#[trigger] s[i]) by {
        assert(s[i] == line[i - q]);
        assert(line[i - q] == w2[i - a2]);
    }
    assert(s[a3 - 1] == line[a3 - 1 - q]);
    assert forall|i: int| a3 <= i < a4 - 1 implies !is_space(#[trigger] s[i]) by {
        assert(s[i] == line[i - q]);
        assert(line[i - q] == w3[i - a3]);
    }
    assert(s[a4 - 1] == line[a4 - 1 - q]);
    assert forall|i: int| a4 <= i < end implies !is_space(#[trigger] s[i]) by {
        assert(s[i] == line[i - q]);
        assert(line[i - q] == w4[i - a4]);
    }
    lemma_fields_cons(s, q, a2 - 1, end);
    lemma_fields_skip(s, a2 - 1, end);
    lemma_fields_cons(s, a2, a3 - 1, end);
    lemma_fields_skip(s, a3 - 1, end);
    lemma_fields_cons(s, a3, a4 - 1, end);
    lemma_fields_skip(s, a4 - 1, end);
    lemma_fields_cons(s, a4, end, end);
    assert(fields(s, end, end) =~= Seq::<Seq<char>>::empty());
    assert(s.subrange(q, a2 - 1) =~= w1);
    assert(s.subrange(a2, a3 - 1) =~= w2) by {
        assert forall|k: int| 0 <= k < w2.len() implies #[trigger] s.subrange(a2, a3 - 1)[k] == w2[k] by {
            assert(s[a2 + k] == line[a2 + k - q]);
        }
    }
    assert(s.subrange(a3, a4 - 1) =~= w3) by {
        assert forall|k: int| 0 <= k < w3.len() implies #[trigger] s.subrange(a3, a4 - 1)[k] == w3[k] by {
            assert(s[a3 + k] == line[a3 + k - q]);
        }
    }
    assert(s.subrange(a4, end) =~= w4) by {
        assert forall|k: int| 0 <= k < w4.len() implies #[trigger] s.subrange(a4, end)[k] == w4[k] by {
            assert(s[a4 + k] == line[a4 + k - q]);
        }
    }
    assert(fields(s, q, end) =~= seq![w1, w2, w3, w4]);
}


/// `pat` occurs somewhere in `s`.
pub open spec fn contains_seq(s: Seq<char>, pat: Seq<char>) -> bool {
    exists|j: int| 0 <= j && j + pat.len() <= s.len() && #[trigger] s.subrange(j, j + pat.len()) == pat
}

pub proof fn lemma_find_before_at(s: Seq<char>, c: char, p: int, e: int, end: int)
    requires
        p <= e < end,
        forall|i: int| p <= i < e ==> #[trigger] s[i] != c,
        s[e] == c,
    ensures
        find_before(s, c, p, end) == e,
    decreases e - p,
{
    if p < e {
        lemma_find_before_at(s, c, p + 1, e, end);
    }
}

pub proof fn lemma_find_seq_first(s: Seq<char>, pat: Seq<char>, p: int, q: int, end: int)
    requires
        0 <= p <= q <= end,
        pat.len() > 0,
        forall|j: int| p <= j < q && j + pat.len() <= end ==> #[trigger] s.subrange(j, j + pat.len()) != pat,
        q == end || (q + pat.len() <= end && s.subrange(q, q + pat.len()) == pat),
    ensures
        find_seq(s, pat, p, end) == q,
    decreases q - p,
{
    if p < q {
        if p + pat.len() <= end {
            assert(s.subrange(p, p + pat.len()) != pat);
        }
        lemma_find_seq_first(s, pat, p + 1, q, end);
    }
}

#[verifier::rlimit(40)]
pub proof fn lemma_rect_line(r: Rect)
    ensures
        rect_line(r) == four_words(
            fmt_int(r.x as int),
            fmt_int(r.y as int),
            fmt_int(r.w as int),
            fmt_int(r.h as int),
        ),
        solid(fmt_int(r.x as int)),
        solid(fmt_int(r.y as int)),
        solid(fmt_int(r.w as int)),
        solid(fmt_int(r.h as int)),
        forall|i: int| 0 <= i < rect_line(r).len() ==> #[trigger] rect_line(r)[i] != '<' && rect_line(r)[i] != '\n',
        !is_space(rect_line(r)[0]),
{
    lemma_fmt_int(r.x as int);
    lemma_fmt_int(r.y as int);
    lemma_fmt_int(r.w as int);
    lemma_fmt_int(r.h as int);
    let (a, b, c, d) = (fmt_int(r.x as int), fmt_int(r.y as int), fmt_int(r.w as int), fmt_int(
        r.h as int,
    ));
    let l = rect_line(r);
    assert forall|i: int| 0 <= i < l.len() implies #[trigger] l[i] != '<' && l[i] != '\n' by {
        let a2 = a.len() + 1;
        let a3 = a2 + b.len() + 1;
        let a4 = a3 + c.len() + 1;
        if i < a.len() {
            assert(l[i] == a[i]);
        } else if i < a2 {
            assert(l[i] == ' ');
        } else if i < a3 - 1 {
            assert(l[i] == b[i - a2]);
        } else if i < a3 {
            assert(l[i] == ' ');
        } else if i < a4 - 1 {
            assert(l[i] == c[i - a3]);
        } else if i < a4 {
            assert(l[i] == ' ');
        } else {
            assert(l[i] == d[i - a4]);
        }
    }
    assert(l[0] == a[0]);
}

/// Where the parts of the text of one microcontroller start.
pub proof fn lemma_mc_text_layout(m: McView)
    ensures
        ({
            let x = mc_text(m);
            let rl = rect_line(m.rect);
            let c0 = 6 + rl.len();
            &&& x.len() == c0 + m.code.len() + 1
            &&& x.subrange(0, 4) == mc_mark()
            &&& x[0] == '<' && x[1] == 'm' && x[2] == 'c' && x[3] == '>'
            &&& x[4] == '\n'
            &&& forall|i: int| 0 <= i < rl.len() ==> x[5 + i] == #[trigger] rl[i]
            &&& x[5 + rl.len() as int] == '\n'
            &&& forall|i: int| 0 <= i < m.code.len() ==> x[c0 + i] == #[trigger] m.code[i]
            &&& x[c0 + m.code.len() as int] == '\n'
        }),
{
    assert(mc_text(m).subrange(0, 4) =~= mc_mark());
}

/// A window inside the text of one microcontroller matches no marker, but
/// for `<mc>` at the very start of the text.
#[verifier::rlimit(40)]
pub proof fn lemma_no_match_in_text(t: Seq<char>, o: int, m: McView, pat: Seq<char>, j: int)
    requires
        0 <= o,
        o + mc_text(m).len() <= t.len(),
        t.subrange(o, o + mc_text(m).len()) == mc_text(m),
        pat.len() >= 2,
        pat[0] == '<',
        forall|k: int| 0 <= k < pat.len() ==> #[trigger] pat[k] != '\n',
        !contains_seq(m.code, pat),
        o < j < o + mc_text(m).len() || (j == o && pat[1] != 'm'),
        j + pat.len() <= t.len(),
    ensures
        t.subrange(j, j + pat.len()) != pat,
{
    let x = mc_text(m);
    let rl = rect_line(m.rect);
    let c0 = 6 + rl.len();
    lemma_mc_text_layout(m);
    lemma_rect_line(m.rect);
    let w = t.subrange(j, j + pat.len());
    assert forall|i: int| 0 <= i < x.len() implies t[o + i] == #[trigger] x[i] by {
        assert(t.subrange(o, o + x.len())[i] == t[o + i]);
    }
    if j == o {
        assert(w[1] == t[o + 1]);
    } else if j - o < 5 {
        assert(w[0] == t[j]);
        assert(t[j] == x[j - o]);
    } else if j - o < c0 {
        assert(w[0] == t[j]);
        assert(t[j] == x[j - o]);
        if j - o < 5 + rl.len() {
            assert(x[j - o] == rl[j - o - 5]);
        }
    } else if j - o < c0 + m.code.len() {
        let k = j - o - c0;
        if k + pat.len() <= m.code.len() {
            if w == pat {
                assert(m.code.subrange(k, k + pat.len()) =~= pat) by {
                    assert forall|i: int| 0 <= i < pat.len() implies #[trigger] m.code.subrange(
                        k,
                        k + pat.len(),
                    )[i] == pat[i] by {
                        assert(w[i] == t[j + i]);
                        assert(t[j + i] == x[c0 + k + i]);
                    }
                }
                assert(contains_seq(m.code, pat));
            }
        } else {
            let i = m.code.len() - k;
            assert(w[i] == t[j + i]);
            assert(t[j + i] == x[c0 + m.code.len() as int]);
            assert(pat[i] != '\n');
        }
    } else {
        assert(w[0] == t[j]);
        assert(t[j] == x[j - o]);
    }
}

pub proof fn lemma_mcs_text_prefix(mcs: Seq<McView>, a: int, b: int)
    requires
        0 <= a <= b,
    ensures
        mcs_text(mcs, a).len() <= mcs_text(mcs, b).len(),
        mcs_text(mcs, b).subrange(0, mcs_text(mcs, a).len() as int) == mcs_text(mcs, a),
    decreases b - a,
{
    if a < b {
        lemma_mcs_text_prefix(mcs, a, b - 1);
        let pb = mcs_text(mcs, b - 1);
        assert(mcs_text(mcs, b).subrange(0, pb.len() as int) =~= pb);
        assert(mcs_text(mcs, b).subrange(0, mcs_text(mcs, a).len() as int) =~= pb.subrange(
            0,
            mcs_text(mcs, a).len() as int,
        ));
    } else {
        assert(mcs_text(mcs, b).subrange(0, mcs_text(mcs, a).len() as int) =~= mcs_text(mcs, a));
    }
}

/// The text of microcontroller `i` sits at the end of the text of the first `i + 1`.
#[verifier::rlimit(40)]
pub proof fn lemma_mc_text_at(t: Seq<char>, mcs: Seq<McView>, i: int)
    requires
        0 <= i < mcs.len(),
        mcs_text(mcs, mcs.len() as int).len() <= t.len(),
        t.subrange(0, mcs_text(mcs, mcs.len() as int).len() as int) == mcs_text(mcs, mcs.len() as int),
    ensures
        mcs_text(mcs, i + 1).len() == mcs_text(mcs, i).len() + mc_text(mcs[i]).len(),
        mcs_text(mcs, i + 1).len() <= mcs_text(mcs, mcs.len() as int).len(),
        t.subrange(
            mcs_text(mcs, i).len() as int,
            mcs_text(mcs, i).len() + mc_text(mcs[i]).len() as int,
        ) == mc_text(mcs[i]),
{
    let l = mcs_text(mcs, mcs.len() as int);
    let o = mcs_text(mcs, i).len() as int;
    let x = mc_text(mcs[i]);
    lemma_mcs_text_prefix(mcs, i + 1, mcs.len() as int);
    let p = mcs_text(mcs, i + 1);
    assert(p == mcs_text(mcs, i) + x);
    assert(t.subrange(o, o + x.len()) =~= x) by {
        assert forall|k: int| 0 <= k < x.len() implies #[trigger] t.subrange(o, o + x.len())[k]
            == x[k] by {
            assert(t[o + k] == t.subrange(0, l.len() as int)[o + k]);
            assert(l.subrange(0, p.len() as int)[o + k] == l[o + k]);
            assert(p[o + k] == x[k]);
        }
    }
}

/// No `<connections>` marker inside the saved microcontrollers.
pub proof fn lemma_no_conn_mark_in_mcs(t: Seq<char>, mcs: Seq<McView>, n: int, j: int)
    requires
        0 <= n <= mcs.len(),
        mcs_text(mcs, mcs.len() as int).len() <= t.len(),
        t.subrange(0, mcs_text(mcs, mcs.len() as int).len() as int) == mcs_text(mcs, mcs.len() as int),
        forall|i: int| 0 <= i < mcs.len() ==> !contains_seq(#[trigger] mcs[i].code, conn_mark()),
        0 <= j < mcs_text(mcs, n).len(),
        j + conn_mark().len() <= t.len(),
    ensures
        t.subrange(j, j + conn_mark().len()) != conn_mark(),
    decreases n,
{
    if n > 0 {
        let prev = mcs_text(mcs, n - 1);
        lemma_mc_text_at(t, mcs, n - 1);
        if j < prev.len() {
            lemma_no_conn_mark_in_mcs(t, mcs, n - 1, j);
        } else {
            assert(!contains_seq(mcs[n - 1].code, conn_mark()));
            lemma_no_match_in_text(t, prev.len() as int, mcs[n - 1], conn_mark(), j);
        }
    }
}

/// What loading reads for one saved microcontroller.
pub open spec fn chunk_of(m: McView) -> (Rect, Seq<char>) {
    (m.rect, m.code.push('\n'))
}

pub proof fn lemma_subrange_at(t: Seq<char>, o: int, x: Seq<char>)
    requires
        0 <= o,
        o + x.len() <= t.len(),
        t.subrange(o, o + x.len()) == x,
    ensures
        forall|i: int| 0 <= i < x.len() ==> t[o + i] == #[trigger] x[i],
{
    assert forall|i: int| 0 <= i < x.len() implies t[o + i] == #[trigger] x[i] by {
        assert(t.subrange(o, o + x.len())[i] == t[o + i]);
    }
}

#[verifier::rlimit(40)]
pub proof fn lemma_chunk_geometry(t: Seq<char>, o: int, m: McView)
    requires
        0 <= o,
        o + mc_text(m).len() <= t.len(),
        t.subrange(o, o + mc_text(m).len()) == mc_text(m),
    ensures
        skip_space(t, o + 4, o + mc_text(m).len()) == o + 5,
        find_before(t, '\n', o + 5, o + mc_text(m).len()) == o + 5 + rect_line(m.rect).len(),
        t.subrange(o + 5, o + 5 + rect_line(m.rect).len()) == rect_line(m.rect),
{
    let x = mc_text(m);
    let rl = rect_line(m.rect);
    let b = o + x.len();
    let q = o + 5;
    let e = q + rl.len();
    lemma_mc_text_layout(m);
    lemma_rect_line(m.rect);
    lemma_subrange_at(t, o, x);
    assert(t[o + 4] == x[4]);
    assert(t[q] == x[5]);
    assert(t[q] == rl[0]);
    assert(skip_space(t, q, b) == q);
    assert forall|i: int| q <= i < e implies #[trigger] t[i] != '\n' by {
        assert(t[o + (i - o)] == x[i - o]);
        assert(x[5 + (i - q)] == rl[i - q]);
    }
    assert(t[e] == x[5 + rl.len() as int]);
    lemma_find_before_at(t, '\n', q, e, b);
    assert(t.subrange(q, e) =~= rl) by {
        assert forall|i: int| 0 <= i < rl.len() implies #[trigger] t.subrange(q, e)[i] == rl[i] by {
            assert(t[o + (5 + i)] == x[5 + i]);
        }
    }
}

#[verifier::rlimit(60)]
pub proof fn lemma_chunk_rect(t: Seq<char>, q: int, r: Rect)
    requires
        0 <= q,
        q + rect_line(r).len() <= t.len(),
        t.subrange(q, q + rect_line(r).len()) == rect_line(r),
    ensures
        parse_rect(t, q, q + rect_line(r).len()) == Some(r),
{
    lemma_rect_line(r);
    lemma_fields_four(
        t,
        q,
        fmt_int(r.x as int),
        fmt_int(r.y as int),
        fmt_int(r.w as int),
        fmt_int(r.h as int),
    );
    lemma_fmt_int(r.x as int);
    lemma_fmt_int(r.y as int);
    lemma_fmt_int(r.w as int);
    lemma_fmt_int(r.h as int);
}

pub proof fn lemma_chunk_code(t: Seq<char>, o: int, m: McView)
    requires
        0 <= o,
        o + mc_text(m).len() <= t.len(),
        t.subrange(o, o + mc_text(m).len()) == mc_text(m),
    ensures
        t.subrange(o + 6 + rect_line(m.rect).len(), o + mc_text(m).len()) == m.code.push('\n'),
{
    let x = mc_text(m);
    let c0 = 6 + rect_line(m.rect).len();
    lemma_mc_text_layout(m);
    lemma_subrange_at(t, o, x);
    assert(t.subrange(o + c0, o + x.len()) =~= m.code.push('\n')) by {
        assert forall|i: int| 0 <= i < m.code.len() + 1 implies #[trigger] t.subrange(
            o + c0,
            o + x.len(),
        )[i] == m.code.push('\n')[i] by {
            assert(t[o + (c0 + i)] == x[c0 + i]);
        }
    }
}

pub proof fn lemma_parse_chunk_text(t: Seq<char>, o: int, m: McView)
    requires
        0 <= o,
        o + mc_text(m).len() <= t.len(),
        t.subrange(o, o + mc_text(m).len()) == mc_text(m),
    ensures
        parse_chunk(t, o + 4, o + mc_text(m).len()) == Some(chunk_of(m)),
{
    lemma_chunk_geometry(t, o, m);
    lemma_chunk_rect(t, o + 5, m.rect);
    lemma_chunk_code(t, o, m);
    lemma_mc_text_layout(m);
}

/// Reading the saved microcontrollers from the `i`-th one on.
#[verifier::rlimit(40)]
pub proof fn lemma_parse_mcs_from_text(t: Seq<char>, mcs: Seq<McView>, i: int)
    requires
        0 <= i < mcs.len(),
        mcs_text(mcs, mcs.len() as int).len() <= t.len(),
        t.subrange(0, mcs_text(mcs, mcs.len() as int).len() as int) == mcs_text(mcs, mcs.len() as int),
        forall|k: int| 0 <= k < mcs.len() ==> !contains_seq(#[trigger] mcs[k].code, mc_mark()),
    ensures
        parse_mcs_from(
            t,
            mcs_text(mcs, i).len() + 4 as int,
            mcs_text(mcs, mcs.len() as int).len() as int,
            mcs.map_values(|m: McView| chunk_of(m)).take(i),
        ) == Some(mcs.map_values(|m: McView| chunk_of(m))),
    decreases mcs.len() - i,
{
    let end = mcs_text(mcs, mcs.len() as int).len() as int;
    let all = mcs.map_values(|m: McView| chunk_of(m));
    let o = mcs_text(mcs, i).len() as int;
    let x = mc_text(mcs[i]);
    let b = o + x.len();
    lemma_mc_text_at(t, mcs, i);
    lemma_mc_text_layout(mcs[i]);
    assert forall|j: int| o + 4 <= j < b && j + mc_mark().len() <= end implies #[trigger] t.subrange(
        j,
        j + mc_mark().len(),
    ) != mc_mark() by {
        assert(!contains_seq(mcs[i].code, mc_mark()));
        lemma_no_match_in_text(t, o, mcs[i], mc_mark(), j);
    }
    if i + 1 < mcs.len() {
        lemma_mc_text_at(t, mcs, i + 1);
        lemma_mc_text_layout(mcs[i + 1]);
        let x2 = mc_text(mcs[i + 1]);
        assert(t.subrange(b, b + 4) =~= mc_mark()) by {
            assert forall|k: int| 0 <= k < 4 implies #[trigger] t.subrange(b, b + 4)[k]
                == mc_mark()[k] by {
                assert(t.subrange(b, b + x2.len())[k] == t[b + k]);
                assert(x2.subrange(0, 4)[k] == x2[k]);
            }
        }
        lemma_find_seq_first(t, mc_mark(), o + 4, b, end);
        lemma_parse_chunk_text(t, o, mcs[i]);
        assert(all.take(i).push(chunk_of(mcs[i])) =~= all.take(i + 1));
        lemma_parse_mcs_from_text(t, mcs, i + 1);
    } else {
        assert(b == end);
        lemma_find_seq_first(t, mc_mark(), o + 4, end, end);
        lemma_parse_chunk_text(t, o, mcs[i]);
        assert(all.take(i).push(chunk_of(mcs[i])) =~= all);
    }
}


pub proof fn lemma_conns_text_prefix(cs: Seq<(McConnection, McConnection)>, a: int, b: int)
    requires
        0 <= a <= b,
    ensures
        conns_text(cs, a).len() <= conns_text(cs, b).len(),
        conns_text(cs, b).subrange(0, conns_text(cs, a).len() as int) == conns_text(cs, a),
    decreases b - a,
{
    if a < b {
        lemma_conns_text_prefix(cs, a, b - 1);
        let pb = conns_text(cs, b - 1);
        assert(conns_text(cs, b).subrange(0, pb.len() as int) =~= pb);
        assert(conns_text(cs, b).subrange(0, conns_text(cs, a).len() as int) =~= pb.subrange(
            0,
            conns_text(cs, a).len() as int,
        ));
    } else {
        assert(conns_text(cs, b).subrange(0, conns_text(cs, a).len() as int) =~= conns_text(cs, a));
    }
}

/// The line of connection `k` sits at the end of the lines of the first `k + 1`.
#[verifier::rlimit(40)]
pub proof fn lemma_conn_line_at(t: Seq<char>, base: int, cs: Seq<(McConnection, McConnection)>, k: int)
    requires
        0 <= k < cs.len(),
        0 <= base,
        base + conns_text(cs, cs.len() as int).len() <= t.len(),
        t.subrange(base, base + conns_text(cs, cs.len() as int).len()) == conns_text(
            cs,
            cs.len() as int,
        ),
    ensures
        conns_text(cs, k + 1).len() == conns_text(cs, k).len() + conn_line(cs[k]).len(),
        conns_text(cs, k + 1).len() <= conns_text(cs, cs.len() as int).len(),
        t.subrange(
            base + conns_text(cs, k).len(),
            base + conns_text(cs, k).len() + conn_line(cs[k]).len(),
        ) == conn_line(cs[k]),
{
    let r = conns_text(cs, cs.len() as int);
    let o = conns_text(cs, k).len() as int;
    let x = conn_line(cs[k]);
    lemma_conns_text_prefix(cs, k + 1, cs.len() as int);
    let p = conns_text(cs, k + 1);
    assert(p == conns_text(cs, k) + x);
    lemma_subrange_at(t, base, r);
    assert(t.subrange(base + o, base + o + x.len()) =~= x) by {
        assert forall|i: int| 0 <= i < x.len() implies #[trigger] t.subrange(
            base + o,
            base + o + x.len(),
        )[i] == x[i] by {
            assert(t[base + (o + i)] == r[o + i]);
            assert(r.subrange(0, p.len() as int)[o + i] == r[o + i]);
            assert(p[o + i] == x[i]);
        }
    }
}

pub proof fn lemma_parse_index_fmt(v: usize)
    ensures
        parse_index(fmt_nat(v as nat)) == Some(v),
{
    lemma_parse_fmt_nat(v as nat);
}

#[verifier::rlimit(40)]
pub proof fn lemma_parse_conn_line(t: Seq<char>, p: int, c: (McConnection, McConnection))
    requires
        0 <= p,
        p + conn_line(c).len() <= t.len(),
        t.subrange(p, p + conn_line(c).len()) == conn_line(c),
    ensures
        ({
            let e = p + conn_line(c).len() - 1;
            &&& find_before(t, '\n', p, t.len() as int) == e
            &&& skip_space(t, p, e) < e
            &&& parse_conn(t, p, e) == Some(c)
        }),
{
    let (f1, f2, f3, f4) = (
        fmt_nat(c.0.mc_i as nat),
        fmt_nat(c.0.io_i as nat),
        fmt_nat(c.1.mc_i as nat),
        fmt_nat(c.1.io_i as nat),
    );
    lemma_fmt_nat(c.0.mc_i as nat);
    lemma_fmt_nat(c.0.io_i as nat);
    lemma_fmt_nat(c.1.mc_i as nat);
    lemma_fmt_nat(c.1.io_i as nat);
    let fw = four_words(f1, f2, f3, f4);
    let line = conn_line(c);
    assert(line == fw + seq!['\n']);
    let e = p + fw.len();
    lemma_subrange_at(t, p, line);
    assert forall|i: int| 0 <= i < fw.len() implies #[trigger] fw[i] != '\n' by {
        let a2 = f1.len() + 1;
        let a3 = a2 + f2.len() + 1;
        let a4 = a3 + f3.len() + 1;
        if i < f1.len() {
            assert(fw[i] == f1[i]);
        } else if i < a2 {
            assert(fw[i] == ' ');
        } else if i < a3 - 1 {
            assert(fw[i] == f2[i - a2]);
        } else if i < a3 {
            assert(fw[i] == ' ');
        } else if i < a4 - 1 {
            assert(fw[i] == f3[i - a3]);
        } else if i < a4 {
            assert(fw[i] == ' ');
        } else {
            assert(fw[i] == f4[i - a4]);
        }
    }
    assert forall|i: int| p <= i < e implies #[trigger] t[i] != '\n' by {
        assert(t[p + (i - p)] == line[i - p]);
        assert(line[i - p] == fw[i - p]);
    }
    assert(t[p + fw.len() as int] == line[fw.len() as int]);
    lemma_find_before_at(t, '\n', p, e, t.len() as int);
    assert(t[p + 0] == line[0]);
    assert(line[0] == f1[0]);
    assert(skip_space(t, p, e) == p);
    assert(t.subrange(p, e) =~= fw) by {
        assert forall|i: int| 0 <= i < fw.len() implies #[trigger] t.subrange(p, e)[i] == fw[i] by {
            assert(t[p + i] == line[i]);
        }
    }
    lemma_fields_four(t, p, f1, f2, f3, f4);
    lemma_parse_index_fmt(c.0.mc_i);
    lemma_parse_index_fmt(c.0.io_i);
    lemma_parse_index_fmt(c.1.mc_i);
    lemma_parse_index_fmt(c.1.io_i);
}

/// Reading the saved connection lines from the `k`-th one on.
pub proof fn lemma_parse_conns_text(
    t: Seq<char>,
    base: int,
    cs: Seq<(McConnection, McConnection)>,
    k: int,
)
    requires
        0 <= k <= cs.len(),
        0 <= base,
        base + conns_text(cs, cs.len() as int).len() == t.len(),
        t.subrange(base, t.len() as int) == conns_text(cs, cs.len() as int),
    ensures
        parse_conns_from(t, base + conns_text(cs, k).len(), t.len() as int, cs.take(k)) == Some(cs),
    decreases cs.len() - k,
{
    let p = base + conns_text(cs, k).len();
    if k < cs.len() {
        lemma_conn_line_at(t, base, cs, k);
        lemma_parse_conn_line(t, p, cs[k]);
        assert(cs.take(k).push(cs[k]) =~= cs.take(k + 1));
        lemma_parse_conns_text(t, base, cs, k + 1);
    } else {
        assert(p == t.len());
        assert(cs.take(k) =~= cs);
    }
}

/// With no producer port twice, wiring the connections one after another
/// gives them back in order.
pub proof fn lemma_insert_all_unique(cs: Seq<(McConnection, McConnection)>, k: int)
    requires
        0 <= k <= cs.len(),
        keys_unique(cs),
    ensures
        insert_all(cs, k) == cs.take(k),
    decreases k,
{
    if k > 0 {
        lemma_insert_all_unique(cs, k - 1);
        let prev = cs.take(k - 1);
        lemma_key_index(prev, cs[k - 1].0);
        if key_index(prev, cs[k - 1].0) is Some {
            let i = key_index(prev, cs[k - 1].0)->Some_0;
            assert(prev[i] == cs[i]);
            assert(cs[i].0 != cs[k - 1].0);
        }
        assert(prev.push(cs[k - 1]) =~= cs.take(k));
    } else {
        assert(cs.take(0) =~= Seq::<(McConnection, McConnection)>::empty());
    }
}

/// The source of a microcontroller as loading gives it back: with one newline added.
pub open spec fn reloaded_mc(m: McView) -> McView {
    McView { code: m.code.push('\n'), program: blank_program(), ..m }
}

/// In the saved text, the `<connections>` marker comes right after the microcontrollers.
#[verifier::rlimit(40)]
pub proof fn lemma_saved_conn_mark(c: CircuitView)
    requires
        forall|i: int| 0 <= i < c.mcs.len() ==> !contains_seq(#[trigger] c.mcs[i].code, conn_mark()),
    ensures
        find_seq(save_spec(c), conn_mark(), 0, save_spec(c).len() as int) == mcs_text(
            c.mcs,
            c.mcs.len() as int,
        ).len(),
        save_spec(c).subrange(0, mcs_text(c.mcs, c.mcs.len() as int).len() as int) == mcs_text(
            c.mcs,
            c.mcs.len() as int,
        ),
        save_spec(c)[mcs_text(c.mcs, c.mcs.len() as int).len() + 13int] == '\n',
        save_spec(c).subrange(
            mcs_text(c.mcs, c.mcs.len() as int).len() + 14int,
            save_spec(c).len() as int,
        ) == conns_text(c.connections, c.connections.len() as int),
{
    let mcs = c.mcs;
    let n = mcs.len() as int;
    let l = mcs_text(mcs, n);
    let r = conns_text(c.connections, c.connections.len() as int);
    let t = save_spec(c);
    let m = l.len() as int;
    assert(t == l + conn_mark() + seq!['\n'] + r);
    assert(t.subrange(0, m) =~= l);
    assert(t.subrange(m, m + 13) =~= conn_mark());
    assert(t.subrange(m + 14, t.len() as int) =~= r);
    assert forall|j: int| 0 <= j < m && j + conn_mark().len() <= t.len() implies #[trigger] t.subrange(
        j,
        j + conn_mark().len(),
    ) != conn_mark() by {
        lemma_no_conn_mark_in_mcs(t, mcs, n, j);
    }
    lemma_find_seq_first(t, conn_mark(), 0, m, t.len() as int);
}

/// The microcontrollers read back from a saved text.
#[verifier::rlimit(40)]
pub proof fn lemma_saved_mcs(t: Seq<char>, mcs: Seq<McView>)
    requires
        mcs_text(mcs, mcs.len() as int).len() <= t.len(),
        t.subrange(0, mcs_text(mcs, mcs.len() as int).len() as int) == mcs_text(mcs, mcs.len() as int),
        forall|k: int| 0 <= k < mcs.len() ==> !contains_seq(#[trigger] mcs[k].code, mc_mark()),
    ensures
        parse_mcs(t, mcs_text(mcs, mcs.len() as int).len() as int) == Some(
            mcs.map_values(|x: McView| chunk_of(x)),
        ),
{
    let n = mcs.len() as int;
    let m = mcs_text(mcs, n).len() as int;
    let all = mcs.map_values(|x: McView| chunk_of(x));
    if n == 0 {
        assert(all =~= Seq::<(Rect, Seq<char>)>::empty());
    } else {
        lemma_mc_text_at(t, mcs, 0);
        lemma_mc_text_layout(mcs[0]);
        assert(mcs_text(mcs, 0).len() == 0);
        let x0 = mc_text(mcs[0]);
        assert(t.subrange(0, 4) =~= mc_mark()) by {
            assert forall|k: int| 0 <= k < 4 implies #[trigger] t.subrange(0, 4)[k] == mc_mark()[k] by {
                assert(t.subrange(0, x0.len() as int)[k] == t[k]);
                assert(x0.subrange(0, 4)[k] == x0[k]);
            }
        }
        lemma_find_seq_first(t, mc_mark(), 0, 0, m);
        lemma_parse_mcs_from_text(t, mcs, 0);
        assert(all.take(0) =~= Seq::<(Rect, Seq<char>)>::empty());
    }
}

/// The connections read back from a saved text, after the newline at `nl`.
pub proof fn lemma_saved_conns(t: Seq<char>, nl: int, cs: Seq<(McConnection, McConnection)>, n: int)
    requires
        0 <= nl < t.len(),
        t[nl] == '\n',
        t.subrange(nl + 1, t.len() as int) == conns_text(cs, cs.len() as int),
        ports_valid(cs, n),
    ensures
        parse_conns_from(t, nl, t.len() as int, Seq::empty()) == Some(cs),
{
    lemma_parse_conns_text(t, nl + 1, cs, 0);
    assert(conns_text(cs, 0).len() == 0);
    assert(cs.take(0) =~= Seq::<(McConnection, McConnection)>::empty());
    assert(find_before(t, '\n', nl, t.len() as int) == nl);
}

/// Saving a circuit and loading the text gives back every microcontroller's
/// geometry and source, each source with one newline added, with blank
/// programs, and the same connections in the same order. The sources must not
/// hold the file's markers.
#[verifier::rlimit(40)]
pub proof fn lemma_save_load_round_trip(c: CircuitView)
    requires
        circuit_wf(c),
        forall|i: int|
            0 <= i < c.mcs.len() ==> !contains_seq(#[trigger] c.mcs[i].code, mc_mark())
                && !contains_seq(c.mcs[i].code, conn_mark()),
    ensures
        load_spec(save_spec(c)) == Some(
            CircuitView {
                mcs: c.mcs.map_values(|m: McView| reloaded_mc(m)),
                connections: c.connections,
            },
        ),
{
    let mcs = c.mcs;
    let cs = c.connections;
    let t = save_spec(c);
    let m = mcs_text(mcs, mcs.len() as int).len() as int;
    assert forall|i: int| 0 <= i < mcs.len() implies !contains_seq(#[trigger] mcs[i].code, conn_mark()) by {}
    assert forall|i: int| 0 <= i < mcs.len() implies !contains_seq(#[trigger] mcs[i].code, mc_mark()) by {}
    lemma_saved_conn_mark(c);
    lemma_saved_mcs(t, mcs);
    lemma_saved_conns(t, m + 13, cs, mcs.len() as int);
    lemma_insert_all_unique(cs, cs.len() as int);
    assert(cs.take(cs.len() as int) =~= cs);
    let all = mcs.map_values(|x: McView| chunk_of(x));
    assert(all.map_values(|x: (Rect, Seq<char>)| loaded_mc(x)) =~= mcs.map_values(
        |m: McView| reloaded_mc(m),
    ));
}

impl Circuit {
    /// The circuit as the text of a circuit file.
    pub fn save_text(&self) -> (r: String)
        ensures
            r@ == save_spec(self@),
    {
        let mut out = String::new();
        let mut i: usize = 0;
        while i < self.num_mcs()
            invariant
                i <= self@.mcs.len(),
                out@ == mcs_text(self@.mcs, i as int),
            decreases self@.mcs.len() - i,
        {
            push_mc_text(&mut out, self.get_mc(i));
            i = i + 1;
        }
        push_chars(
            &mut out,
            &['<', 'c', 'o', 'n', 'n', 'e', 'c', 't', 'i', 'o', 'n', 's', '>', '\n'],
        );
        assert(['<', 'c', 'o', 'n', 'n', 'e', 'c', 't', 'i', 'o', 'n', 's', '>', '\n']@
            == conn_mark() + seq!['\n']);
        let cs = self.connections();
        let ghost base = out@;
        let mut k: usize = 0;
        while k < cs.len()
            invariant
                k <= cs@.len(),
                cs@ == self@.connections,
                out@ == base + conns_text(cs@, k as int),
            decreases cs@.len() - k,
        {
            push_conn_line(&mut out, cs[k]);
            assert(out@ =~= base + conns_text(cs@, k + 1));
            k = k + 1;
        }
        assert(out@ =~= save_spec(self@));
        out
    }
    /// Replaces the circuit with the one `text` describes (see `load_spec`).
    /// Where `text` is not a circuit file the result is a `ParseError` and
    /// the circuit is left empty.
    #[verifier::rlimit(40)]
    pub fn load_text(&mut self, text: &str) -> (r: Result<(), PersistenceError>)
        ensures
            final(self).wf(),
            match load_spec(text@) {
                Some(c) => r is Ok && final(self)@ == c,
                None => r matches Err(PersistenceError::ParseError(_)) && final(self)@.mcs.len()
                    == 0 && final(self)@.connections.len() == 0,
            },
    {
        let v = chars_of(text);
        let n = v.len();
        let mark = ['<', 'c', 'o', 'n', 'n', 'e', 'c', 't', 'i', 'o', 'n', 's', '>'];
        assert(mark@ == conn_mark());
        let m = find_seq_exec(&v, &mark, 0, n);
        proof {
            lemma_find_seq(v@, conn_mark(), 0, n as int);
        }
        if m >= n {
            self.clear();
            return Err(PersistenceError::ParseError("missing <connections> marker".to_owned()));
        }
        let chunks = match parse_mcs_exec(&v, m) {
            Some(c) => c,
            None => {
                self.clear();
                return Err(PersistenceError::ParseError("bad microcontroller entry".to_owned()));
            },
        };
        let pairs = match parse_conns_exec(&v, m + 13, n) {
            Some(p) => p,
            None => {
                self.clear();
                return Err(PersistenceError::ParseError("bad connection line".to_owned()));
            },
        };
        let ghost cv = chunks_view(chunks@);
        let ghost mcs_goal = cv.map_values(|x: (Rect, Seq<char>)| loaded_mc(x));
        let mut c = Circuit::new();
        let mut i: usize = 0;
        while i < chunks.len()
            invariant
                i <= chunks@.len(),
                cv == chunks_view(chunks@),
                mcs_goal == cv.map_values(|x: (Rect, Seq<char>)| loaded_mc(x)),
                c.wf(),
                c@.mcs == mcs_goal.take(i as int),
                c@.connections == Seq::<(McConnection, McConnection)>::empty(),
            decreases chunks@.len() - i,
        {
            let rect = chunks[i].0;
            let code = chunks[i].1.clone();
            c.add_circuit(rect);
            c.set_code(i, code);
            assert(c@.mcs == mcs_goal.take(i + 1));
            i = i + 1;
        }
        assert(mcs_goal.take(chunks@.len() as int) == mcs_goal);
        let ghost nmc = chunks@.len() as int;
        assert(load_spec(text@) == if all_ports_valid(pairs@, nmc) {
            Some(
                CircuitView {
                    mcs: mcs_goal,
                    connections: insert_all(pairs@, pairs@.len() as int),
                },
            )
        } else {
            None
        });
        let mut k: usize = 0;
        while k < pairs.len()
            invariant
                k <= pairs@.len(),
                c.wf(),
                c@.mcs == mcs_goal,
                mcs_goal.len() == nmc,
                c@.connections == insert_all(pairs@, k as int),
                all_ports_valid(pairs@.take(k as int), nmc),
                load_spec(text@) == if all_ports_valid(pairs@, nmc) {
                    Some(
                        CircuitView {
                            mcs: mcs_goal,
                            connections: insert_all(pairs@, pairs@.len() as int),
                        },
                    )
                } else {
                    None
                },
            decreases pairs@.len() - k,
        {
            let (a, b) = pairs[k];
            match c.add_connection(a, b) {
                Ok(()) => {},
                Err(_) => {
                    assert(!all_ports_valid(pairs@, nmc)) by {
                        assert(!(port_valid(pairs@[k as int].0, nmc) && port_valid(
                            pairs@[k as int].1,
                            nmc,
                        )));
                    }
                    self.clear();
                    return Err(PersistenceError::ParseError("connection out of range".to_owned()));
                },
            }
            assert(all_ports_valid(pairs@.take(k + 1), nmc)) by {
                assert forall|j: int| 0 <= j < k + 1 implies port_valid(
                    (#[trigger] pairs@.take(k + 1)[j]).0,
                    nmc,
                ) && port_valid(pairs@.take(k + 1)[j].1, nmc) by {
                    if j < k {
                        assert(pairs@.take(k + 1)[j] == pairs@.take(k as int)[j]);
                    }
                }
            }
            k = k + 1;
        }
        assert(pairs@.take(pairs@.len() as int) == pairs@);
        *self = c;
        Ok(())
    }
}

} // verus!
