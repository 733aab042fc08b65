//! Prints a compiled program as source text that assembles back to it.
//!
//! Every line is printed with a label of its own, `L<index>:`, so that a
//! branch target can be printed as the label of the line it names.
use vstd::prelude::*;
use crate::assembler::{
    assemble, branch_refs_in_range, check_line_spec, code_wf, direct_below, empty_line,
    initial_state, is_branch, label_index, line_wf, mnemonic, operand_of, parse_source, resolve_from,
    scan_lines, scan_tokens, take_token, CodeError, InterimLineView, Instruction, Line, OpView,
    Operand, ParseState, Register,
};
use crate::codec::{
    fmt_nat, lemma_find_before_at, lemma_fmt_nat, lemma_parse_fmt_nat, push_chars, push_nat,
};
use crate::assembler::{lemma_assemble_wf, line_ref, resolve_line};
use crate::text::{find_before, push_char};

verus! {

/// The label of line `i`.
pub open spec fn label_tok(i: nat) -> Seq<char> {
    seq!['L'] + fmt_nat(i)
}

/// The mnemonic of an instruction.
pub open spec fn mnem_text(instr: Instruction) -> Seq<char> {
    match instr {
        Instruction::ADD => seq!['A', 'D', 'D'],
        Instruction::SUB => seq!['S', 'U', 'B'],
        Instruction::MUL => seq!['M', 'U', 'L'],
        Instruction::DIV => seq!['D', 'I', 'V'],
        Instruction::CMP => seq!['C', 'M', 'P'],
        Instruction::BRC => seq!['B', 'R', 'C'],
        Instruction::BEQ => seq!['B', 'E', 'Q'],
        Instruction::BGT => seq!['B', 'G', 'T'],
        Instruction::BLT => seq!['B', 'L', 'T'],
        Instruction::NOP => seq!['N', 'O', 'P'],
        Instruction::HLT => seq!['H', 'L', 'T'],
    }
}

/// An operand as source text; a direct value is printed as its `u16` bits.
pub open spec fn operand_text(op: Operand) -> Seq<char> {
    match op {
        Operand::Reg(Register::PC) => seq!['P', 'C'],
        Operand::Reg(Register::R1) => seq!['R', '1'],
        Operand::Reg(Register::R2) => seq!['R', '2'],
        Operand::Reg(Register::RT) => seq!['R', 'T'],
        Operand::Reg(Register::RIO(k)) => seq!['I', 'O'] + fmt_nat(k as nat),
        Operand::Direct(n) => seq!['#'] + fmt_nat((n as u16) as nat),
    }
}

/// An operand token; a branch target is printed as the label of its line.
pub open spec fn op_tok(o: Operand, target: bool) -> Seq<char> {
    match o {
        Operand::Direct(t) => if target {
            label_tok((t as u16) as nat)
        } else {
            operand_text(o)
        },
        _ => operand_text(o),
    }
}

/// An operand with the space before it.
pub open spec fn op_part(op: Option<Operand>, target: bool) -> Seq<char> {
    match op {
        None => Seq::empty(),
        Some(o) => seq![' '] + op_tok(o, target),
    }
}

/// Line `i` of a printed program.
pub open spec fn line_text(i: nat, l: Line) -> Seq<char> {
    label_tok(i) + seq![':', ' '] + mnem_text(l.instr) + op_part(
        l.op1,
        crate::assembler::is_branch(l.instr),
    ) + op_part(l.op2, false) + op_part(l.op3, false) + seq!['\n']
}

/// The first `n` lines of a printed program.
pub open spec fn print_spec(code: Seq<Line>, n: int) -> Seq<char>
    decreases n,
{
    if n <= 0 {
        Seq::empty()
    } else {
        print_spec(code, n - 1) + line_text((n - 1) as nat, code[n - 1])
    }
}


fn push_label(out: &mut String, i: u64)
    ensures
        final(out)@ == old(out)@ + label_tok(i as nat),
{
    let ghost o = out@;
    push_char(out, 'L');
    push_nat(out, i);
    assert(out@ =~= o + label_tok(i as nat));
}

fn push_mnemonic(out: &mut String, instr: Instruction)
    ensures
        final(out)@ == old(out)@ + mnem_text(instr),
{
    let ghost o = out@;
    match instr {
        Instruction::ADD => push_chars(out, &['A', 'D', 'D']),
        Instruction::SUB => push_chars(out, &['S', 'U', 'B']),
        Instruction::MUL => push_chars(out, &['M', 'U', 'L']),
        Instruction::DIV => push_chars(out, &['D', 'I', 'V']),
        Instruction::CMP => push_chars(out, &['C', 'M', 'P']),
        Instruction::BRC => push_chars(out, &['B', 'R', 'C']),
        Instruction::BEQ => push_chars(out, &['B', 'E', 'Q']),
        Instruction::BGT => push_chars(out, &['B', 'G', 'T']),
        Instruction::BLT => push_chars(out, &['B', 'L', 'T']),
        Instruction::NOP => push_chars(out, &['N', 'O', 'P']),
        Instruction::HLT => push_chars(out, &['H', 'L', 'T']),
    }
    assert(out@ =~= o + mnem_text(instr));
}

fn push_operand(out: &mut String, op: Operand)
    ensures
        final(out)@ == old(out)@ + operand_text(op),
{
    let ghost o = out@;
    match op {
        Operand::Reg(Register::PC) => push_chars(out, &['P', 'C']),
        Operand::Reg(Register::R1) => push_chars(out, &['R', '1']),
        Operand::Reg(Register::R2) => push_chars(out, &['R', '2']),
        Operand::Reg(Register::RT) => push_chars(out, &['R', 'T']),
        Operand::Reg(Register::RIO(k)) => {
            push_chars(out, &['I', 'O']);
            push_nat(out, k as u64);
        },
        Operand::Direct(n) => {
            push_char(out, '#');
            push_nat(out, (n as u16) as u64);
        },
    }
    assert(out@ =~= o + operand_text(op));
}

fn push_op_part(out: &mut String, op: Option<Operand>, target: bool)
    ensures
        final(out)@ == old(out)@ + op_part(op, target),
{
    let ghost o = out@;
    match op {
        None => {},
        Some(x) => {
            push_char(out, ' ');
            match x {
                Operand::Direct(t) => {
                    if target {
                        push_label(out, (t as u16) as u64);
                    } else {
                        push_operand(out, x);
                    }
                },
                _ => push_operand(out, x),
            }
        },
    }
    assert(out@ =~= o + op_part(op, target));
}

fn push_line(out: &mut String, i: u64, l: Line)
    ensures
        final(out)@ == old(out)@ + line_text(i as nat, l),
{
    let ghost o = out@;
    push_label(out, i);
    push_chars(out, &[':', ' ']);
    push_mnemonic(out, l.instr);
    let target = l.instr == Instruction::BRC || l.instr == Instruction::BEQ || l.instr
        == Instruction::BGT || l.instr == Instruction::BLT;
    push_op_part(out, l.op1, target);
    push_op_part(out, l.op2, false);
    push_op_part(out, l.op3, false);
    push_char(out, '\n');
    assert([':', ' ']@ == seq![':', ' ']);
    assert(out@ =~= o + line_text(i as nat, l));
}

/// The program as source text, one labelled line per instruction.
pub fn print_program(code: &Vec<Line>) -> (r: String)
    ensures
        r@ == print_spec(code@, code@.len() as int),
{
    let mut out = String::new();
    let mut i: usize = 0;
    while i < code.len()
        invariant
            i <= code@.len(),
            out@ == print_spec(code@, i as int),
        decreases code@.len() - i,
    {
        push_line(&mut out, i as u64, code[i]);
        i = i + 1;
    }
    out
}


// ---------------------------------------------------------------------------
// A printed program assembles back to the program

/// Tokens joined by single spaces.
pub open spec fn join(toks: Seq<Seq<char>>) -> Seq<char>
    decreases toks.len(),
{
    if toks.len() == 0 {
        Seq::empty()
    } else if toks.len() == 1 {
        toks[0]
    } else {
        toks[0] + seq![' '] + join(toks.drop_first())
    }
}

/// The first pass taking the tokens one after another.
pub open spec fn take_all(st: ParseState, toks: Seq<Seq<char>>, li: usize) -> Result<
    ParseState,
    CodeError,
>
    decreases toks.len(),
{
    if toks.len() == 0 {
        Ok(st)
    } else {
        match take_token(st, toks[0], li) {
            Ok(st2) => take_all(st2, toks.drop_first(), li),
            Err(e) => Err(e),
        }
    }
}

/// A token: not empty, with no space, newline or comment character.
pub open spec fn plain_tok(t: Seq<char>) -> bool {
    t.len() > 0 && forall|i: int| 0 <= i < t.len() ==> #[trigger] t[i] != ' ' && t[i] != '\n' && t[i] != ';'
}

pub proof fn lemma_find_before_none(s: Seq<char>, c: char, p: int, e: int)
    requires
        p <= e,
        forall|i: int| p <= i < e ==> #[trigger] s[i] != c,
    ensures
        find_before(s, c, p, e) == e,
    decreases e - p,
{
    if p < e {
        lemma_find_before_none(s, c, p + 1, e);
    }
}

pub proof fn lemma_join_chars(toks: Seq<Seq<char>>)
    requires
        forall|k: int| 0 <= k < toks.len() ==> plain_tok(#[trigger] toks[k]),
    ensures
        forall|i: int| 0 <= i < join(toks).len() ==> #[trigger] join(toks)[i] != '\n' && join(toks)[i] != ';',
    decreases toks.len(),
{
    if toks.len() > 1 {
        let rest = toks.drop_first();
        assert forall|k: int| 0 <= k < rest.len() implies plain_tok(#[trigger] rest[k]) by {
            assert(rest[k] == toks[k + 1]);
        }
        lemma_join_chars(rest);
        let j = join(toks);
        let t0 = toks[0];
        assert(plain_tok(t0));
        assert forall|i: int| 0 <= i < j.len() implies #[trigger] j[i] != '\n' && j[i] != ';' by {
            if i < t0.len() {
                assert(j[i] == t0[i]);
            } else if i > t0.len() {
                assert(j[i] == join(rest)[i - t0.len() - 1]);
            }
        }
    } else if toks.len() == 1 {
        assert(plain_tok(toks[0]));
    }
}

/// Scanning tokens joined by single spaces takes them one after another.
pub proof fn lemma_scan_join(s: Seq<char>, p: int, toks: Seq<Seq<char>>, li: usize, st: ParseState)
    requires
        toks.len() >= 1,
        forall|k: int| 0 <= k < toks.len() ==> plain_tok(#[trigger] toks[k]),
        0 <= p,
        p + join(toks).len() <= s.len(),
        s.subrange(p, p + join(toks).len()) == join(toks),
    ensures
        scan_tokens(s, p, p + join(toks).len(), li, st) == take_all(st, toks, li),
    decreases toks.len(),
{
    let t0 = toks[0];
    let e = p + join(toks).len();
    let q = p + t0.len();
    assert(plain_tok(t0));
    assert forall|i: int| p <= i < q implies #[trigger] s[i] != ' ' by {
        assert(s.subrange(p, e)[i - p] == s[i]);
        assert(join(toks)[i - p] == t0[i - p]);
    }
    assert(s[p] != ' ');
    assert(s.subrange(p, q) =~= t0) by {
        assert forall|i: int| 0 <= i < t0.len() implies #[trigger] s.subrange(p, q)[i] == t0[i] by {
            assert(s.subrange(p, e)[i] == s[p + i]);
            assert(join(toks)[i] == t0[i]);
        }
    }
    if toks.len() == 1 {
        lemma_find_before_none(s, ' ', p, e);
        assert(q == e);
        assert(scan_tokens(s, p, e, li, st) == match take_token(st, t0, li) {
            Ok(st2) => scan_tokens(s, e, e, li, st2),
            Err(x) => Err(x),
        });
        assert(take_all(st, toks, li) == match take_token(st, t0, li) {
            Ok(st2) => take_all(st2, toks.drop_first(), li),
            Err(x) => Err(x),
        });
        if let Ok(st2) = take_token(st, t0, li) {
            assert(toks.drop_first().len() == 0);
            assert(take_all(st2, toks.drop_first(), li) == Ok::<ParseState, CodeError>(st2));
            assert(scan_tokens(s, e, e, li, st2) == Ok::<ParseState, CodeError>(st2));
        }
    } else {
        let rest = toks.drop_first();
        assert(join(toks) == t0 + seq![' '] + join(rest));
        assert(e == q + 1 + join(rest).len());
        assert(s[q] == ' ') by {
            assert(s.subrange(p, e)[q - p] == s[q]);
            assert(join(toks)[t0.len() as int] == ' ');
        }
        lemma_find_before_at(s, ' ', p, q, e);
        assert forall|k: int| 0 <= k < rest.len() implies plain_tok(#[trigger] rest[k]) by {
            assert(rest[k] == toks[k + 1]);
        }
        assert(s.subrange(q + 1, e) =~= join(rest)) by {
            assert forall|i: int| 0 <= i < join(rest).len() implies #[trigger] s.subrange(q + 1, e)[i]
                == join(rest)[i] by {
                assert(s.subrange(p, e)[q + 1 + i - p] == s[q + 1 + i]);
                assert(join(toks)[t0.len() + 1 + i] == join(rest)[i]);
            }
        }
        assert(scan_tokens(s, p, e, li, st) == match take_token(st, t0, li) {
            Ok(st2) => scan_tokens(s, q, e, li, st2),
            Err(x) => Err(x),
        });
        assert(take_all(st, toks, li) == match take_token(st, t0, li) {
            Ok(st2) => take_all(st2, rest, li),
            Err(x) => Err(x),
        });
        if let Ok(st2) = take_token(st, t0, li) {
            assert(scan_tokens(s, q, e, li, st2) == scan_tokens(s, q + 1, e, li, st2));
            lemma_scan_join(s, q + 1, rest, li, st2);
        }
    }
}

/// The operand tokens of a line, in order.
pub open spec fn opt_tok(op: Option<Operand>, target: bool) -> Seq<Seq<char>> {
    match op {
        None => Seq::empty(),
        Some(o) => seq![op_tok(o, target)],
    }
}

/// The tokens of line `i` of a printed program.
pub open spec fn line_toks(i: nat, l: Line) -> Seq<Seq<char>> {
    seq![label_tok(i).push(':'), mnem_text(l.instr)] + opt_tok(l.op1, is_branch(l.instr)) + opt_tok(
        l.op2,
        false,
    ) + opt_tok(l.op3, false)
}

pub proof fn lemma_join_cons(t: Seq<char>, rest: Seq<Seq<char>>)
    requires
        rest.len() >= 1,
    ensures
        join(seq![t] + rest) == t + seq![' '] + join(rest),
{
    assert((seq![t] + rest).drop_first() =~= rest);
}

pub proof fn lemma_join_one(t: Seq<char>)
    ensures
        join(seq![t]) == t,
{
}

#[verifier::rlimit(60)]
pub proof fn lemma_line_text_join(i: nat, l: Line)
    requires
        line_wf(l),
    ensures
        line_text(i, l) == join(line_toks(i, l)) + seq!['\n'],
{
    let t = line_toks(i, l);
    let a = label_tok(i).push(':');
    let b = mnem_text(l.instr);
    let p1 = op_part(l.op1, is_branch(l.instr));
    let p2 = op_part(l.op2, false);
    let p3 = op_part(l.op3, false);
    assert(line_text(i, l) =~= a + seq![' '] + b + p1 + p2 + p3 + seq!['\n']);
    if l.op1 is None {
        assert(t =~= seq![a] + seq![b]);
        lemma_join_one(b);
        lemma_join_cons(a, seq![b]);
        assert(p1 =~= Seq::<char>::empty() && p2 =~= Seq::<char>::empty() && p3 =~= Seq::<char>::empty());
    } else if l.op2 is None {
        let c = op_tok(l.op1->Some_0, is_branch(l.instr));
        assert(t =~= seq![a] + (seq![b] + seq![c]));
        lemma_join_one(c);
        lemma_join_cons(b, seq![c]);
        lemma_join_cons(a, seq![b] + seq![c]);
        assert(p1 =~= seq![' '] + c);
        assert(p2 =~= Seq::<char>::empty() && p3 =~= Seq::<char>::empty());
    } else if l.op3 is None {
        let c = op_tok(l.op1->Some_0, is_branch(l.instr));
        let d = op_tok(l.op2->Some_0, false);
        assert(t =~= seq![a] + (seq![b] + (seq![c] + seq![d])));
        lemma_join_one(d);
        lemma_join_cons(c, seq![d]);
        lemma_join_cons(b, seq![c] + seq![d]);
        lemma_join_cons(a, seq![b] + (seq![c] + seq![d]));
        assert(p1 =~= seq![' '] + c);
        assert(p2 =~= seq![' '] + d);
        assert(p3 =~= Seq::<char>::empty());
    } else {
        let c = op_tok(l.op1->Some_0, is_branch(l.instr));
        let d = op_tok(l.op2->Some_0, false);
        let f = op_tok(l.op3->Some_0, false);
        assert(t =~= seq![a] + (seq![b] + (seq![c] + (seq![d] + seq![f]))));
        lemma_join_one(f);
        lemma_join_cons(d, seq![f]);
        lemma_join_cons(c, seq![d] + seq![f]);
        lemma_join_cons(b, seq![c] + (seq![d] + seq![f]));
        lemma_join_cons(a, seq![b] + (seq![c] + (seq![d] + seq![f])));
        assert(p1 =~= seq![' '] + c);
        assert(p2 =~= seq![' '] + d);
        assert(p3 =~= seq![' '] + f);
    }
    assert(line_text(i, l) =~= join(t) + seq!['\n']);
}


/// What the first pass reads from a printed operand.
pub open spec fn iop(o: Option<Operand>, target: bool) -> Option<OpView> {
    match o {
        None => None,
        Some(Operand::Reg(r)) => Some(OpView::Reg(r)),
        Some(Operand::Direct(n)) => if target {
            Some(OpView::Lable(label_tok((n as u16) as nat)))
        } else {
            Some(OpView::Direct(n))
        },
    }
}

/// What the first pass collects from line `i` of a printed program.
pub open spec fn interim_of(i: nat, l: Line) -> InterimLineView {
    InterimLineView {
        lable: Some(label_tok(i)),
        instr: Some(l.instr),
        op1: iop(l.op1, is_branch(l.instr)),
        op2: iop(l.op2, false),
        op3: iop(l.op3, false),
    }
}

pub proof fn lemma_label_tok(i: nat, li: usize)
    ensures
        plain_tok(label_tok(i)),
        plain_tok(label_tok(i).push(':')),
        mnemonic(label_tok(i).push(':')) is None,
        label_tok(i).push(':').drop_last() == label_tok(i),
        operand_of(label_tok(i), li) == Ok::<OpView, CodeError>(OpView::Lable(label_tok(i))),
{
    lemma_fmt_nat(i);
    let l = label_tok(i);
    assert forall|k: int| 0 <= k < l.len() implies #[trigger] l[k] != ' ' && l[k] != '\n' && l[k]
        != ';' by {
        if k > 0 {
            assert(l[k] == fmt_nat(i)[k - 1]);
        }
    }
    let lc = l.push(':');
    assert forall|k: int| 0 <= k < lc.len() implies #[trigger] lc[k] != ' ' && lc[k] != '\n' && lc[k]
        != ';' by {
        if k < l.len() {
            assert(lc[k] == l[k]);
        }
    }
    assert(lc[0] == 'L');
    assert(lc.drop_last() =~= l);
}

pub proof fn lemma_mnem(instr: Instruction)
    ensures
        plain_tok(mnem_text(instr)),
        mnemonic(mnem_text(instr)) == Some(instr),
{
}

pub proof fn lemma_op_tok(o: Operand, target: bool, li: usize)
    requires
        crate::assembler::operand_ok(Some(o)),
    ensures
        plain_tok(op_tok(o, target)),
        operand_of(op_tok(o, target), li) == Ok::<OpView, CodeError>(iop(Some(o), target)->Some_0),
{
    match o {
        Operand::Reg(Register::RIO(k)) => {
            lemma_fmt_nat(k as nat);
            lemma_parse_fmt_nat(k as nat);
            let w = op_tok(o, target);
            assert(w[0] == 'I' && w[1] == 'O');
            assert(w.subrange(2, w.len() as int) =~= fmt_nat(k as nat));
            assert forall|j: int| 0 <= j < w.len() implies #[trigger] w[j] != ' ' && w[j] != '\n'
                && w[j] != ';' by {
                if j >= 2 {
                    assert(w[j] == fmt_nat(k as nat)[j - 2]);
                }
            }
        },
        Operand::Direct(n) => {
            if target {
                lemma_label_tok((n as u16) as nat, li);
            } else {
                let v = (n as u16) as nat;
                lemma_fmt_nat(v);
                lemma_parse_fmt_nat(v);
                let w = op_tok(o, target);
                assert(w.subrange(1, w.len() as int) =~= fmt_nat(v));
                assert forall|j: int| 0 <= j < w.len() implies #[trigger] w[j] != ' ' && w[j] != '\n'
                    && w[j] != ';' by {
                    if j >= 1 {
                        assert(w[j] == fmt_nat(v)[j - 1]);
                    }
                }
                assert((v as int) as u16 == n as u16);
                assert((n as u16) as i16 == n) by (bit_vector);
            }
        },
        _ => {},
    }
}

pub proof fn lemma_take_all_cons(st: ParseState, t: Seq<char>, rest: Seq<Seq<char>>, li: usize)
    ensures
        take_all(st, seq![t] + rest, li) == match take_token(st, t, li) {
            Ok(st2) => take_all(st2, rest, li),
            Err(e) => Err(e),
        },
{
    assert((seq![t] + rest).drop_first() =~= rest);
}

pub proof fn lemma_take_all_empty(st: ParseState, li: usize)
    ensures
        take_all(st, Seq::empty(), li) == Ok::<ParseState, CodeError>(st),
{
}

/// Taking the tokens of a printed line collects exactly that line.
#[verifier::rlimit(60)]
pub proof fn lemma_take_line(i: nat, l: Line, st: ParseState, li: usize)
    requires
        line_wf(l),
        st.cur == empty_line(),
    ensures
        take_all(st, line_toks(i, l), li) == Ok::<ParseState, CodeError>(
            ParseState { cur: interim_of(i, l), ..st },
        ),
{
    let a = label_tok(i).push(':');
    let b = mnem_text(l.instr);
    let tg = is_branch(l.instr);
    lemma_label_tok(i, li);
    lemma_mnem(l.instr);
    let s1 = ParseState { cur: InterimLineView { lable: Some(label_tok(i)), ..empty_line() }, ..st };
    assert(take_token(st, a, li) == Ok::<ParseState, CodeError>(s1));
    let s2 = ParseState {
        cur: InterimLineView { lable: Some(label_tok(i)), instr: Some(l.instr), ..empty_line() },
        ..st
    };
    assert(take_token(s1, b, li) == Ok::<ParseState, CodeError>(s2));
    let r1 = opt_tok(l.op1, tg);
    let r2 = opt_tok(l.op2, false);
    let r3 = opt_tok(l.op3, false);
    let t = line_toks(i, l);
    assert(t =~= seq![a] + (seq![b] + (r1 + (r2 + r3))));
    lemma_take_all_cons(st, a, seq![b] + (r1 + (r2 + r3)), li);
    lemma_take_all_cons(s1, b, r1 + (r2 + r3), li);
    let s3 = ParseState { cur: InterimLineView { op1: iop(l.op1, tg), ..s2.cur }, ..st };
    let s4 = ParseState { cur: InterimLineView { op2: iop(l.op2, false), ..s3.cur }, ..st };
    let s5 = ParseState { cur: InterimLineView { op3: iop(l.op3, false), ..s4.cur }, ..st };
    assert(s5 == ParseState { cur: interim_of(i, l), ..st });
    if let Some(o) = l.op1 {
        lemma_op_tok(o, tg, li);
        assert(r1 == seq![op_tok(o, tg)]);
        assert(take_token(s2, op_tok(o, tg), li) == Ok::<ParseState, CodeError>(s3));
        lemma_take_all_cons(s2, op_tok(o, tg), r2 + r3, li);
    } else {
        assert(r1 =~= Seq::<Seq<char>>::empty());
        assert(r1 + (r2 + r3) =~= r2 + r3);
        assert(s3 == s2);
    }
    if let Some(o) = l.op2 {
        lemma_op_tok(o, false, li);
        assert(take_token(s3, op_tok(o, false), li) == Ok::<ParseState, CodeError>(s4));
        lemma_take_all_cons(s3, op_tok(o, false), r3, li);
    } else {
        assert(r2 + r3 =~= r3);
        assert(s4 == s3);
    }
    if let Some(o) = l.op3 {
        lemma_op_tok(o, false, li);
        assert(take_token(s4, op_tok(o, false), li) == Ok::<ParseState, CodeError>(s5));
        lemma_take_all_cons(s4, op_tok(o, false), Seq::empty(), li);
        assert(r3 =~= seq![op_tok(o, false)] + Seq::<Seq<char>>::empty());
    } else {
        assert(r3 =~= Seq::<Seq<char>>::empty());
        assert(s5 == s4);
    }
    lemma_take_all_empty(s5, li);
}


/// The first pass after the first `k` lines of a printed program.
pub open spec fn printed_state(code: Seq<Line>, k: int) -> ParseState {
    ParseState {
        lines: Seq::new(k as nat, |j: int| interim_of(j as nat, code[j])),
        at: Seq::new(k as nat, |j: int| j as usize),
        cur: empty_line(),
    }
}

pub proof fn lemma_print_prefix(code: Seq<Line>, a: int, b: int)
    requires
        0 <= a <= b,
    ensures
        print_spec(code, a).len() <= print_spec(code, b).len(),
        print_spec(code, b).subrange(0, print_spec(code, a).len() as int) == print_spec(code, a),
    decreases b - a,
{
    if a < b {
        lemma_print_prefix(code, a, b - 1);
        let pb = print_spec(code, b - 1);
        assert(print_spec(code, b).subrange(0, pb.len() as int) =~= pb);
        assert(print_spec(code, b).subrange(0, print_spec(code, a).len() as int) =~= pb.subrange(
            0,
            print_spec(code, a).len() as int,
        ));
    } else {
        assert(print_spec(code, b).subrange(0, print_spec(code, a).len() as int) =~= print_spec(
            code,
            a,
        ));
    }
}

pub proof fn lemma_print_line_at(code: Seq<Line>, k: int)
    requires
        0 <= k < code.len(),
    ensures
        print_spec(code, k + 1).len() == print_spec(code, k).len() + line_text(k as nat, code[k]).len(),
        print_spec(code, k + 1).len() <= print_spec(code, code.len() as int).len(),
        print_spec(code, code.len() as int).subrange(
            print_spec(code, k).len() as int,
            print_spec(code, k).len() + line_text(k as nat, code[k]).len() as int,
        ) == line_text(k as nat, code[k]),
{
    let t = print_spec(code, code.len() as int);
    let o = print_spec(code, k).len() as int;
    let x = line_text(k as nat, code[k]);
    lemma_print_prefix(code, k + 1, code.len() as int);
    let p = print_spec(code, k + 1);
    assert(p == print_spec(code, k) + x);
    assert(t.subrange(o, o + x.len()) =~= x) by {
        assert forall|i: int| 0 <= i < x.len() implies #[trigger] t.subrange(o, o + x.len())[i]
            == x[i] by {
            assert(t.subrange(0, p.len() as int)[o + i] == t[o + i]);
            assert(p[o + i] == x[i]);
        }
    }
}

pub proof fn lemma_check_interim(i: nat, l: Line, li: usize)
    requires
        line_wf(l),
    ensures
        check_line_spec(interim_of(i, l), li) == Ok::<(), CodeError>(()),
{
}

/// Scanning a printed program from line `k` on collects every line.
#[verifier::rlimit(60)]
pub proof fn lemma_scan_printed(code: Seq<Line>, k: int)
    requires
        code_wf(code),
        code.len() <= usize::MAX,
        0 <= k <= code.len(),
    ensures
        scan_lines(
            print_spec(code, code.len() as int),
            print_spec(code, k).len() as int,
            k as usize,
            printed_state(code, k),
        ) == Ok::<ParseState, CodeError>(printed_state(code, code.len() as int)),
    decreases code.len() - k,
{
    let t = print_spec(code, code.len() as int);
    let p = print_spec(code, k).len() as int;
    let st = printed_state(code, k);
    lemma_print_prefix(code, k, code.len() as int);
    if k < code.len() {
        let l = code[k];
        assert(line_wf(l));
        let toks = line_toks(k as nat, l);
        lemma_print_line_at(code, k);
        lemma_line_text_join(k as nat, l);
        let j = join(toks);
        let e = p + j.len();
        assert forall|m: int| 0 <= m < toks.len() implies plain_tok(#[trigger] toks[m]) by {
            lemma_label_tok(k as nat, k as usize);
            lemma_mnem(l.instr);
            if let Some(o) = l.op1 {
                lemma_op_tok(o, is_branch(l.instr), k as usize);
            }
            if let Some(o) = l.op2 {
                lemma_op_tok(o, false, k as usize);
            }
            if let Some(o) = l.op3 {
                lemma_op_tok(o, false, k as usize);
            }
        }
        lemma_join_chars(toks);
        let x = line_text(k as nat, l);
        assert forall|m: int| p <= m < e implies #[trigger] t[m] != '\n' && t[m] != ';' by {
            assert(t.subrange(p, p + x.len())[m - p] == t[m]);
            assert(x[m - p] == j[m - p]);
        }
        assert(t[e] == '\n') by {
            assert(t.subrange(p, p + x.len())[j.len() as int] == t[e]);
        }
        lemma_find_before_at(t, '\n', p, e, t.len() as int);
        lemma_find_before_none(t, ';', p, e);
        assert(t.subrange(p, e) =~= j) by {
            assert forall|m: int| 0 <= m < j.len() implies #[trigger] t.subrange(p, e)[m] == j[m] by {
                assert(t.subrange(p, p + x.len())[m] == t[p + m]);
            }
        }
        lemma_scan_join(t, p, toks, k as usize, st);
        lemma_take_line(k as nat, l, st, k as usize);
        lemma_check_interim(k as nat, l, k as usize);
        let st1 = ParseState { cur: interim_of(k as nat, l), ..st };
        assert(crate::assembler::end_line(st1, k as usize) == Ok::<ParseState, CodeError>(
            printed_state(code, k + 1),
        )) by {
            assert(printed_state(code, k + 1).lines =~= st.lines.push(interim_of(k as nat, l)));
            assert(printed_state(code, k + 1).at =~= st.at.push(k as usize));
        }
        assert(e + 1 == print_spec(code, k + 1).len());
        lemma_scan_printed(code, k + 1);
    } else {
        assert(p == t.len());
    }
}

/// The first pass over a printed program.
pub proof fn lemma_parse_printed(code: Seq<Line>)
    requires
        code_wf(code),
        code.len() <= usize::MAX,
    ensures
        parse_source(print_spec(code, code.len() as int)) == Ok::<ParseState, CodeError>(
            printed_state(code, code.len() as int),
        ),
{
    lemma_scan_printed(code, 0);
    assert(printed_state(code, 0).lines =~= initial_state().lines);
    assert(printed_state(code, 0).at =~= initial_state().at);
    assert(print_spec(code, 0).len() == 0);
}


pub proof fn lemma_label_tok_injective(a: nat, b: nat)
    ensures
        label_tok(a) == label_tok(b) ==> a == b,
{
    if label_tok(a) == label_tok(b) {
        assert(label_tok(a).drop_first() =~= fmt_nat(a));
        assert(label_tok(b).drop_first() =~= fmt_nat(b));
        lemma_fmt_nat(a);
        lemma_fmt_nat(b);
    }
}

/// In a printed program, the label of line `t` names line `t`.
pub proof fn lemma_printed_label(code: Seq<Line>, k: int, t: int)
    requires
        0 <= t < k <= code.len(),
    ensures
        label_index(printed_state(code, k).lines, label_tok(t as nat)) == Some(t),
    decreases k,
{
    let lines = printed_state(code, k).lines;
    assert(lines.last() == interim_of((k - 1) as nat, code[k - 1]));
    if k - 1 != t {
        lemma_label_tok_injective((k - 1) as nat, t as nat);
        assert(lines.drop_last() =~= printed_state(code, k - 1).lines);
        lemma_printed_label(code, k - 1, t);
    }
}

/// Resolving the collected lines of a printed program from line `k` on.
#[verifier::rlimit(60)]
pub proof fn lemma_resolve_printed(code: Seq<Line>, k: int)
    requires
        code_wf(code),
        branch_refs_in_range(code),
        code.len() <= usize::MAX,
        0 <= k <= code.len(),
    ensures
        resolve_from(
            printed_state(code, code.len() as int).lines,
            printed_state(code, code.len() as int).at,
            k,
            code.take(k),
        ) == Ok::<Seq<Line>, CodeError>(code),
    decreases code.len() - k,
{
    let n = code.len() as int;
    let st = printed_state(code, n);
    if k < n {
        let l = code[k];
        assert(line_wf(l));
        assert(st.lines[k] == interim_of(k as nat, l));
        if is_branch(l.instr) {
            assert(crate::assembler::ref_below(l.op1, n));
            if let Some(Operand::Direct(t)) = l.op1 {
                let u = t as u16;
                lemma_printed_label(code, n, u as int);
                assert((((u as usize) as u16) as i16) == t) by (bit_vector)
                    requires
                        u == t as u16,
                ;
                assert(line_ref(((u as nat) as int) as usize) == t);
            }
        }
        assert(resolve_line(st.lines, st.lines[k], st.at[k]) == Ok::<Line, CodeError>(l));
        assert(code.take(k).push(l) =~= code.take(k + 1));
        lemma_resolve_printed(code, k + 1);
    } else {
        assert(code.take(k) =~= code);
    }
}

/// A well-formed program whose branch targets name its lines, printed and
/// assembled again, is the same program.
pub proof fn lemma_print_assemble(code: Seq<Line>)
    requires
        code_wf(code),
        branch_refs_in_range(code),
        code.len() <= usize::MAX,
    ensures
        assemble(print_spec(code, code.len() as int)) == Ok::<Seq<Line>, CodeError>(code),
{
    lemma_parse_printed(code);
    lemma_resolve_printed(code, 0);
    assert(code.take(0) =~= Seq::<Line>::empty());
}

/// Assembling the printed form of an assembled program gives what the first
/// assembly gave (for any program that fits in memory, whose length is a `usize`).
pub proof fn lemma_assemble_print_idempotent(source: Seq<char>)
    ensures
        assemble(source) matches Ok(p) ==> (p.len() <= usize::MAX ==> assemble(
            print_spec(p, p.len() as int),
        ) == assemble(source)),
{
    lemma_assemble_wf(source);
    if let Ok(p) = assemble(source) {
        if p.len() <= usize::MAX {
            lemma_print_assemble(p);
        }
    }
}

} // verus!
