//! Parses code into a list of `Instruction`s and `Operand`s for a `Program` to execute.
//!
//! Assembly runs in two passes. The first splits the source into lines and
//! space-separated tokens, collecting labels, a mnemonic and up to three
//! operands per emitted line, and checks each line against the operand rules
//! of its mnemonic. The second replaces every label reference by the index of
//! the line the label is bound to.
use vstd::prelude::*;
use crate::text::{
    chars_of, find_before, find_char, lemma_find_before, lemma_parse_unsigned_nonneg,
    parse_unsigned_range, parse_unsigned_upto, string_of_range,
};

verus! {

/// Amount of IO registers a `Program` has.
pub const IO_REGISTER_COUNT: usize = 4;

/// Tells the program what to do with the `Operand`s.
#[derive(Copy, Clone, Debug, PartialEq, Eq, Structural)]
pub enum Instruction {
    ADD,
    SUB,
    MUL,
    DIV,
    CMP,
    BRC,
    BEQ,
    BGT,
    BLT,
    NOP,
    HLT,
}

/// Names an `i16` register of a `Program`.
#[derive(Copy, Clone, Debug, PartialEq, Eq, Structural)]
pub enum Register {
    PC,
    R1,
    R2,
    RT,
    RIO(usize),
}

/// An operand as the first pass reads it: a label reference is still a name.
#[derive(Debug)]
pub enum InterimOp {
    Reg(Register),
    Direct(i16),
    Lable(String),
}

/// Indicates what caused the assembler to fail, with the 0-based index of the
/// offending source line.
#[derive(Copy, Clone, Debug, PartialEq, Eq, Structural)]
pub enum CodeError {
    TooManyOps(usize),
    UnknownOp(usize),
    UnknownInst(usize),
    MissingLable(usize),
    MisformedLable(usize),
    UnknownNumber(usize),
    TooManySpaces(usize),
    JumpNeedsLable(usize),
    InstAfterLable(usize),
    TooFewOps(usize),
    InvalidOp(usize),
    OutOfRangeIO(usize),
}

/// A line as the first pass collects it.
#[derive(Debug)]
pub struct InterimLine {
    pub lable: Option<String>,
    pub instr: Option<Instruction>,
    pub op1: Option<InterimOp>,
    pub op2: Option<InterimOp>,
    pub op3: Option<InterimOp>,
}

/// Either a `Register` or an `i16` value.
#[derive(Copy, Clone, Debug, PartialEq, Eq, Structural)]
pub enum Operand {
    Reg(Register),
    Direct(i16),
}

/// An `Instruction` with 0 to 3 `Operand`s.
#[derive(Copy, Clone, Debug, PartialEq, Eq, Structural)]
pub struct Line {
    pub instr: Instruction,
    pub op1: Option<Operand>,
    pub op2: Option<Operand>,
    pub op3: Option<Operand>,
}

/// The mathematical value of an `InterimOp`.
pub enum OpView {
    Reg(Register),
    Direct(i16),
    Lable(Seq<char>),
}

/// The mathematical value of an `InterimLine`.
pub struct InterimLineView {
    pub lable: Option<Seq<char>>,
    pub instr: Option<Instruction>,
    pub op1: Option<OpView>,
    pub op2: Option<OpView>,
    pub op3: Option<OpView>,
}

impl View for InterimOp {
    type V = OpView;

    open spec fn view(&self) -> OpView {
        match self {
            InterimOp::Reg(r) => OpView::Reg(*r),
            InterimOp::Direct(n) => OpView::Direct(*n),
            InterimOp::Lable(s) => OpView::Lable(s@),
        }
    }
}

pub open spec fn op_view(o: Option<InterimOp>) -> Option<OpView> {
    match o {
        Some(op) => Some(op@),
        None => None,
    }
}

impl View for InterimLine {
    type V = InterimLineView;

    open spec fn view(&self) -> InterimLineView {
        InterimLineView {
            lable: match self.lable {
                Some(s) => Some(s@),
                None => None,
            },
            instr: self.instr,
            op1: op_view(self.op1),
            op2: op_view(self.op2),
            op3: op_view(self.op3),
        }
    }
}

/// A line with nothing collected yet.
pub open spec fn empty_line() -> InterimLineView {
    InterimLineView { lable: None, instr: None, op1: None, op2: None, op3: None }
}

impl InterimLine {
    pub fn new() -> (r: Self)
        ensures
            r@ == empty_line(),
    {
        InterimLine { lable: None, instr: None, op1: None, op2: None, op3: None }
    }
}

// ---------------------------------------------------------------------------
// Tokens

/// `c` upper-cases to `p`, an ASCII letter or digit: `c` is `p`, its
/// lower-case form, or one of the two other characters whose upper-case form
/// is a single ASCII letter, dotless `ı` (for `I`) and long `ſ` (for `S`).
pub open spec fn ci_eq(c: char, p: char) -> bool {
    ||| c == p
    ||| (65 <= p as u32 <= 90 && c as u32 == p as u32 + 32)
    ||| (p == 'I' && c == '\u{131}')
    ||| (p == 'S' && c == '\u{17f}')
}

/// `w` spells `pat` with ASCII letters in either case.
pub open spec fn word_is(w: Seq<char>, pat: Seq<char>) -> bool {
    w.len() == pat.len() && forall|i: int| 0 <= i < w.len() ==> ci_eq(#[trigger] w[i], pat[i])
}

/// The instruction a mnemonic names; mnemonics are case-insensitive.
pub open spec fn mnemonic(w: Seq<char>) -> Option<Instruction> {
    if word_is(w, seq!['A', 'D', 'D']) {
        Some(Instruction::ADD)
    } else if word_is(w, seq!['S', 'U', 'B']) {
        Some(Instruction::SUB)
    } else if word_is(w, seq!['M', 'U', 'L']) {
        Some(Instruction::MUL)
    } else if word_is(w, seq!['D', 'I', 'V']) {
        Some(Instruction::DIV)
    } else if word_is(w, seq!['C', 'M', 'P']) {
        Some(Instruction::CMP)
    } else if word_is(w, seq!['B', 'R', 'C']) {
        Some(Instruction::BRC)
    } else if word_is(w, seq!['B', 'E', 'Q']) {
        Some(Instruction::BEQ)
    } else if word_is(w, seq!['B', 'G', 'T']) {
        Some(Instruction::BGT)
    } else if word_is(w, seq!['B', 'L', 'T']) {
        Some(Instruction::BLT)
    } else if word_is(w, seq!['N', 'O', 'P']) {
        Some(Instruction::NOP)
    } else if word_is(w, seq!['H', 'L', 'T']) {
        Some(Instruction::HLT)
    } else {
        None
    }
}

/// How an operand token reads: a register name (case-insensitive), `IO<n>`
/// with `n < IO_REGISTER_COUNT`, `#<n>` with `n` a `u16` taken as `i16`, or
/// else a label reference. Words are compared as upper-cased by
/// `str::to_uppercase`, and the number after `IO` starts at the third byte.
pub open spec fn operand_of(w: Seq<char>, li: usize) -> Result<OpView, CodeError> {
    if word_is(w, seq!['P', 'C']) {
        Ok(OpView::Reg(Register::PC))
    } else if word_is(w, seq!['R', '1']) {
        Ok(OpView::Reg(Register::R1))
    } else if word_is(w, seq!['R', '2']) {
        Ok(OpView::Reg(Register::R2))
    } else if word_is(w, seq!['R', 'T']) {
        Ok(OpView::Reg(Register::RT))
    } else if w.len() >= 2 && ci_eq(w[0], 'I') && ci_eq(w[1], 'O') {
        if w[0] == '\u{131}' {
            // the number is read from the third byte of the word, which after
            // the two bytes of `ı` is the `o`: never a number
            Err(CodeError::UnknownNumber(li))
        } else {
            match parse_unsigned_upto(w.subrange(2, w.len() as int), 65535) {
                Some(n) => if n >= IO_REGISTER_COUNT {
                    Err(CodeError::OutOfRangeIO(li))
                } else {
                    Ok(OpView::Reg(Register::RIO(n as usize)))
                },
                None => Err(CodeError::UnknownNumber(li)),
            }
        }
    } else if w.len() >= 1 && w[0] == '#' {
        match parse_unsigned_upto(w.subrange(1, w.len() as int), 65535) {
            Some(n) => Ok(OpView::Direct((n as u16) as i16)),
            None => Err(CodeError::UnknownNumber(li)),
        }
    } else {
        Ok(OpView::Lable(w))
    }
}

fn ci_at(v: &Vec<char>, i: usize, p: char) -> (r: bool)
    requires
        i < v@.len(),
    ensures
        r == ci_eq(v@[i as int], p),
{
    let c = v[i];
    c == p || ((p as u32) >= 65 && (p as u32) <= 90 && (c as u32) == (p as u32) + 32) || (p == 'I'
        && c == '\u{131}') || (p == 'S' && c == '\u{17f}')
}

fn word_is2(v: &Vec<char>, a: usize, b: usize, x: char, y: char) -> (r: bool)
    requires
        a <= b <= v@.len(),
    ensures
        r == word_is(v@.subrange(a as int, b as int), seq![x, y]),
{
    let ghost w = v@.subrange(a as int, b as int);
    if b - a != 2 {
        return false;
    }
    let r = ci_at(v, a, x) && ci_at(v, a + 1, y);
    if r {
        assert forall|i: int| 0 <= i < w.len() implies ci_eq(#[trigger] w[i], seq![x, y][i]) by {
            assert(i == 0 || i == 1);
        }
    } else {
        assert(!ci_eq(w[0], seq![x, y][0]) || !ci_eq(w[1], seq![x, y][1]));
    }
    r
}

fn word_is3(v: &Vec<char>, a: usize, b: usize, x: char, y: char, z: char) -> (r: bool)
    requires
        a <= b <= v@.len(),
    ensures
        r == word_is(v@.subrange(a as int, b as int), seq![x, y, z]),
{
    let ghost w = v@.subrange(a as int, b as int);
    if b - a != 3 {
        return false;
    }
    let r = ci_at(v, a, x) && ci_at(v, a + 1, y) && ci_at(v, a + 2, z);
    if r {
        assert forall|i: int| 0 <= i < w.len() implies ci_eq(#[trigger] w[i], seq![x, y, z][i]) by {
            assert(i == 0 || i == 1 || i == 2);
        }
    } else {
        assert(!ci_eq(w[0], seq![x, y, z][0]) || !ci_eq(w[1], seq![x, y, z][1]) || !ci_eq(
            w[2],
            seq![x, y, z][2],
        ));
    }
    r
}

/// The instruction that the token `v[a..b]` names, if any.
fn get_instruction(v: &Vec<char>, a: usize, b: usize) -> (r: Option<Instruction>)
    requires
        a <= b <= v@.len(),
    ensures
        r == mnemonic(v@.subrange(a as int, b as int)),
{
    if word_is3(v, a, b, 'A', 'D', 'D') {
        Some(Instruction::ADD)
    } else if word_is3(v, a, b, 'S', 'U', 'B') {
        Some(Instruction::SUB)
    } else if word_is3(v, a, b, 'M', 'U', 'L') {
        Some(Instruction::MUL)
    } else if word_is3(v, a, b, 'D', 'I', 'V') {
        Some(Instruction::DIV)
    } else if word_is3(v, a, b, 'C', 'M', 'P') {
        Some(Instruction::CMP)
    } else if word_is3(v, a, b, 'B', 'R', 'C') {
        Some(Instruction::BRC)
    } else if word_is3(v, a, b, 'B', 'E', 'Q') {
        Some(Instruction::BEQ)
    } else if word_is3(v, a, b, 'B', 'G', 'T') {
        Some(Instruction::BGT)
    } else if word_is3(v, a, b, 'B', 'L', 'T') {
        Some(Instruction::BLT)
    } else if word_is3(v, a, b, 'N', 'O', 'P') {
        Some(Instruction::NOP)
    } else if word_is3(v, a, b, 'H', 'L', 'T') {
        Some(Instruction::HLT)
    } else {
        None
    }
}

/// Reads the operand token `v[a..b]` found on source line `line_index`.
fn get_operand(v: &Vec<char>, a: usize, b: usize, line_index: usize) -> (r: Result<
    InterimOp,
    CodeError,
>)
    requires
        a <= b <= v@.len(),
    ensures
        match operand_of(v@.subrange(a as int, b as int), line_index) {
            Ok(op) => r is Ok && r->Ok_0@ == op,
            Err(e) => r == Err::<InterimOp, CodeError>(e),
        },
{
    let ghost w = v@.subrange(a as int, b as int);
    if word_is2(v, a, b, 'P', 'C') {
        Ok(InterimOp::Reg(Register::PC))
    } else if word_is2(v, a, b, 'R', '1') {
        Ok(InterimOp::Reg(Register::R1))
    } else if word_is2(v, a, b, 'R', '2') {
        Ok(InterimOp::Reg(Register::R2))
    } else if word_is2(v, a, b, 'R', 'T') {
        Ok(InterimOp::Reg(Register::RT))
    } else if b - a >= 2 && ci_at(v, a, 'I') && ci_at(v, a + 1, 'O') {
        if v[a] == '\u{131}' {
            return Err(CodeError::UnknownNumber(line_index));
        }
        assert(v@.subrange(a + 2, b as int) == w.subrange(2, w.len() as int));
        match parse_unsigned_range(v, a + 2, b, 65535) {
            Some(n) => if n as usize >= IO_REGISTER_COUNT {
                Err(CodeError::OutOfRangeIO(line_index))
            } else {
                Ok(InterimOp::Reg(Register::RIO(n as usize)))
            },
            None => Err(CodeError::UnknownNumber(line_index)),
        }
    } else if b - a >= 1 && v[a] == '#' {
        assert(v@.subrange(a + 1, b as int) == w.subrange(1, w.len() as int));
        match parse_unsigned_range(v, a + 1, b, 65535) {
            Some(n) => Ok(InterimOp::Direct((n as u16) as i16)),
            None => Err(CodeError::UnknownNumber(line_index)),
        }
    } else {
        Ok(InterimOp::Lable(string_of_range(v, a, b)))
    }
}

// ---------------------------------------------------------------------------
// Operand rules per mnemonic

/// The operand rules of the mnemonic of an emitted line.
pub open spec fn check_line_spec(l: InterimLineView, li: usize) -> Result<(), CodeError> {
    match l.instr {
        None => if l.op1 is Some || l.op2 is Some || l.op3 is Some {
            Err(CodeError::InstAfterLable(li))
        } else {
            Ok(())
        },
        Some(instr) => match instr {
            Instruction::HLT | Instruction::NOP => if l.op1 is Some || l.op2 is Some
                || l.op3 is Some {
                Err(CodeError::TooManyOps(li))
            } else {
                Ok(())
            },
            Instruction::BRC | Instruction::BEQ | Instruction::BGT | Instruction::BLT => {
                match l.op1 {
                    Some(OpView::Lable(_)) => if l.op2 is Some || l.op3 is Some {
                        Err(CodeError::TooManyOps(li))
                    } else {
                        Ok(())
                    },
                    _ => Err(CodeError::MissingLable(li)),
                }
            },
            Instruction::CMP => if l.op1 is None || l.op2 is None {
                Err(CodeError::TooFewOps(li))
            } else if l.op3 is Some {
                Err(CodeError::TooManyOps(li))
            } else {
                Ok(())
            },
            _ => if l.op1 is None || l.op2 is None {
                Err(CodeError::TooFewOps(li))
            } else {
                match l.op3 {
                    Some(OpView::Reg(_)) => Ok(()),
                    Some(_) => Err(CodeError::InvalidOp(li)),
                    None => Err(CodeError::TooFewOps(li)),
                }
            },
        },
    }
}

/// Checks a collected line against the operand rules of its mnemonic.
pub fn check_line(line: &InterimLine, line_index: usize) -> (r: Result<(), CodeError>)
    ensures
        r == check_line_spec(line@, line_index),
{
    match line.instr {
        None => if line.op1.is_some() || line.op2.is_some() || line.op3.is_some() {
            Err(CodeError::InstAfterLable(line_index))
        } else {
            Ok(())
        },
        Some(instr) => match instr {
            Instruction::HLT | Instruction::NOP => {
                if line.op1.is_some() || line.op2.is_some() || line.op3.is_some() {
                    Err(CodeError::TooManyOps(line_index))
                } else {
                    Ok(())
                }
            },
            Instruction::BRC | Instruction::BEQ | Instruction::BGT | Instruction::BLT => {
                match &line.op1 {
                    Some(InterimOp::Lable(_)) => if line.op2.is_some() || line.op3.is_some() {
                        Err(CodeError::TooManyOps(line_index))
                    } else {
                        Ok(())
                    },
                    _ => Err(CodeError::MissingLable(line_index)),
                }
            },
            Instruction::CMP => {
                if line.op1.is_none() || line.op2.is_none() {
                    Err(CodeError::TooFewOps(line_index))
                } else if line.op3.is_some() {
                    Err(CodeError::TooManyOps(line_index))
                } else {
                    Ok(())
                }
            },
            _ => {
                if line.op1.is_none() || line.op2.is_none() {
                    Err(CodeError::TooFewOps(line_index))
                } else {
                    match &line.op3 {
                        Some(InterimOp::Reg(_)) => Ok(()),
                        Some(_) => Err(CodeError::InvalidOp(line_index)),
                        None => Err(CodeError::TooFewOps(line_index)),
                    }
                }
            },
        },
    }
}


// ---------------------------------------------------------------------------
// First pass: lines and tokens

/// What the first pass has collected so far: the emitted lines, the source
/// line each was emitted on, and the line being collected.
pub struct ParseState {
    pub lines: Seq<InterimLineView>,
    pub at: Seq<usize>,
    pub cur: InterimLineView,
}

pub open spec fn initial_state() -> ParseState {
    ParseState { lines: Seq::empty(), at: Seq::empty(), cur: empty_line() }
}

/// Emits `l`, found on source line `li`, and starts a new line.
pub open spec fn push_line(st: ParseState, l: InterimLineView, li: usize) -> ParseState {
    ParseState { lines: st.lines.push(l), at: st.at.push(li), cur: empty_line() }
}

/// Adds the token `w` of source line `li`. Before the mnemonic a token is the
/// mnemonic or a label declaration `name:`; a second label before any
/// mnemonic emits the line of the first as a `NOP`. After the mnemonic a token
/// is the next operand.
pub open spec fn take_token(st: ParseState, w: Seq<char>, li: usize) -> Result<ParseState, CodeError> {
    let cur = st.cur;
    if cur.instr is None {
        match mnemonic(w) {
            Some(i) => Ok(ParseState { cur: InterimLineView { instr: Some(i), ..cur }, ..st }),
            None => if w.len() > 0 && w.last() == ':' {
                let st2 = if cur.lable is Some {
                    push_line(st, InterimLineView { instr: Some(Instruction::NOP), ..cur }, li)
                } else {
                    st
                };
                Ok(
                    ParseState {
                        cur: InterimLineView { lable: Some(w.drop_last()), ..st2.cur },
                        ..st2
                    },
                )
            } else {
                Err(CodeError::UnknownInst(li))
            },
        }
    } else if cur.op1 is None {
        match operand_of(w, li) {
            Ok(op) => Ok(ParseState { cur: InterimLineView { op1: Some(op), ..cur }, ..st }),
            Err(e) => Err(e),
        }
    } else if cur.op2 is None {
        match operand_of(w, li) {
            Ok(op) => Ok(ParseState { cur: InterimLineView { op2: Some(op), ..cur }, ..st }),
            Err(e) => Err(e),
        }
    } else if cur.op3 is None {
        match operand_of(w, li) {
            Ok(op) => Ok(ParseState { cur: InterimLineView { op3: Some(op), ..cur }, ..st }),
            Err(e) => Err(e),
        }
    } else {
        Err(CodeError::TooManyOps(li))
    }
}

/// At the end of source line `li`: a line with a mnemonic is checked and
/// emitted; a line with only a label waits for the next mnemonic.
pub open spec fn end_line(st: ParseState, li: usize) -> Result<ParseState, CodeError> {
    if st.cur.instr is Some {
        match check_line_spec(st.cur, li) {
            Ok(_) => Ok(push_line(st, st.cur, li)),
            Err(e) => Err(e),
        }
    } else {
        Ok(st)
    }
}

/// At the end of the source: a label still waiting is bound to a `NOP`.
pub open spec fn finish(st: ParseState, li: usize) -> ParseState {
    if st.cur.lable is Some {
        push_line(st, InterimLineView { instr: Some(Instruction::NOP), ..st.cur }, li)
    } else {
        st
    }
}

/// Adds the space-separated tokens of `s[p..end]`, all on source line `li`.
pub open spec fn scan_tokens(s: Seq<char>, p: int, end: int, li: usize, st: ParseState) -> Result<
    ParseState,
    CodeError,
>
    decreases end - p,
{
    if p >= end {
        Ok(st)
    } else if s[p] == ' ' {
        scan_tokens(s, p + 1, end, li, st)
    } else {
        let e = find_before(s, ' ', p, end);
        proof {
            lemma_find_before(s, ' ', p, end);
        }
        match take_token(st, s.subrange(p, e), li) {
            Ok(st2) => scan_tokens(s, e, end, li, st2),
            Err(x) => Err(x),
        }
    }
}

/// Reads the source from position `p`, the start of source line `li`, to its
/// end. A line ends at `\n`; a `;` starts a comment that runs to the end of the line.
pub open spec fn scan_lines(s: Seq<char>, p: int, li: usize, st: ParseState) -> Result<
    ParseState,
    CodeError,
>
    decreases s.len() - p,
{
    let e = find_before(s, '\n', p, s.len() as int);
    let c = find_before(s, ';', p, e);
    match scan_tokens(s, p, c, li, st) {
        Ok(st1) => match end_line(st1, li) {
            Ok(st2) => if e < s.len() {
                proof {
                    lemma_find_before(s, '\n', p, s.len() as int);
                }
                scan_lines(s, e + 1, (li + 1) as usize, st2)
            } else {
                Ok(finish(st2, li))
            },
            Err(x) => Err(x),
        },
        Err(x) => Err(x),
    }
}

/// The first pass over a whole source text.
pub open spec fn parse_source(s: Seq<char>) -> Result<ParseState, CodeError> {
    scan_lines(s, 0, 0, initial_state())
}

/// The first pass while it runs.
struct Parser {
    lines: Vec<InterimLine>,
    at: Vec<usize>,
    cur: InterimLine,
}

impl View for Parser {
    type V = ParseState;

    closed spec fn view(&self) -> ParseState {
        ParseState {
            lines: self.lines@.map_values(|l: InterimLine| l@),
            at: self.at@,
            cur: self.cur@,
        }
    }
}

impl Parser {
    fn new() -> (r: Parser)
        ensures
            r@ == initial_state(),
    {
        let r = Parser { lines: Vec::new(), at: Vec::new(), cur: InterimLine::new() };
        assert(r@.lines == Seq::<InterimLineView>::empty());
        r
    }

    /// Emits the current line, found on source line `li`.
    fn push_current(&mut self, li: usize)
        ensures
            final(self)@ == push_line(old(self)@, old(self)@.cur, li),
    {
        let mut l = InterimLine::new();
        std::mem::swap(&mut l, &mut self.cur);
        self.lines.push(l);
        self.at.push(li);
        assert(self@.lines == old(self)@.lines.push(old(self)@.cur));
    }

    #[verifier::rlimit(40)]
    fn take_token(&mut self, v: &Vec<char>, a: usize, b: usize, li: usize) -> (r: Result<
        (),
        CodeError,
    >)
        requires
            a <= b <= v@.len(),
        ensures
            match take_token(old(self)@, v@.subrange(a as int, b as int), li) {
                Ok(st) => r is Ok && final(self)@ == st,
                Err(e) => r == Err::<(), CodeError>(e),
            },
    {
        let ghost w = v@.subrange(a as int, b as int);
        if self.cur.instr.is_none() {
            match get_instruction(v, a, b) {
                Some(i) => {
                    self.cur.instr = Some(i);
                    Ok(())
                },
                None => {
                    if b > a && v[b - 1] == ':' {
                        if self.cur.lable.is_some() {
                            self.cur.instr = Some(Instruction::NOP);
                            self.push_current(li);
                        }
                        assert(v@.subrange(a as int, b - 1) == w.drop_last());
                        self.cur.lable = Some(string_of_range(v, a, b - 1));
                        Ok(())
                    } else {
                        Err(CodeError::UnknownInst(li))
                    }
                },
            }
        } else if self.cur.op1.is_none() {
            let op = get_operand(v, a, b, li)?;
            self.cur.op1 = Some(op);
            Ok(())
        } else if self.cur.op2.is_none() {
            let op = get_operand(v, a, b, li)?;
            self.cur.op2 = Some(op);
            Ok(())
        } else if self.cur.op3.is_none() {
            let op = get_operand(v, a, b, li)?;
            self.cur.op3 = Some(op);
            Ok(())
        } else {
            Err(CodeError::TooManyOps(li))
        }
    }

    fn end_line(&mut self, li: usize) -> (r: Result<(), CodeError>)
        ensures
            match end_line(old(self)@, li) {
                Ok(st) => r is Ok && final(self)@ == st,
                Err(e) => r == Err::<(), CodeError>(e),
            },
    {
        if self.cur.instr.is_some() {
            check_line(&self.cur, li)?;
            self.push_current(li);
        }
        Ok(())
    }

    fn finish(&mut self, li: usize)
        ensures
            final(self)@ == finish(old(self)@, li),
    {
        if self.cur.lable.is_some() {
            self.cur.instr = Some(Instruction::NOP);
            self.push_current(li);
        }
    }
}

/// The first pass, keeping for each emitted line the source line it ended on.
#[verifier::rlimit(40)]
fn get_lines_at(program_code: &str) -> (r: Result<(Vec<InterimLine>, Vec<usize>), CodeError>)
    ensures
        match parse_source(program_code@) {
            Ok(st) => r matches Ok((lines, at)) && lines@.map_values(|l: InterimLine| l@)
                == st.lines && at@ == st.at,
            Err(e) => r == Err::<(Vec<InterimLine>, Vec<usize>), CodeError>(e),
        },
{
    let v = chars_of(program_code);
    let n = v.len();
    let ghost goal = parse_source(v@);
    let mut parser = Parser::new();
    let mut p: usize = 0;
    let mut li: usize = 0;
    loop
        invariant
            n == v@.len(),
            li <= p <= n,
            goal == parse_source(program_code@),
            goal == scan_lines(v@, p as int, li, parser@),
        decreases n - p,
    {
        let e = find_char(&v, '\n', p, n);
        proof {
            lemma_find_before(v@, '\n', p as int, n as int);
        }
        let c = find_char(&v, ';', p, e);
        proof {
            lemma_find_before(v@, ';', p as int, e as int);
        }
        let ghost st0 = parser@;
        let mut q = p;
        while q < c
            invariant
                n == v@.len(),
                p <= q <= c <= e <= n,
                e == find_before(v@, '\n', p as int, n as int),
                c == find_before(v@, ';', p as int, e as int),
                goal == parse_source(program_code@),
                goal == scan_lines(v@, p as int, li, st0),
                scan_tokens(v@, p as int, c as int, li, st0) == scan_tokens(
                    v@,
                    q as int,
                    c as int,
                    li,
                    parser@,
                ),
            decreases c - q,
        {
            if v[q] == ' ' {
                q = q + 1;
            } else {
                let t = find_char(&v, ' ', q, c);
                proof {
                    lemma_find_before(v@, ' ', q as int, c as int);
                }
                match parser.take_token(&v, q, t, li) {
                    Ok(()) => {},
                    Err(x) => {
                        return Err(x);
                    },
                }
                q = t;
            }
        }
        match parser.end_line(li) {
            Ok(()) => {},
            Err(x) => {
                return Err(x);
            },
        }
        if e < n {
            p = e + 1;
            li = li + 1;
        } else {
            parser.finish(li);
            return Ok((parser.lines, parser.at));
        }
    }
}

/// Splits code into lines, each with its label, mnemonic and operands, and
/// checks each against the operand rules of its mnemonic.
pub fn get_lines(program_code: &str) -> (r: Result<Vec<InterimLine>, CodeError>)
    ensures
        match parse_source(program_code@) {
            Ok(st) => r matches Ok(lines) && lines@.map_values(|l: InterimLine| l@) == st.lines,
            Err(e) => r == Err::<Vec<InterimLine>, CodeError>(e),
        },
{
    let (lines, _) = get_lines_at(program_code)?;
    Ok(lines)
}


// ---------------------------------------------------------------------------
// Second pass: labels

/// The index of the last line that carries label `name`.
pub open spec fn label_index(lines: Seq<InterimLineView>, name: Seq<char>) -> Option<int>
    decreases lines.len(),
{
    if lines.len() == 0 {
        None
    } else if lines.last().lable == Some(name) {
        Some(lines.len() - 1)
    } else {
        label_index(lines.drop_last(), name)
    }
}

/// The `Direct` operand that refers to line `i`.
pub open spec fn line_ref(i: usize) -> i16 {
    (i as u16) as i16
}

/// An operand with its label reference replaced by the index of its line.
pub open spec fn resolve_op(lines: Seq<InterimLineView>, op: Option<OpView>, li: usize) -> Result<
    Option<Operand>,
    CodeError,
> {
    match op {
        None => Ok(None),
        Some(OpView::Reg(r)) => Ok(Some(Operand::Reg(r))),
        Some(OpView::Direct(n)) => Ok(Some(Operand::Direct(n))),
        Some(OpView::Lable(name)) => match label_index(lines, name) {
            Some(i) => Ok(Some(Operand::Direct(line_ref(i as usize)))),
            None => Err(CodeError::MissingLable(li)),
        },
    }
}

/// A line with its operands resolved; an error names source line `li`.
pub open spec fn resolve_line(lines: Seq<InterimLineView>, l: InterimLineView, li: usize) -> Result<
    Line,
    CodeError,
> {
    match resolve_op(lines, l.op1, li) {
        Err(e) => Err(e),
        Ok(op1) => match resolve_op(lines, l.op2, li) {
            Err(e) => Err(e),
            Ok(op2) => match resolve_op(lines, l.op3, li) {
                Err(e) => Err(e),
                Ok(op3) => Ok(Line { instr: l.instr->Some_0, op1, op2, op3 }),
            },
        },
    }
}

/// Resolves `lines[k..]` after the lines already resolved in `done`, stopping
/// at the first error.
pub open spec fn resolve_from(
    lines: Seq<InterimLineView>,
    at: Seq<usize>,
    k: int,
    done: Seq<Line>,
) -> Result<Seq<Line>, CodeError>
    decreases lines.len() - k,
{
    if k >= lines.len() || k < 0 {
        Ok(done)
    } else {
        match resolve_line(lines, lines[k], at[k]) {
            Err(e) => Err(e),
            Ok(l) => resolve_from(lines, at, k + 1, done.push(l)),
        }
    }
}

/// The whole assembler: the compiled program of source `s`, or the first error.
pub open spec fn assemble(s: Seq<char>) -> Result<Seq<Line>, CodeError> {
    match parse_source(s) {
        Err(e) => Err(e),
        Ok(st) => resolve_from(st.lines, st.at, 0, Seq::empty()),
    }
}

pub open spec fn lines_view(lines: Seq<InterimLine>) -> Seq<InterimLineView> {
    lines.map_values(|l: InterimLine| l@)
}

fn find_label(lines: &Vec<InterimLine>, name: &String) -> (r: Option<usize>)
    ensures
        match label_index(lines_view(lines@), name@) {
            Some(i) => r == Some(i as usize),
            None => r is None,
        },
{
    let ghost all = lines_view(lines@);
    let mut i = lines.len();
    assert(all.take(i as int) == all);
    while i > 0
        invariant
            i <= lines@.len(),
            all == lines_view(lines@),
            label_index(all, name@) == label_index(all.take(i as int), name@),
        decreases i,
    {
        assert(all.take(i as int).drop_last() == all.take(i - 1));
        i = i - 1;
        match &lines[i].lable {
            Some(l) => {
                if l.eq(name) {
                    return Some(i);
                }
            },
            None => {},
        }
    }
    None
}

/// Replaces a label reference by the index of the line it names.
fn to_final_op(op: &Option<InterimOp>, lines: &Vec<InterimLine>, line_index: usize) -> (r: Result<
    Option<Operand>,
    CodeError,
>)
    ensures
        r == resolve_op(lines_view(lines@), op_view(*op), line_index),
{
    match op {
        None => Ok(None),
        Some(InterimOp::Reg(reg)) => Ok(Some(Operand::Reg(*reg))),
        Some(InterimOp::Direct(num)) => Ok(Some(Operand::Direct(*num))),
        Some(InterimOp::Lable(lable)) => match find_label(lines, lable) {
            Some(i) => Ok(Some(Operand::Direct((i as u16) as i16))),
            None => Err(CodeError::MissingLable(line_index)),
        },
    }
}

/// The second pass: an error in `lines[i]` names source line `at[i]`.
fn resolve_lines(lines: &Vec<InterimLine>, at: &Vec<usize>) -> (r: Result<Vec<Line>, CodeError>)
    requires
        at@.len() == lines@.len(),
        forall|i: int| 0 <= i < lines@.len() ==> (#[trigger] lines@[i]).instr is Some,
    ensures
        match resolve_from(lines_view(lines@), at@, 0, Seq::empty()) {
            Ok(code) => r matches Ok(v) && v@ == code,
            Err(e) => r == Err::<Vec<Line>, CodeError>(e),
        },
{
    let ghost all = lines_view(lines@);
    let ghost goal = resolve_from(all, at@, 0, Seq::empty());
    let mut out: Vec<Line> = Vec::new();
    let mut i: usize = 0;
    while i < lines.len()
        invariant
            i <= lines@.len() == at@.len(),
            all == lines_view(lines@),
            forall|i: int| 0 <= i < lines@.len() ==> (#[trigger] lines@[i]).instr is Some,
            goal == resolve_from(all, at@, 0, Seq::empty()),
            goal == resolve_from(all, at@, i as int, out@),
        decreases lines@.len() - i,
    {
        let l = &lines[i];
        let li = at[i];
        let op1 = match to_final_op(&l.op1, lines, li) {
            Ok(o) => o,
            Err(e) => {
                return Err(e);
            },
        };
        let op2 = match to_final_op(&l.op2, lines, li) {
            Ok(o) => o,
            Err(e) => {
                return Err(e);
            },
        };
        let op3 = match to_final_op(&l.op3, lines, li) {
            Ok(o) => o,
            Err(e) => {
                return Err(e);
            },
        };
        let instr = match l.instr {
            Some(instr) => instr,
            None => Instruction::NOP,
        };
        out.push(Line { instr, op1, op2, op3 });
        i = i + 1;
    }
    Ok(out)
}

/// Replaces label references by line indices. The error for an unknown label
/// carries the position of the offending line in `lines`.
pub fn to_final_lines(lines: Vec<InterimLine>) -> (r: Result<Vec<Line>, CodeError>)
    requires
        forall|i: int| 0 <= i < lines@.len() ==> (#[trigger] lines@[i]).instr is Some,
    ensures
        match resolve_from(lines_view(lines@), Seq::new(lines@.len(), |i: int| i as usize), 0, Seq::empty()) {
            Ok(code) => r matches Ok(v) && v@ == code,
            Err(e) => r == Err::<Vec<Line>, CodeError>(e),
        },
{
    let mut at: Vec<usize> = Vec::new();
    let mut i: usize = 0;
    while i < lines.len()
        invariant
            i <= lines@.len(),
            at@ == Seq::new(i as nat, |k: int| k as usize),
        decreases lines@.len() - i,
    {
        at.push(i);
        i = i + 1;
    }
    resolve_lines(&lines, &at)
}

/// Converts code to a list of `Line`s, each `Instruction` with an appropriate
/// number of `Operand`s and with labels replaced by line indices.
pub fn get_program_instructions(text_input: &str) -> (r: Result<Vec<Line>, CodeError>)
    ensures
        match assemble(text_input@) {
            Ok(code) => r matches Ok(v) && v@ == code,
            Err(e) => r == Err::<Vec<Line>, CodeError>(e),
        },
        r matches Ok(v) ==> code_wf(v@),
        r matches Ok(v) ==> (v@.len() <= 32768 ==> branch_targets_in_range(v@)),
        r matches Ok(v) ==> branch_refs_in_range(v@),
{
    proof {
        lemma_assemble_wf(text_input@);
    }
    let (lines, at) = match get_lines_at(text_input) {
        Ok(p) => p,
        Err(e) => {
            return Err(e);
        },
    };
    proof {
        lemma_parse_source_ok(text_input@);
        let st = parse_source(text_input@)->Ok_0;
        assert forall|i: int| 0 <= i < lines@.len() implies (#[trigger] lines@[i]).instr is Some by {
            assert(st.lines[i] == lines@[i]@);
        }
    }
    resolve_lines(&lines, &at)
}


// ---------------------------------------------------------------------------
// What the first pass guarantees

/// An operand names an IO register only below `IO_REGISTER_COUNT`.
pub open spec fn op_ok(o: Option<OpView>) -> bool {
    o matches Some(OpView::Reg(Register::RIO(k))) ==> k < IO_REGISTER_COUNT
}

/// An emitted line has a mnemonic and meets its operand rules.
pub open spec fn line_ok(l: InterimLineView) -> bool {
    &&& l.instr is Some
    &&& check_line_spec(l, 0) is Ok
    &&& op_ok(l.op1)
    &&& op_ok(l.op2)
    &&& op_ok(l.op3)
}

/// The invariant of the first pass.
pub open spec fn state_ok(st: ParseState) -> bool {
    &&& st.at.len() == st.lines.len()
    &&& forall|i: int| 0 <= i < st.lines.len() ==> line_ok(#[trigger] st.lines[i])
    &&& st.cur.instr is None ==> st.cur.op1 is None && st.cur.op2 is None && st.cur.op3 is None
    &&& op_ok(st.cur.op1)
    &&& op_ok(st.cur.op2)
    &&& op_ok(st.cur.op3)
}

pub proof fn lemma_check_line_any_index(l: InterimLineView, a: usize, b: usize)
    ensures
        check_line_spec(l, a) is Ok <==> check_line_spec(l, b) is Ok,
{
}

pub proof fn lemma_operand_ok(w: Seq<char>, li: usize)
    ensures
        operand_of(w, li) matches Ok(op) ==> op_ok(Some(op)),
{
    if w.len() >= 2 {
        let t = w.subrange(2, w.len() as int);
        lemma_parse_unsigned_nonneg(t);
        if let Some(n) = parse_unsigned_upto(t, 65535) {
            if n < IO_REGISTER_COUNT {
                let k = n as usize;
                assert(k < IO_REGISTER_COUNT);
            }
        }
    }
    if let Ok(op) = operand_of(w, li) {
        if let OpView::Reg(Register::RIO(k)) = op {
            assert(k < IO_REGISTER_COUNT);
        }
    }
}

pub proof fn lemma_take_token_ok(st: ParseState, w: Seq<char>, li: usize)
    requires
        state_ok(st),
    ensures
        take_token(st, w, li) matches Ok(st2) ==> state_ok(st2),
{
    lemma_operand_ok(w, li);
    let cur = st.cur;
    if cur.instr is None && mnemonic(w) is None && w.len() > 0 && w.last() == ':'
        && cur.lable is Some {
        let st2 = push_line(st, InterimLineView { instr: Some(Instruction::NOP), ..cur }, li);
        assert forall|i: int| 0 <= i < st2.lines.len() implies line_ok(#[trigger] st2.lines[i]) by {
            if i < st.lines.len() {
                assert(st2.lines[i] == st.lines[i]);
            }
        }
    }
}

pub proof fn lemma_end_line_ok(st: ParseState, li: usize)
    requires
        state_ok(st),
    ensures
        end_line(st, li) matches Ok(st2) ==> state_ok(st2) && st2.cur.instr is None,
{
    if st.cur.instr is Some && check_line_spec(st.cur, li) is Ok {
        lemma_check_line_any_index(st.cur, li, 0);
        let st2 = push_line(st, st.cur, li);
        assert forall|i: int| 0 <= i < st2.lines.len() implies line_ok(#[trigger] st2.lines[i]) by {
            if i < st.lines.len() {
                assert(st2.lines[i] == st.lines[i]);
            }
        }
    }
}

pub proof fn lemma_finish_ok(st: ParseState, li: usize)
    requires
        state_ok(st),
        st.cur.instr is None,
    ensures
        state_ok(finish(st, li)),
{
    let st2 = finish(st, li);
    if st.cur.lable is Some {
        assert forall|i: int| 0 <= i < st2.lines.len() implies line_ok(#[trigger] st2.lines[i]) by {
            if i < st.lines.len() {
                assert(st2.lines[i] == st.lines[i]);
            }
        }
    }
}

pub proof fn lemma_scan_tokens_ok(s: Seq<char>, p: int, end: int, li: usize, st: ParseState)
    requires
        state_ok(st),
    ensures
        scan_tokens(s, p, end, li, st) matches Ok(st2) ==> state_ok(st2),
    decreases end - p,
{
    if p < end {
        if s[p] == ' ' {
            lemma_scan_tokens_ok(s, p + 1, end, li, st);
        } else {
            let e = find_before(s, ' ', p, end);
            lemma_find_before(s, ' ', p, end);
            lemma_take_token_ok(st, s.subrange(p, e), li);
            if let Ok(st2) = take_token(st, s.subrange(p, e), li) {
                lemma_scan_tokens_ok(s, e, end, li, st2);
            }
        }
    }
}

pub proof fn lemma_scan_lines_ok(s: Seq<char>, p: int, li: usize, st: ParseState)
    requires
        state_ok(st),
    ensures
        scan_lines(s, p, li, st) matches Ok(st2) ==> state_ok(st2),
    decreases s.len() - p,
{
    let e = find_before(s, '\n', p, s.len() as int);
    let c = find_before(s, ';', p, e);
    lemma_scan_tokens_ok(s, p, c, li, st);
    if let Ok(st1) = scan_tokens(s, p, c, li, st) {
        lemma_end_line_ok(st1, li);
        if let Ok(st2) = end_line(st1, li) {
            if e < s.len() {
                lemma_find_before(s, '\n', p, s.len() as int);
                lemma_scan_lines_ok(s, e + 1, (li + 1) as usize, st2);
            } else {
                lemma_finish_ok(st2, li);
            }
        }
    }
}

/// Every line the first pass emits has a mnemonic and meets its operand rules.
pub proof fn lemma_parse_source_ok(s: Seq<char>)
    ensures
        parse_source(s) matches Ok(st) ==> state_ok(st),
{
    lemma_scan_lines_ok(s, 0, 0, initial_state());
}


// ---------------------------------------------------------------------------
// What a compiled program guarantees

pub open spec fn is_branch(i: Instruction) -> bool {
    i == Instruction::BRC || i == Instruction::BEQ || i == Instruction::BGT || i == Instruction::BLT
}

/// An operand names an IO register only below `IO_REGISTER_COUNT`.
pub open spec fn operand_ok(o: Option<Operand>) -> bool {
    o matches Some(Operand::Reg(Register::RIO(k))) ==> k < IO_REGISTER_COUNT
}

/// A compiled line has the operands its mnemonic needs: none for `HLT` and
/// `NOP`; a direct target for a branch; two for `CMP`; two and a register
/// destination for arithmetic.
pub open spec fn line_wf(l: Line) -> bool {
    &&& operand_ok(l.op1)
    &&& operand_ok(l.op2)
    &&& operand_ok(l.op3)
    &&& match l.instr {
        Instruction::HLT | Instruction::NOP => l.op1 is None && l.op2 is None && l.op3 is None,
        Instruction::BRC | Instruction::BEQ | Instruction::BGT | Instruction::BLT => {
            l.op1 matches Some(Operand::Direct(_)) && l.op2 is None && l.op3 is None
        },
        Instruction::CMP => l.op1 is Some && l.op2 is Some && l.op3 is None,
        _ => l.op1 is Some && l.op2 is Some && l.op3 matches Some(Operand::Reg(_)),
    }
}

pub open spec fn code_wf(code: Seq<Line>) -> bool {
    forall|i: int| 0 <= i < code.len() ==> line_wf(#[trigger] code[i])
}

/// Every branch targets a line of the program.
pub open spec fn branch_targets_in_range(code: Seq<Line>) -> bool {
    forall|i: int|
        0 <= i < code.len() && is_branch(#[trigger] code[i].instr) ==> direct_below(
            code[i].op1,
            code.len() as int,
        )
}

/// A direct operand `t` with `0 <= t < n`.
pub open spec fn direct_below(o: Option<Operand>, n: int) -> bool {
    match o {
        Some(Operand::Direct(t)) => 0 <= t < n,
        _ => false,
    }
}

/// A resolved line of a program of `n` lines: well formed, and a branch
/// target is a line index whenever the indices fit an `i16`.
pub open spec fn resolved_ok(l: Line, n: int) -> bool {
    &&& line_wf(l)
    &&& is_branch(l.instr) && n <= 32768 ==> direct_below(l.op1, n)
    &&& is_branch(l.instr) && n <= usize::MAX ==> ref_below(l.op1, n)
}

/// A direct operand whose `u16` bits name one of `n` lines.
pub open spec fn ref_below(o: Option<Operand>, n: int) -> bool {
    match o {
        Some(Operand::Direct(t)) => (t as u16) < n,
        _ => false,
    }
}

/// Every branch target, read as the `u16` it was written as, is a line of the
/// program. A line index above `i16::MAX` wraps to a negative `i16`; its bits
/// still name the line.
pub open spec fn branch_refs_in_range(code: Seq<Line>) -> bool {
    forall|i: int|
        0 <= i < code.len() && is_branch(#[trigger] code[i].instr) ==> ref_below(
            code[i].op1,
            code.len() as int,
        )
}

pub proof fn lemma_label_index_bounds(lines: Seq<InterimLineView>, name: Seq<char>)
    ensures
        label_index(lines, name) matches Some(i) ==> 0 <= i < lines.len(),
    decreases lines.len(),
{
    if lines.len() > 0 && lines.last().lable != Some(name) {
        lemma_label_index_bounds(lines.drop_last(), name);
    }
}

pub proof fn lemma_resolve_line_ok(lines: Seq<InterimLineView>, l: InterimLineView, li: usize)
    requires
        line_ok(l),
    ensures
        resolve_line(lines, l, li) matches Ok(r) ==> resolved_ok(r, lines.len() as int),
{
    lemma_check_line_any_index(l, 0, li);
    if let Some(OpView::Lable(name)) = l.op1 {
        lemma_label_index_bounds(lines, name);
        if let Some(i) = label_index(lines, name) {
            if lines.len() <= usize::MAX {
                let j = i as usize;
                assert(((j as u16) as i16) as u16 == j as u16) by (bit_vector);
                assert((j as u16) as usize <= j) by (bit_vector);
            }
        }
    }
}

pub proof fn lemma_resolve_from_ok(
    lines: Seq<InterimLineView>,
    at: Seq<usize>,
    k: int,
    done: Seq<Line>,
)
    requires
        0 <= k <= lines.len(),
        at.len() == lines.len(),
        forall|i: int| 0 <= i < lines.len() ==> line_ok(#[trigger] lines[i]),
        forall|i: int| 0 <= i < done.len() ==> resolved_ok(#[trigger] done[i], lines.len() as int),
    ensures
        resolve_from(lines, at, k, done) matches Ok(code) ==> code.len() == done.len() + lines.len()
            - k && forall|i: int|
            0 <= i < code.len() ==> resolved_ok(#[trigger] code[i], lines.len() as int),
    decreases lines.len() - k,
{
    if k < lines.len() {
        lemma_resolve_line_ok(lines, lines[k], at[k]);
        if let Ok(l) = resolve_line(lines, lines[k], at[k]) {
            let d2 = done.push(l);
            assert forall|i: int| 0 <= i < d2.len() implies resolved_ok(
                #[trigger] d2[i],
                lines.len() as int,
            ) by {
                if i < done.len() {
                    assert(d2[i] == done[i]);
                }
            }
            lemma_resolve_from_ok(lines, at, k + 1, d2);
        }
    }
}

/// A compiled program is well formed, and each branch targets one of its
/// lines whenever the program is short enough for every line index to fit
/// an `i16` operand.
pub proof fn lemma_assemble_wf(s: Seq<char>)
    ensures
        assemble(s) matches Ok(code) ==> code_wf(code) && (code.len() <= 32768
            ==> branch_targets_in_range(code)) && (code.len() <= usize::MAX ==> branch_refs_in_range(
            code,
        )),
{
    lemma_parse_source_ok(s);
    if let Ok(st) = parse_source(s) {
        lemma_resolve_from_ok(st.lines, st.at, 0, Seq::empty());
        if let Ok(code) = assemble(s) {
            assert forall|i: int| 0 <= i < code.len() implies line_wf(#[trigger] code[i]) by {
                assert(resolved_ok(code[i], st.lines.len() as int));
            }
            if code.len() <= 32768 {
                assert forall|i: int|
                    0 <= i < code.len() && is_branch(#[trigger] code[i].instr) implies direct_below(
                    code[i].op1,
                    code.len() as int,
                ) by {
                    assert(resolved_ok(code[i], st.lines.len() as int));
                }
            }
            if code.len() <= usize::MAX {
                assert forall|i: int|
                    0 <= i < code.len() && is_branch(#[trigger] code[i].instr) implies ref_below(
                    code[i].op1,
                    code.len() as int,
                ) by {
                    assert(resolved_ok(code[i], st.lines.len() as int));
                }
            }
        }
    }
}

} // verus!
