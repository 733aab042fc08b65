//! Executes the `Line`s the assembler produces, one instruction per step,
//! with blocking IO through suspend and resume of a partly executed
//! arithmetic or compare instruction.
use vstd::prelude::*;
use crate::assembler::{
    assemble, code_wf, get_program_instructions, CodeError, Instruction, Line, Operand, Register,
    IO_REGISTER_COUNT,
};

verus! {

/// Bit of `RT` set when the compared values are equal.
pub const TEST_EQUAL: i16 = 1;

/// Bit of `RT` set when the first compared value is the smaller.
pub const TEST_LESS_THAN: i16 = 2;

/// Bit of `RT` set when the first compared value is the larger.
pub const TEST_GREATER_THAN: i16 = 4;

/// Which way a blocked IO port waits.
#[derive(Copy, Clone, Debug, PartialEq, Eq, Structural)]
pub enum IoDirection {
    /// The program waits for a value to be read in.
    In,
    /// The program holds a value that waits to be read out.
    Out,
}

/// The operand values already resolved when an instruction suspended for IO.
#[derive(Copy, Clone, Debug, PartialEq, Eq, Structural)]
pub struct ProgramLineState {
    pub op1: Option<i16>,
    pub op2: Option<i16>,
}

impl ProgramLineState {
    fn new(op1: Option<i16>, op2: Option<i16>) -> (r: Self)
        ensures
            r == (ProgramLineState { op1, op2 }),
    {
        ProgramLineState { op1, op2 }
    }
}

/// Simulates a program of the assembly language, made up of lines of instructions.
pub struct Program {
    code: Vec<Line>,
    pc: i16,
    r1: i16,
    r2: i16,
    rt: i16,
    rio: Vec<i16>,
    active_io: Option<(usize, IoDirection)>,
    temp_state: Option<ProgramLineState>,
    halted: bool,
}

/// The mathematical state of a `Program`.
pub struct ProgramView {
    pub code: Seq<Line>,
    pub pc: i16,
    pub r1: i16,
    pub r2: i16,
    pub rt: i16,
    pub rio: Seq<i16>,
    /// The one port the program is blocked on, if any.
    pub active_io: Option<(usize, IoDirection)>,
    /// What a suspended instruction had resolved before it blocked.
    pub pending: Option<ProgramLineState>,
    pub halted: bool,
}

impl View for Program {
    type V = ProgramView;

    closed spec fn view(&self) -> ProgramView {
        ProgramView {
            code: self.code@,
            pc: self.pc,
            r1: self.r1,
            r2: self.r2,
            rt: self.rt,
            rio: self.rio@,
            active_io: self.active_io,
            pending: self.temp_state,
            halted: self.halted,
        }
    }
}

/// The invariant of a program: its code is a compiled program, it has
/// `IO_REGISTER_COUNT` IO registers, it blocks only on one of them, and
/// while it waits for input it keeps what the instruction has resolved.
pub open spec fn program_wf(s: ProgramView) -> bool {
    &&& code_wf(s.code)
    &&& s.rio.len() == IO_REGISTER_COUNT
    &&& s.active_io matches Some((k, _)) ==> k < IO_REGISTER_COUNT
    &&& s.active_io matches Some((_, IoDirection::In)) ==> s.pending is Some
}

/// A program freshly made from compiled code.
pub open spec fn fresh_program(code: Seq<Line>) -> ProgramView {
    ProgramView {
        code,
        pc: 0,
        r1: 0,
        r2: 0,
        rt: 0,
        rio: seq![0i16, 0i16, 0i16, 0i16],
        active_io: None,
        pending: None,
        halted: false,
    }
}

/// A halted program whose code is one `HLT`.
pub open spec fn blank_program() -> ProgramView {
    ProgramView {
        code: seq![Line { instr: Instruction::HLT, op1: None, op2: None, op3: None }],
        pc: 0,
        r1: 0,
        r2: 0,
        rt: 0,
        rio: seq![0i16, 0i16, 0i16, 0i16],
        active_io: None,
        pending: None,
        halted: true,
    }
}

/// The value of a register; IO registers are not observable this way.
pub open spec fn register_value(s: ProgramView, reg: Register) -> Option<i16> {
    match reg {
        Register::PC => Some(s.pc),
        Register::R1 => Some(s.r1),
        Register::R2 => Some(s.r2),
        Register::RT => Some(s.rt),
        Register::RIO(_) => None,
    }
}

/// The value of an operand, or `None` where it must be read in from an IO register.
pub open spec fn operand_value(s: ProgramView, op: Option<Operand>) -> Option<i16> {
    match op {
        Some(Operand::Direct(n)) => Some(n),
        Some(Operand::Reg(reg)) => register_value(s, reg),
        None => None,
    }
}

/// The port an IO operand names.
pub open spec fn io_index(op: Option<Operand>) -> usize {
    match op {
        Some(Operand::Reg(Register::RIO(k))) => k,
        _ => 0,
    }
}

/// The operand values of `line`: resolved afresh, or taken from the
/// suspended state with the value that has since been read in.
pub open spec fn fetch_operands(s: ProgramView, line: Line) -> (Option<i16>, Option<i16>) {
    match s.pending {
        None => (operand_value(s, line.op1), operand_value(s, line.op2)),
        Some(p) => if p.op1 is None {
            (Some(s.rio[io_index(line.op1) as int]), p.op2)
        } else if p.op2 is None {
            (p.op1, Some(s.rio[io_index(line.op2) as int]))
        } else {
            (p.op1, p.op2)
        },
    }
}

/// Blocks on the first operand still missing, keeps what is resolved, and
/// steps the program counter back so the instruction runs again.
pub open spec fn suspend(s: ProgramView, line: Line, v1: Option<i16>, v2: Option<i16>) -> ProgramView {
    let port = if v1 is None {
        io_index(line.op1)
    } else {
        io_index(line.op2)
    };
    ProgramView {
        active_io: Some((port, IoDirection::In)),
        pc: s.pc.wrapping_sub(1),
        pending: Some(ProgramLineState { op1: v1, op2: v2 }),
        ..s
    }
}

/// Signed division truncated toward zero, wrapping on `i16::MIN / -1`; `None` for division by zero.
pub open spec fn wrapping_div(a: i16, b: i16) -> Option<i16> {
    if b == 0 {
        None
    } else {
        match a.checked_div(b) {
            Some(q) => Some(q),
            None => Some(i16::MIN),
        }
    }
}

/// The result of an arithmetic instruction in wrapping `i16` arithmetic;
/// `None` for a division by zero.
pub open spec fn math_result(instr: Instruction, a: i16, b: i16) -> Option<i16> {
    match instr {
        Instruction::ADD => Some(a.wrapping_add(b)),
        Instruction::SUB => Some(a.wrapping_sub(b)),
        Instruction::MUL => Some(a.wrapping_mul(b)),
        _ => wrapping_div(a, b),
    }
}

/// Writes a register; writing an IO register blocks until the value is read out.
pub open spec fn write_register(s: ProgramView, reg: Register, v: i16) -> ProgramView {
    match reg {
        Register::PC => ProgramView { pc: v, ..s },
        Register::R1 => ProgramView { r1: v, ..s },
        Register::R2 => ProgramView { r2: v, ..s },
        Register::RT => ProgramView { rt: v, ..s },
        Register::RIO(k) => ProgramView {
            rio: s.rio.update(k as int, v),
            active_io: Some((k, IoDirection::Out)),
            ..s
        },
    }
}

/// `ADD`, `SUB`, `MUL`, `DIV` after the program counter has advanced.
/// Division by zero halts the program and writes nothing.
pub open spec fn arith_step(s: ProgramView, line: Line) -> ProgramView {
    let (v1, v2) = fetch_operands(s, line);
    if v1 is None || v2 is None {
        suspend(s, line, v1, v2)
    } else {
        let s2 = ProgramView { pending: None, ..s };
        match math_result(line.instr, v1->Some_0, v2->Some_0) {
            None => ProgramView { halted: true, ..s2 },
            Some(res) => match line.op3 {
                Some(Operand::Reg(reg)) => write_register(s2, reg, res),
                _ => s2,
            },
        }
    }
}

/// The `RT` mask for comparing `a` with `b`: exactly one of the three bits.
pub open spec fn compare_mask(a: i16, b: i16) -> i16 {
    if a == b {
        TEST_EQUAL
    } else if a > b {
        TEST_GREATER_THAN
    } else {
        TEST_LESS_THAN
    }
}

/// `CMP` after the program counter has advanced: once both operands are
/// known, `RT` is set to the mask; until then `RT` keeps its value.
pub open spec fn cmp_step(s: ProgramView, line: Line) -> ProgramView {
    let (v1, v2) = fetch_operands(s, line);
    if v1 is None || v2 is None {
        suspend(s, line, v1, v2)
    } else {
        ProgramView { pending: None, rt: compare_mask(v1->Some_0, v2->Some_0), ..s }
    }
}

/// Where a branch goes: its direct operand.
pub open spec fn branch_target(s: ProgramView, op: Option<Operand>) -> i16 {
    match op {
        Some(Operand::Direct(t)) => t,
        _ => s.pc,
    }
}

/// A branch taken when `cond` holds.
pub open spec fn branch_step(s: ProgramView, line: Line, cond: bool) -> ProgramView {
    if cond {
        ProgramView { pc: branch_target(s, line.op1), ..s }
    } else {
        s
    }
}

/// One step: nothing while halted or blocked on IO; halt when the program
/// counter is outside the code; else advance the program counter and run
/// the instruction it pointed at.
pub open spec fn step_spec(s: ProgramView) -> ProgramView {
    if s.halted || s.active_io is Some {
        s
    } else if s.pc < 0 || s.pc >= s.code.len() {
        ProgramView { halted: true, ..s }
    } else {
        let line = s.code[s.pc as int];
        let s1 = ProgramView { pc: s.pc.wrapping_add(1), ..s };
        match line.instr {
            Instruction::CMP => cmp_step(s1, line),
            Instruction::BRC => branch_step(s1, line, true),
            Instruction::BEQ => branch_step(s1, line, s1.rt & TEST_EQUAL != 0),
            Instruction::BGT => branch_step(s1, line, s1.rt & TEST_GREATER_THAN != 0),
            Instruction::BLT => branch_step(s1, line, s1.rt & TEST_LESS_THAN != 0),
            Instruction::HLT => ProgramView { halted: true, ..s1 },
            Instruction::NOP => s1,
            _ => arith_step(s1, line),
        }
    }
}

/// `read_in_ready(index)`: the program waits for a value on port `index`.
pub open spec fn in_ready(s: ProgramView, index: usize) -> bool {
    s.active_io == Some((index, IoDirection::In))
}

/// `read_out_ready(index)`: the program holds a value for port `index`.
pub open spec fn out_ready(s: ProgramView, index: usize) -> bool {
    s.active_io == Some((index, IoDirection::Out))
}

/// `read_in(value, index)` where it is accepted.
pub open spec fn read_in_spec(s: ProgramView, value: i16, index: usize) -> ProgramView {
    ProgramView { rio: s.rio.update(index as int, value), active_io: None, ..s }
}

/// `read_out(index)` where a value is ready.
pub open spec fn read_out_spec(s: ProgramView) -> ProgramView {
    ProgramView { active_io: None, ..s }
}

fn get_io_index(op: Option<Operand>) -> (r: usize)
    ensures
        r == io_index(op),
{
    match op {
        Some(Operand::Reg(Register::RIO(k))) => k,
        _ => 0,
    }
}

fn math_instruction(instr: Instruction, op1: i16, op2: i16) -> (r: Option<i16>)
    ensures
        r == math_result(instr, op1, op2),
{
    match instr {
        Instruction::ADD => Some(op1.wrapping_add(op2)),
        Instruction::SUB => Some(op1.wrapping_sub(op2)),
        Instruction::MUL => Some(op1.wrapping_mul(op2)),
        _ => {
            if op2 == 0 {
                None
            } else {
                match op1.checked_div(op2) {
                    Some(q) => Some(q),
                    None => Some(i16::MIN),
                }
            }
        },
    }
}

// ---------------------------------------------------------------------------
// A program on its own runs in a finite state space

/// The state after `n` steps with no IO from outside.
pub open spec fn iterate(s: ProgramView, n: nat) -> ProgramView
    decreases n,
{
    if n == 0 {
        s
    } else {
        step_spec(iterate(s, (n - 1) as nat))
    }
}

/// A step keeps the code and the invariant.
pub proof fn lemma_step_wf(s: ProgramView)
    requires
        program_wf(s),
    ensures
        program_wf(step_spec(s)),
        step_spec(s).code == s.code,
{
    if !(s.halted || s.active_io is Some) && 0 <= s.pc < s.code.len() {
        assert(crate::assembler::line_wf(s.code[s.pc as int]));
    }
}

pub proof fn lemma_iterate_wf(s: ProgramView, n: nat)
    requires
        program_wf(s),
    ensures
        program_wf(iterate(s, n)),
        iterate(s, n).code == s.code,
    decreases n,
{
    if n > 0 {
        lemma_iterate_wf(s, (n - 1) as nat);
        lemma_step_wf(iterate(s, (n - 1) as nat));
    }
}

/// All pairs of an element of `a` and an element of `b`.
pub open spec fn product<A, B>(a: Set<A>, b: Set<B>) -> Set<(A, B)> {
    Set::new(|p: (A, B)| a.contains(p.0) && b.contains(p.1))
}

pub proof fn lemma_product_finite<A, B>(a: Set<A>, b: Set<B>)
    requires
        a.finite(),
        b.finite(),
    ensures
        product(a, b).finite(),
    decreases a.len(),
{
    if a.len() == 0 {
        assert(a =~= Set::empty()) by {
            if exists|x: A| a.contains(x) {
                let x = choose|x: A| a.contains(x);
                vstd::set::axiom_set_remove_len(a, x);
            }
        }
        assert(product(a, b) =~= Set::empty());
    } else {
        let x = a.choose();
        lemma_product_finite(a.remove(x), b);
        let f = |y: B| (x, y);
        b.lemma_map_finite(f);
        assert(product(a, b) =~= product(a.remove(x), b).union(b.map(f))) by {
            assert forall|p: (A, B)| product(a, b).contains(p) implies product(a.remove(x), b).union(
                b.map(f),
            ).contains(p) by {
                if p.0 == x {
                    assert(f(p.1) == p);
                }
            }
        }
    }
}

/// The values an `Option<i16>` can take.
pub open spec fn opt_i16_set() -> Set<Option<i16>> {
    Set::<i16>::full().map(|v: i16| Some(v)).insert(None)
}

/// The values `active_io` takes in a well-formed program.
pub open spec fn active_set() -> Set<Option<(usize, IoDirection)>> {
    set![
        None,
        Some((0usize, IoDirection::In)),
        Some((1usize, IoDirection::In)),
        Some((2usize, IoDirection::In)),
        Some((3usize, IoDirection::In)),
        Some((0usize, IoDirection::Out)),
        Some((1usize, IoDirection::Out)),
        Some((2usize, IoDirection::Out)),
        Some((3usize, IoDirection::Out)),
    ]
}

/// The values `pending` can take.
pub open spec fn pending_set() -> Set<Option<ProgramLineState>> {
    product(opt_i16_set(), opt_i16_set()).map(
        |p: (Option<i16>, Option<i16>)| Some(ProgramLineState { op1: p.0, op2: p.1 }),
    ).insert(None)
}

pub open spec fn regs_set() -> Set<((i16, i16), (i16, i16))> {
    product(product(Set::<i16>::full(), Set::<i16>::full()), product(Set::<i16>::full(), Set::<i16>::full()))
}

pub open spec fn flags_set() -> Set<((Option<(usize, IoDirection)>, Option<ProgramLineState>), bool)> {
    product(product(active_set(), pending_set()), set![true, false])
}

/// Everything that changes as a program runs.
pub open spec fn state_key(s: ProgramView) -> (
    (((i16, i16), (i16, i16)), ((i16, i16), (i16, i16))),
    ((Option<(usize, IoDirection)>, Option<ProgramLineState>), bool),
) {
    (
        (((s.pc, s.r1), (s.r2, s.rt)), ((s.rio[0], s.rio[1]), (s.rio[2], s.rio[3]))),
        ((s.active_io, s.pending), s.halted),
    )
}

/// A finite set that holds the key of every well-formed state.
pub open spec fn key_space() -> Set<
    (
        (((i16, i16), (i16, i16)), ((i16, i16), (i16, i16))),
        ((Option<(usize, IoDirection)>, Option<ProgramLineState>), bool),
    ),
> {
    product(product(regs_set(), regs_set()), flags_set())
}

#[verifier::rlimit(40)]
pub proof fn lemma_key_space(s: ProgramView)
    requires
        program_wf(s),
    ensures
        key_space().finite(),
        key_space().contains(state_key(s)),
{
    broadcast use vstd::set_lib::full_set_properties;

    let full = Set::<i16>::full();
    lemma_product_finite(full, full);
    lemma_product_finite(product(full, full), product(full, full));
    lemma_product_finite(regs_set(), regs_set());
    full.lemma_map_finite(|v: i16| Some(v));
    lemma_product_finite(opt_i16_set(), opt_i16_set());
    product(opt_i16_set(), opt_i16_set()).lemma_map_finite(
        |p: (Option<i16>, Option<i16>)| Some(ProgramLineState { op1: p.0, op2: p.1 }),
    );
    lemma_product_finite(active_set(), pending_set());
    lemma_product_finite(product(active_set(), pending_set()), set![true, false]);
    lemma_product_finite(product(regs_set(), regs_set()), flags_set());
    match s.pending {
        Some(p) => {
            let f = |q: (Option<i16>, Option<i16>)| Some(ProgramLineState { op1: q.0, op2: q.1 });
            assert(opt_i16_set().contains(p.op1)) by {
                if let Some(v) = p.op1 {
                    assert(full.contains(v));
                    assert((|v: i16| Some(v))(v) == Some(v));
                    assert(full.map(|v: i16| Some(v)).contains(Some(v)));
                }
            }
            assert(opt_i16_set().contains(p.op2)) by {
                if let Some(v) = p.op2 {
                    assert(full.contains(v));
                    assert((|v: i16| Some(v))(v) == Some(v));
                    assert(full.map(|v: i16| Some(v)).contains(Some(v)));
                }
            }
            assert(product(opt_i16_set(), opt_i16_set()).contains((p.op1, p.op2)));
            assert(f((p.op1, p.op2)) == Some(p));
            assert(pending_set().contains(Some(p)));
        },
        None => {},
    }
    match s.active_io {
        Some((k, d)) => {
            assert(k == 0 || k == 1 || k == 2 || k == 3);
            assert(d == IoDirection::In || d == IoDirection::Out);
        },
        None => {},
    }
    assert(active_set().contains(s.active_io));
    assert(set![true, false].contains(s.halted));
}

/// Run on its own, a well-formed program halts or comes back to a state it
/// was in before: its states lie in a finite set.
#[verifier::rlimit(40)]
pub proof fn lemma_run_revisits(s: ProgramView)
    requires
        program_wf(s),
    ensures
        exists|j: nat|
            #[trigger] iterate(s, j).halted || exists|i: nat| i < j && iterate(s, i) == iterate(s, j),
{
    lemma_key_space(s);
    let n = key_space().len();
    let keys = Seq::new(n + 1, |i: int| state_key(iterate(s, i as nat)));
    assert forall|i: int| 0 <= i < keys.len() implies key_space().contains(#[trigger] keys[i]) by {
        lemma_iterate_wf(s, i as nat);
        lemma_key_space(iterate(s, i as nat));
    }
    if keys.no_duplicates() {
        keys.unique_seq_to_set();
        assert forall|x| keys.to_set().contains(x) implies key_space().contains(x) by {
            let i = choose|i: int| 0 <= i < keys.len() && keys[i] == x;
            assert(key_space().contains(keys[i]));
        }
        vstd::set_lib::lemma_len_subset(keys.to_set(), key_space());
        assert(false);
    }
    let (i, j) = choose|i: int, j: int|
        0 <= i < keys.len() && 0 <= j < keys.len() && i != j && keys[i] == keys[j];
    let (a, b) = if i < j {
        (i as nat, j as nat)
    } else {
        (j as nat, i as nat)
    };
    lemma_iterate_wf(s, a);
    lemma_iterate_wf(s, b);
    let x = iterate(s, a);
    let y = iterate(s, b);
    assert(state_key(x) == state_key(y));
    assert(x.rio =~= y.rio);
    assert(x == y);
    assert(iterate(s, b).halted || exists|i: nat| i < b && iterate(s, i) == iterate(s, b));
}

/// A program fresh from the assembler, run on its own, halts or comes back
/// to a state it was in before.
pub proof fn lemma_fresh_run_revisits(source: Seq<char>)
    ensures
        assemble(source) matches Ok(code) ==> exists|j: nat|
            #[trigger] iterate(fresh_program(code), j).halted || exists|i: nat|
                i < j && iterate(fresh_program(code), i) == iterate(fresh_program(code), j),
{
    crate::assembler::lemma_assemble_wf(source);
    if let Ok(code) = assemble(source) {
        assert(fresh_program(code).rio.len() == IO_REGISTER_COUNT);
        lemma_run_revisits(fresh_program(code));
    }
}

impl Program {
    /// The invariant of this program.
    pub open spec fn wf(&self) -> bool {
        program_wf(self@)
    }

    /// Makes a program from source code; a syntax issue gives the code error
    /// and the line where it occurred.
    pub fn new(program_code: &str) -> (r: Result<Self, CodeError>)
        ensures
            match assemble(program_code@) {
                Ok(code) => r matches Ok(p) && p@ == fresh_program(code) && p.wf(),
                Err(e) => r matches Err(x) && x == e,
            },
    {
        let code = match get_program_instructions(program_code) {
            Ok(code) => code,
            Err(e) => {
                return Err(e);
            },
        };
        let p = Program {
            code,
            pc: 0,
            r1: 0,
            r2: 0,
            rt: 0,
            rio: vec![0i16, 0i16, 0i16, 0i16],
            active_io: None,
            temp_state: None,
            halted: false,
        };
        assert(p@.rio == seq![0i16, 0i16, 0i16, 0i16]);
        Ok(p)
    }

    /// A blank program that is halted.
    pub fn blank() -> (r: Self)
        ensures
            r@ == blank_program(),
            r.wf(),
    {
        let p = Program {
            code: vec![Line { instr: Instruction::HLT, op1: None, op2: None, op3: None }],
            pc: 0,
            r1: 0,
            r2: 0,
            rt: 0,
            rio: vec![0i16, 0i16, 0i16, 0i16],
            active_io: None,
            temp_state: None,
            halted: true,
        };
        assert(p@.rio == seq![0i16, 0i16, 0i16, 0i16]);
        assert(p@.code == seq![Line { instr: Instruction::HLT, op1: None, op2: None, op3: None }]);
        p
    }

    /// The number of IO registers.
    pub fn io_reg_count(&self) -> (r: usize)
        ensures
            r == self@.rio.len(),
    {
        self.rio.len()
    }

    /// The value waiting in IO register `index`, which leaves the port
    /// unblocked; `None` where no value waits there.
    pub fn read_out(&mut self, index: usize) -> (r: Option<i16>)
        requires
            old(self).wf(),
        ensures
            final(self).wf(),
            out_ready(old(self)@, index) ==> r == Some(old(self)@.rio[index as int])
                && final(self)@ == read_out_spec(old(self)@),
            !out_ready(old(self)@, index) ==> r is None && final(self)@ == old(self)@,
    {
        if self.read_out_ready(index) {
            self.active_io = None;
            Some(self.rio[index])
        } else {
            None
        }
    }

    /// Whether a value waits to be read out of IO register `index`.
    pub fn read_out_ready(&self, index: usize) -> (r: bool)
        ensures
            r == out_ready(self@, index),
    {
        match self.active_io {
            Some((k, IoDirection::Out)) => k == index,
            _ => false,
        }
    }

    /// Reads `value` into IO register `index` where the program waits for
    /// it there, leaving the suspended instruction to finish on the next
    /// step; else `Err` and nothing changes.
    pub fn read_in(&mut self, value: i16, index: usize) -> (r: Result<(), ()>)
        requires
            old(self).wf(),
        ensures
            final(self).wf(),
            in_ready(old(self)@, index) ==> r is Ok && final(self)@ == read_in_spec(
                old(self)@,
                value,
                index,
            ),
            !in_ready(old(self)@, index) ==> r is Err && final(self)@ == old(self)@,
    {
        if self.read_in_ready(index) {
            self.rio.set(index, value);
            self.active_io = None;
            Ok(())
        } else {
            Err(())
        }
    }

    /// Whether the program waits for a value on IO register `index`.
    pub fn read_in_ready(&self, index: usize) -> (r: bool)
        ensures
            r == in_ready(self@, index),
    {
        match self.active_io {
            Some((k, IoDirection::In)) => k == index,
            _ => false,
        }
    }

    /// Returns `None` where an IO register is requested.
    pub fn get_register_value(&self, reg: Register) -> (r: Option<i16>)
        ensures
            r == register_value(self@, reg),
    {
        match reg {
            Register::PC => Some(self.pc),
            Register::R1 => Some(self.r1),
            Register::R2 => Some(self.r2),
            Register::RT => Some(self.rt),
            Register::RIO(_) => None,
        }
    }

    /// Whether the program has halted.
    pub fn halted(&self) -> (r: bool)
        ensures
            r == self@.halted,
    {
        self.halted
    }
    /// Steps the program forward by one line (see `step_spec`).
    #[verifier::rlimit(40)]
    pub fn step(&mut self)
        requires
            old(self).wf(),
        ensures
            final(self).wf(),
            final(self)@ == step_spec(old(self)@),
    {
        if self.halted || self.active_io.is_some() {
            return;
        }
        if self.pc < 0 || self.pc as usize >= self.code.len() {
            self.halted = true;
            return;
        }
        let current_line = self.code[self.pc as usize];
        assert(crate::assembler::line_wf(current_line));
        self.pc = self.pc.wrapping_add(1);
        match current_line.instr {
            Instruction::CMP => {
                match self.get_two_ops(current_line) {
                    Some((op1, op2)) => {
                        self.temp_state = None;
                        self.rt = if op1 == op2 {
                            TEST_EQUAL
                        } else if op1 > op2 {
                            TEST_GREATER_THAN
                        } else {
                            TEST_LESS_THAN
                        };
                    },
                    None => {},
                }
            },
            Instruction::BRC => {
                self.pc = self.branch_target(current_line.op1);
            },
            Instruction::BEQ => {
                if self.rt & TEST_EQUAL != 0 {
                    self.pc = self.branch_target(current_line.op1);
                }
            },
            Instruction::BGT => {
                if self.rt & TEST_GREATER_THAN != 0 {
                    self.pc = self.branch_target(current_line.op1);
                }
            },
            Instruction::BLT => {
                if self.rt & TEST_LESS_THAN != 0 {
                    self.pc = self.branch_target(current_line.op1);
                }
            },
            Instruction::HLT => {
                self.halted = true;
            },
            Instruction::NOP => {},
            _ => {
                match self.get_two_ops(current_line) {
                    Some((op1, op2)) => {
                        self.temp_state = None;
                        match math_instruction(current_line.instr, op1, op2) {
                            Some(result) => match current_line.op3 {
                                Some(Operand::Reg(reg)) => self.set_register_value(reg, result),
                                _ => {},
                            },
                            None => {
                                self.halted = true;
                            },
                        }
                    },
                    None => {},
                }
            },
        }
    }

    fn branch_target(&self, op: Option<Operand>) -> (r: i16)
        ensures
            r == branch_target(self@, op),
    {
        match op {
            Some(Operand::Direct(t)) => t,
            _ => self.pc,
        }
    }

    fn get_operand_value(&self, op: Option<Operand>) -> (r: Option<i16>)
        ensures
            r == operand_value(self@, op),
    {
        match op {
            Some(Operand::Direct(num)) => Some(num),
            Some(Operand::Reg(reg)) => self.get_register_value(reg),
            None => None,
        }
    }

    /// The two operand values of `current_line`, or `None` after suspending
    /// the program on the first one that must be read in.
    fn get_two_ops(&mut self, current_line: Line) -> (r: Option<(i16, i16)>)
        requires
            old(self).wf(),
            crate::assembler::operand_ok(current_line.op1),
            crate::assembler::operand_ok(current_line.op2),
        ensures
            final(self).wf(),
            ({
                let (v1, v2) = fetch_operands(old(self)@, current_line);
                if v1 is Some && v2 is Some {
                    r == Some((v1->Some_0, v2->Some_0)) && final(self)@ == old(self)@
                } else {
                    r is None && final(self)@ == suspend(old(self)@, current_line, v1, v2)
                }
            }),
    {
        let (op1, op2) = match self.temp_state {
            None => (self.get_operand_value(current_line.op1), self.get_operand_value(current_line.op2)),
            Some(s) => if s.op1.is_none() {
                (Some(self.rio[get_io_index(current_line.op1)]), s.op2)
            } else if s.op2.is_none() {
                (s.op1, Some(self.rio[get_io_index(current_line.op2)]))
            } else {
                (s.op1, s.op2)
            },
        };
        match (op1, op2) {
            (Some(v1), Some(v2)) => Some((v1, v2)),
            _ => {
                let port = if op1.is_none() {
                    get_io_index(current_line.op1)
                } else {
                    get_io_index(current_line.op2)
                };
                self.active_io = Some((port, IoDirection::In));
                self.pc = self.pc.wrapping_sub(1);
                self.temp_state = Some(ProgramLineState::new(op1, op2));
                None
            },
        }
    }

    fn set_register_value(&mut self, reg: Register, value: i16)
        requires
            old(self).wf(),
            reg matches Register::RIO(k) ==> k < IO_REGISTER_COUNT,
        ensures
            final(self).wf(),
            final(self)@ == write_register(old(self)@, reg, value),
    {
        match reg {
            Register::PC => self.pc = value,
            Register::R1 => self.r1 = value,
            Register::R2 => self.r2 = value,
            Register::RT => self.rt = value,
            Register::RIO(io_index) => {
                self.active_io = Some((io_index, IoDirection::Out));
                self.rio.set(io_index, value);
            },
        }
    }
}

} // verus!
