//! A microcontroller: its place in the circuit, its source code and the
//! program compiled from it.
use vstd::prelude::*;
use crate::assembler::{assemble, CodeError, Register};
use crate::program::{
    program_wf, blank_program, fresh_program, in_ready, out_ready, read_in_spec, read_out_spec,
    register_value, step_spec, Program, ProgramView,
};

verus! {

/// Where a microcontroller sits: four numbers the circuit carries for its
/// user interface and saves with it.
#[derive(Copy, Clone, Debug, PartialEq, Eq, Structural)]
pub struct Rect {
    pub x: i32,
    pub y: i32,
    pub w: i32,
    pub h: i32,
}

impl Rect {
    pub fn new(x: i32, y: i32, w: i32, h: i32) -> (r: Self)
        ensures
            r == (Rect { x, y, w, h }),
    {
        Rect { x, y, w, h }
    }
}

/// Holds the source code of one microcontroller and the program compiled from it.
pub struct Microcontroller {
    rect: Rect,
    code: String,
    program: Program,
}

/// The mathematical state of a `Microcontroller`.
pub struct McView {
    pub rect: Rect,
    pub code: Seq<char>,
    pub program: ProgramView,
}

impl View for Microcontroller {
    type V = McView;

    closed spec fn view(&self) -> McView {
        McView { rect: self.rect, code: self.code@, program: self.program@ }
    }
}

/// A microcontroller after compiling its source: a fresh program on
/// success, else unchanged.
pub open spec fn compile_spec(m: McView) -> McView {
    match assemble(m.code) {
        Ok(code) => McView { program: fresh_program(code), ..m },
        Err(_) => m,
    }
}

/// The microcontroller after one step of its program.
pub open spec fn mc_step(m: McView) -> McView {
    McView { program: step_spec(m.program), ..m }
}

impl Microcontroller {
    /// The invariant of the program inside.
    pub open spec fn wf(&self) -> bool {
        program_wf(self@.program)
    }

    /// A microcontroller at `rect` with no code and a blank, halted program.
    pub fn new(rect: Rect) -> (r: Self)
        ensures
            r@ == (McView { rect, code: Seq::empty(), program: blank_program() }),
            r.wf(),
    {
        Microcontroller { rect, code: String::new(), program: Program::blank() }
    }

    pub fn get_rect(&self) -> (r: Rect)
        ensures
            r == self@.rect,
    {
        self.rect
    }

    /// The number of IO ports.
    pub fn io_count(&self) -> (r: usize)
        requires
            self.wf(),
        ensures
            r == self@.program.rio.len(),
            r == crate::assembler::IO_REGISTER_COUNT,
    {
        self.program.io_reg_count()
    }

    /// Compiles the current source code into a fresh program; on an error
    /// the program is left as it was.
    pub fn compile(&mut self) -> (r: Result<(), CodeError>)
        requires
            old(self).wf(),
        ensures
            final(self).wf(),
            final(self)@ == compile_spec(old(self)@),
            match assemble(old(self)@.code) {
                Ok(_) => r is Ok,
                Err(e) => r == Err::<(), CodeError>(e),
            },
    {
        match Program::new(self.code.as_str()) {
            Ok(p) => {
                self.program = p;
                Ok(())
            },
            Err(e) => Err(e),
        }
    }

    /// The current source code.
    pub fn get_code(&self) -> (r: &str)
        ensures
            r@ == self@.code,
    {
        self.code.as_str()
    }

    /// Replaces the source code; the program is unchanged until the next compile.
    pub fn set_code(&mut self, code: String)
        requires
            old(self).wf(),
        ensures
            final(self).wf(),
            final(self)@ == (McView { code: code@, ..old(self)@ }),
    {
        self.code = code;
    }

    /// Executes the next instruction of the program.
    pub fn step(&mut self)
        requires
            old(self).wf(),
        ensures
            final(self).wf(),
            final(self)@ == mc_step(old(self)@),
    {
        self.program.step();
    }

    /// Reads `value` into IO register `index` where the program waits for it.
    pub fn io_read_in(&mut self, value: i16, index: usize) -> (r: Result<(), ()>)
        requires
            old(self).wf(),
        ensures
            final(self).wf(),
            in_ready(old(self)@.program, index) ==> r is Ok && final(self)@ == (McView {
                program: read_in_spec(old(self)@.program, value, index),
                ..old(self)@
            }),
            !in_ready(old(self)@.program, index) ==> r is Err && final(self)@ == old(self)@,
    {
        self.program.read_in(value, index)
    }

    pub fn io_read_in_ready(&self, index: usize) -> (r: bool)
        ensures
            r == in_ready(self@.program, index),
    {
        self.program.read_in_ready(index)
    }

    /// Reads the value waiting in IO register `index`, if one waits there.
    pub fn io_read_out(&mut self, index: usize) -> (r: Option<i16>)
        requires
            old(self).wf(),
        ensures
            final(self).wf(),
            out_ready(old(self)@.program, index) ==> r == Some(old(self)@.program.rio[index as int])
                && final(self)@ == (McView { program: read_out_spec(old(self)@.program), ..old(self)@ }),
            !out_ready(old(self)@.program, index) ==> r is None && final(self)@ == old(self)@,
    {
        self.program.read_out(index)
    }

    pub fn io_read_out_ready(&self, index: usize) -> (r: bool)
        ensures
            r == out_ready(self@.program, index),
    {
        self.program.read_out_ready(index)
    }

    /// The value of a register of the program; `None` for an IO register.
    pub fn get_register_value(&self, reg: Register) -> (r: Option<i16>)
        ensures
            r == register_value(self@.program, reg),
    {
        self.program.get_register_value(reg)
    }

    /// Whether the program has halted.
    pub fn halted(&self) -> (r: bool)
        ensures
            r == self@.program.halted,
    {
        self.program.halted()
    }
}

} // verus!
