//! A toy computer sandbox: microcontrollers programmed in a small assembly
//! language, wired port to port and stepped in lockstep.
//!
//! - `assembler` turns source text into a label-resolved list of `Line`s.
//! - `program` runs such a list one instruction per step, blocking on IO.
//! - `microcontroller` pairs a program with its source and geometry.
//! - `circuit` holds the microcontrollers and their connections and ticks them.
//! - `codec` saves a circuit as text and loads it back.
//! - `printer` prints a compiled program as source that assembles back to it.
//! - `connection` and `text` hold small shared pieces.

pub mod text;
pub mod assembler;
pub mod program;
pub mod connection;
pub mod microcontroller;
pub mod circuit;
pub mod codec;
pub mod printer;
