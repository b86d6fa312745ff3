//! A minimal toolchain for a stack-based, whitespace-delimited textual
//! language: a tokenizer that locates words with source positions, a
//! translator from words to typed instructions, and two backends — a direct
//! interpreter and a generator of assembly text for a 64-bit target.

pub mod codegen;
pub mod instr;
pub mod interp;
pub mod lexing;
pub mod numtext;
pub mod translate;

pub use instr::Instruction;
