//! An ahead-of-time compiler for the Brainfuck language targeting x86-64 Linux.
//!
//! The pipeline parses source bytes into a linear intermediate representation
//! (IR), optimizes it (run-length merging, pointer-move hoisting, dead-op
//! elimination), and lowers it either to NASM-syntax assembly text or directly
//! to a minimal statically linked ELF64 executable image.

pub mod assembly;
pub mod driver;
pub mod elf;
pub mod ir;
pub mod optimizer;
pub mod parser;

pub use ir::IrOp;
