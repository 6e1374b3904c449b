//! An interpreter for a minimal tape-based language of eight single-character
//! instructions, together with a peephole optimizer that fuses runs of
//! repeated instructions into counted forms.
//!
//! The crate exposes three entry points: [`parser::parse`] turns raw bytes
//! into a program, [`optimizer::optimize`] rewrites a program into an
//! equivalent, shorter one, and [`machine::execute_program`] interprets a
//! program against an input byte sequence, producing an output byte sequence.

pub mod instruction;
pub mod machine;
pub mod optimizer;
pub mod parser;
pub mod semantics;
