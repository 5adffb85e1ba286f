//! An interpreter for the eight-symbol tape language: filtering of source
//! text, tokenizing, bracket matching, peephole optimization and execution
//! on an unbounded sparse tape of bytes.

pub mod command;
pub mod error;
pub mod fixpoint;
pub mod loops;
pub mod machine;
pub mod optimizer;
pub mod program;
pub mod source;
