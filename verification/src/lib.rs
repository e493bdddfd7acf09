//! An interpreter for an eight-instruction tape language: a translator from
//! source text to a folded instruction sequence with a loop jump table, and a
//! machine that executes that sequence one instruction at a time.

pub mod command;
pub mod syntax;
pub mod loops;
pub mod program;
pub mod linking;
pub mod parse;
pub mod machine;
pub mod execution;
pub mod eval;

pub use command::Command;
pub use eval::{feval, run};
pub use machine::{Machine, Step};
pub use parse::{parse_input, ParseError, ParseResult};
