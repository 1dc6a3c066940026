//! The diagnostics of each stage.

pub mod lex;
pub mod parse;
