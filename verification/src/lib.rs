//! Front end of the Fern compiler: source positions, lexing, diagnostics and
//! a recovering parser.

use vstd::prelude::*;

pub mod diagnostics;
pub mod lex;
pub mod parse;
pub mod pipeline;
pub mod source_map;
pub mod utils;

verus! {

/// What a stage gives: its result, or all the diagnostics that it found.
pub type FResult<T> = Result<T, Vec<diagnostics::Diagnostic>>;

} // verus!
