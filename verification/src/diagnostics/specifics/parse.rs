//! The diagnostic of the parser: a token that was expected is missing.

use crate::diagnostics::{Diagnostic, DiagnosticView, PartView};
use crate::source_map::Span;
use vstd::prelude::*;
use vstd::string::*;

verus! {

/// What stands where a token was expected.
#[derive(Debug, Clone, Copy, PartialEq, Eq, Structural)]
pub enum Found {
    /// Another token, which is marked by this span.
    Token(Span),
    /// The end of the tokens, which this span marks.
    End(Span),
    /// No token at all: there is nothing to mark.
    Nothing,
}

/// The diagnostic for `what` that is expected and not found: the part, if
/// there is one, marks what stands in its place.
pub open spec fn spec_expected(what: Seq<char>, found: Found) -> DiagnosticView {
    DiagnosticView {
        msg: "Expected "@ + what + "."@,
        parts: match found {
            Found::Token(span) => seq![PartView { span, help: "unexpected token"@ }],
            Found::End(span) => seq![PartView { span, help: "expected here"@ }],
            Found::Nothing => Seq::empty(),
        },
    }
}

/// The diagnostic for `what` that is expected and not found.
pub fn expected(what: &str, found: Found) -> (diagnostic: Diagnostic)
    ensures
        diagnostic@ == spec_expected(what@, found),
{
    let mut msg = "Expected ".to_owned();
    msg.append(what);
    msg.append(".");
    let diagnostic = Diagnostic::new(msg);
    match found {
        Found::Token(span) => diagnostic.add_part(span, "unexpected token".to_owned()),
        Found::End(span) => diagnostic.add_part(span, "expected here".to_owned()),
        Found::Nothing => diagnostic,
    }
}

} // verus!
