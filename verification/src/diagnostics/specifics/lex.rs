//! The diagnostics of the lexer, one for each kind of error token.

use crate::diagnostics::{Diagnostic, DiagnosticView, PartView};
use crate::source_map::{Source, Span};
use vstd::prelude::*;
use vstd::string::*;

verus! {

/// `start`, then `text` between backquotes, then a full stop.
pub open spec fn message(start: Seq<char>, text: Seq<char>) -> Seq<char> {
    start + "`"@ + text + "`."@
}

/// The diagnostic for a character, `text`, at `span`, that starts no token.
pub open spec fn spec_illegal_char(span: Span, text: Seq<char>) -> DiagnosticView {
    DiagnosticView {
        msg: message("Illegal character "@, text),
        parts: seq![PartView { span, help: Seq::empty() }],
    }
}

/// The diagnostic for an opening delimiter, `text`, at `span`, that is
/// never closed.
pub open spec fn spec_unmatched_open_paren(span: Span, text: Seq<char>) -> DiagnosticView {
    DiagnosticView {
        msg: message("Unclosed delimiter "@, text),
        parts: seq![PartView { span, help: "has no match"@ }],
    }
}

/// The diagnostic for a closing delimiter, `text`, at `span`, with no
/// delimiter open.
pub open spec fn spec_unmatched_close_paren(span: Span, text: Seq<char>) -> DiagnosticView {
    DiagnosticView {
        msg: message("Unexpected closing delimiter "@, text),
        parts: seq![PartView { span, help: "has no match"@ }],
    }
}

/// The diagnostic for a closing delimiter, `text`, at `close_span`, that
/// closes a delimiter of another kind, at `open_span`.
pub open spec fn spec_mismatched_close_paren(
    open_span: Span,
    close_span: Span,
    text: Seq<char>,
) -> DiagnosticView {
    DiagnosticView {
        msg: message("Mismatched closing delimiter "@, text),
        parts: seq![
            PartView { span: open_span, help: "unclosed delimiter"@ },
            PartView { span: close_span, help: "mismatched closing delimiter"@ },
        ],
    }
}

/// `start`, then `text` between backquotes, then a full stop.
fn quote(start: &str, text: &str) -> (msg: String)
    ensures
        msg@ == message(start@, text@),
{
    let mut msg = start.to_owned();
    msg.append("`");
    msg.append(text);
    msg.append("`.");
    msg
}

/// The diagnostic for the character at `span`, which starts no token.
pub fn illegal_char(span: Span, source: &Source) -> (diagnostic: Diagnostic)
    requires
        source.valid_span(span),
    ensures
        diagnostic@ == spec_illegal_char(span, source.text_of(span)),
{
    let sym_text = source.text_of_span(span);

    Diagnostic::new(quote("Illegal character ", sym_text)).add_part(span, String::new())
}

/// The diagnostic for the opening delimiter at `span`, which is never
/// closed.
pub fn unmatched_open_paren(span: Span, source: &Source) -> (diagnostic: Diagnostic)
    requires
        source.valid_span(span),
    ensures
        diagnostic@ == spec_unmatched_open_paren(span, source.text_of(span)),
{
    let paren_text = source.text_of_span(span);

    Diagnostic::new(quote("Unclosed delimiter ", paren_text)).add_part(
        span,
        "has no match".to_owned(),
    )
}

/// The diagnostic for the closing delimiter at `span`, which has no
/// delimiter to close.
pub fn unmatched_close_paren(span: Span, source: &Source) -> (diagnostic: Diagnostic)
    requires
        source.valid_span(span),
    ensures
        diagnostic@ == spec_unmatched_close_paren(span, source.text_of(span)),
{
    let paren_text = source.text_of_span(span);

    Diagnostic::new(quote("Unexpected closing delimiter ", paren_text)).add_part(
        span,
        "has no match".to_owned(),
    )
}

/// The diagnostic for the closing delimiter at `close_span`, which closes
/// a delimiter of another kind, at `open_span`.
pub fn mismatched_close_paren(open_span: Span, close_span: Span, source: &Source) -> (diagnostic:
    Diagnostic)
    requires
        source.valid_span(close_span),
    ensures
        diagnostic@ == spec_mismatched_close_paren(
            open_span,
            close_span,
            source.text_of(close_span),
        ),
{
    let close_text = source.text_of_span(close_span);

    let diagnostic = Diagnostic::new(quote("Mismatched closing delimiter ", close_text)).add_part(
        open_span,
        "unclosed delimiter".to_owned(),
    ).add_part(close_span, "mismatched closing delimiter".to_owned());
    assert(diagnostic@.parts =~= spec_mismatched_close_paren(
        open_span,
        close_span,
        source.text_of(close_span),
    ).parts);
    diagnostic
}

} // verus!
