//! The flat scan: character classes, and what one token is.
//!
//! Every character that starts a token or is skipped is ASCII, so the scan
//! reads the UTF-8 bytes of the text. A byte of a longer character is never
//! mistaken for one: all of its bytes are above the ASCII range.

use super::token::{TokenErrorTy, TokenType};
use crate::source_map::{char_width, lemma_boundary_bytes, lemma_next_boundary, NEWLINE};
use vstd::prelude::*;
use vstd::string::*;
use vstd::utf8::*;

verus! {

/// ASCII whitespace: space, tab, line feed, form feed, carriage return.
pub open spec fn is_whitespace(c: u8) -> bool {
    c == ' ' as u8 || c == '\t' as u8 || c == '\n' as u8 || c == '\x0C' as u8 || c == '\r' as u8
}

/// An ASCII digit.
pub open spec fn is_digit(c: u8) -> bool {
    '0' as u8 <= c <= '9' as u8
}

/// An ASCII letter or the underscore.
pub open spec fn can_start_ident(c: u8) -> bool {
    ('a' as u8 <= c <= 'z' as u8) || ('A' as u8 <= c <= 'Z' as u8) || c == '_' as u8
}

/// An ASCII letter, the underscore or an ASCII digit.
pub open spec fn can_continue_ident(c: u8) -> bool {
    can_start_ident(c) || is_digit(c)
}

/// One of `(`, `[`, `{`.
pub open spec fn is_open_delim(c: u8) -> bool {
    c == '(' as u8 || c == '[' as u8 || c == '{' as u8
}

/// One of `)`, `]`, `}`.
pub open spec fn is_close_delim(c: u8) -> bool {
    c == ')' as u8 || c == ']' as u8 || c == '}' as u8
}

/// The kind of nested token that the delimiter `c` opens or closes.
pub open spec fn delim_ty(c: u8) -> TokenType {
    TokenType::spec_from_paren(c as char)
}

/// The keyword that `ident` spells, or `Ident` where it spells none.
pub open spec fn spec_ident_token_ty(ident: Seq<u8>) -> TokenType {
    if ident == seq!['f' as u8, 'n' as u8] {
        TokenType::Fn
    } else if ident == seq!['l' as u8, 'e' as u8, 't' as u8] {
        TokenType::Let
    } else if ident == seq!['i' as u8, 'f' as u8] {
        TokenType::If
    } else if ident == seq!['w' as u8, 'h' as u8, 'i' as u8, 'l' as u8, 'e' as u8] {
        TokenType::While
    } else if ident == seq!['f' as u8, 'o' as u8, 'r' as u8] {
        TokenType::For
    } else {
        TokenType::Ident
    }
}

/// The characters that a token may run on with.
#[derive(Debug, Clone, Copy, PartialEq, Eq, Structural)]
pub enum CharClass {
    /// The digits of an integer literal.
    Digit,
    /// The letters, digits and underscores of an identifier.
    IdentContinue,
    /// All that a line comment holds: anything but the newline.
    CommentBody,
}

impl CharClass {
    /// Whether the byte `c` belongs to the class.
    pub open spec fn has(self, c: u8) -> bool {
        match self {
            CharClass::Digit => is_digit(c),
            CharClass::IdentContinue => can_continue_ident(c),
            CharClass::CommentBody => c != NEWLINE,
        }
    }

    /// Whether the byte `c` belongs to the class.
    pub fn contains(self, c: u8) -> (b: bool)
        ensures
            b == self.has(c),
    {
        match self {
            CharClass::Digit => char_is_digit(c),
            CharClass::IdentContinue => char_can_continue_ident(c),
            CharClass::CommentBody => c != NEWLINE,
        }
    }
}

/// The end of the longest run of bytes of `class` that starts at `from`.
pub open spec fn run_end(bytes: Seq<u8>, from: int, class: CharClass) -> int
    decreases bytes.len() - from,
{
    if 0 <= from < bytes.len() && class.has(bytes[from]) {
        run_end(bytes, from + 1, class)
    } else {
        from
    }
}

/// The byte after `p`, if there is one.
pub open spec fn byte_after(bytes: Seq<u8>, p: int) -> Option<u8> {
    if 0 <= p + 1 < bytes.len() {
        Some(bytes[p + 1])
    } else {
        None
    }
}

/// The token that starts at `p` with a character that is no delimiter: its
/// type, or `None` for whitespace and comments, and the offset of its end.
pub open spec fn leaf_at(bytes: Seq<u8>, p: int) -> (Option<TokenType>, int) {
    let c = bytes[p];
    let next = byte_after(bytes, p);
    if is_whitespace(c) {
        (None, p + 1)
    } else if c == '/' as u8 && next == Some('/' as u8) {
        (None, run_end(bytes, p + 1, CharClass::CommentBody))
    } else if is_digit(c) {
        (Some(TokenType::IntLit), run_end(bytes, p + 1, CharClass::Digit))
    } else if can_start_ident(c) {
        let end = run_end(bytes, p + 1, CharClass::IdentContinue);
        (Some(spec_ident_token_ty(bytes.subrange(p, end))), end)
    } else if c == '+' as u8 {
        (Some(TokenType::Plus), p + 1)
    } else if c == '-' as u8 {
        if next == Some('>' as u8) {
            (Some(TokenType::RArrow), p + 2)
        } else {
            (Some(TokenType::Minus), p + 1)
        }
    } else if c == '*' as u8 {
        (Some(TokenType::Mul), p + 1)
    } else if c == '/' as u8 {
        (Some(TokenType::Div), p + 1)
    } else if c == '!' as u8 {
        if next == Some('=' as u8) {
            (Some(TokenType::NotEq), p + 2)
        } else {
            (Some(TokenType::Not), p + 1)
        }
    } else if c == '|' as u8 && next == Some('|' as u8) {
        (Some(TokenType::OrOr), p + 2)
    } else if c == '&' as u8 && next == Some('&' as u8) {
        (Some(TokenType::AndAnd), p + 2)
    } else if c == '=' as u8 {
        if next == Some('=' as u8) {
            (Some(TokenType::EqEq), p + 2)
        } else {
            (Some(TokenType::Eq), p + 1)
        }
    } else if c == '<' as u8 {
        if next == Some('=' as u8) {
            (Some(TokenType::Lte), p + 2)
        } else {
            (Some(TokenType::Lt), p + 1)
        }
    } else if c == '>' as u8 {
        if next == Some('=' as u8) {
            (Some(TokenType::Gte), p + 2)
        } else {
            (Some(TokenType::Gt), p + 1)
        }
    } else if c == ';' as u8 {
        (Some(TokenType::Semicolon), p + 1)
    } else if c == ':' as u8 {
        (Some(TokenType::Colon), p + 1)
    } else if c == ',' as u8 {
        (Some(TokenType::Comma), p + 1)
    } else {
        (Some(TokenType::Error(TokenErrorTy::IllegalChar)), p + char_width(c))
    }
}

/// A run ends between its start and the end of the text; every byte of it
/// is of its class, and the byte that follows it is not.
pub proof fn lemma_run_end(bytes: Seq<u8>, from: int, class: CharClass)
    requires
        0 <= from <= bytes.len(),
    ensures
        from <= run_end(bytes, from, class) <= bytes.len(),
        forall|k: int| from <= k < run_end(bytes, from, class) ==> class.has(#[trigger] bytes[k]),
        run_end(bytes, from, class) < bytes.len() ==> !class.has(
            bytes[run_end(bytes, from, class)],
        ),
    decreases bytes.len() - from,
{
    if from < bytes.len() && class.has(bytes[from]) {
        lemma_run_end(bytes, from + 1, class);
    }
}

/// A run that starts inside another run of the same class ends where that
/// one ends.
pub proof fn lemma_run_end_skip(bytes: Seq<u8>, from: int, to: int, class: CharClass)
    requires
        0 <= from <= to <= bytes.len(),
        forall|k: int| from <= k < to ==> class.has(#[trigger] bytes[k]),
    ensures
        run_end(bytes, from, class) == run_end(bytes, to, class),
    decreases to - from,
{
    if from < to {
        lemma_run_end_skip(bytes, from + 1, to, class);
    }
}

/// A token is at least one byte long and ends on a character boundary
/// within the text.
pub proof fn lemma_leaf_at(bytes: Seq<u8>, p: int)
    requires
        valid_utf8(bytes),
        0 <= p < bytes.len(),
        is_char_boundary(bytes, p),
    ensures
        p < leaf_at(bytes, p).1 <= bytes.len(),
        is_char_boundary(bytes, leaf_at(bytes, p).1),
{
    let c = bytes[p];
    let end = leaf_at(bytes, p).1;
    lemma_next_boundary(bytes, p);
    lemma_run_end(bytes, p + 1, CharClass::CommentBody);
    lemma_run_end(bytes, p + 1, CharClass::Digit);
    lemma_run_end(bytes, p + 1, CharClass::IdentContinue);
    lemma_boundary_bytes(bytes, end);
    if c < 0x80 && p + 1 < end {
        lemma_boundary_bytes(bytes, end - 1);
        if bytes[end - 1] < 0x80 {
            lemma_next_boundary(bytes, end - 1);
        }
    }
}

/// No byte of a token is a newline.
pub proof fn lemma_leaf_no_newline(bytes: Seq<u8>, p: int)
    requires
        valid_utf8(bytes),
        0 <= p < bytes.len(),
        is_char_boundary(bytes, p),
        leaf_at(bytes, p).0 is Some,
    ensures
        forall|k: int| p <= k < leaf_at(bytes, p).1 ==> #[trigger] bytes[k] != NEWLINE,
{
    lemma_next_boundary(bytes, p);
    lemma_run_end(bytes, p + 1, CharClass::Digit);
    lemma_run_end(bytes, p + 1, CharClass::IdentContinue);
}

/// Whether `c` is ASCII whitespace.
pub fn char_is_whitespace(c: u8) -> (b: bool)
    ensures
        b == is_whitespace(c),
{
    c == ' ' as u8 || c == '\t' as u8 || c == '\n' as u8 || c == '\x0C' as u8 || c == '\r' as u8
}

/// Whether `c` is an ASCII digit.
pub fn char_is_digit(c: u8) -> (b: bool)
    ensures
        b == is_digit(c),
{
    '0' as u8 <= c && c <= '9' as u8
}

/// Whether an identifier can go on with `c`.
pub fn char_can_continue_ident(c: u8) -> (b: bool)
    ensures
        b == can_continue_ident(c),
{
    char_can_start_ident(c) || char_is_digit(c)
}

/// Whether an identifier can start with `c`.
pub fn char_can_start_ident(c: u8) -> (b: bool)
    ensures
        b == can_start_ident(c),
{
    ('a' as u8 <= c && c <= 'z' as u8) || ('A' as u8 <= c && c <= 'Z' as u8) || c == '_' as u8
}

/// Whether `ident` is the word `word`.
fn spells(ident: &[u8], word: &str) -> (b: bool)
    ensures
        b == (ident@ == word.spec_bytes()),
{
    let letters = word.as_bytes();
    if ident.len() != letters.len() {
        return false;
    }
    let mut i: usize = 0;
    while i < ident.len()
        invariant
            i <= ident@.len(),
            ident@.len() == letters@.len(),
            letters@ == word.spec_bytes(),
            forall|k: int| 0 <= k < i ==> ident@[k] == letters@[k],
        decreases ident@.len() - i,
    {
        if ident[i] != letters[i] {
            return false;
        }
        i += 1;
    }
    assert(ident@ =~= letters@);
    true
}

/// The keyword that `ident` spells, or `Ident` where it spells none.
pub fn ident_token_ty(ident: &[u8]) -> (ty: TokenType)
    ensures
        ty == spec_ident_token_ty(ident@),
{
    proof {
        reveal_strlit("fn");
        reveal_strlit("let");
        reveal_strlit("if");
        reveal_strlit("while");
        reveal_strlit("for");
        is_ascii_spec_bytes("fn");
        is_ascii_spec_bytes("let");
        is_ascii_spec_bytes("if");
        is_ascii_spec_bytes("while");
        is_ascii_spec_bytes("for");
        assert("fn".spec_bytes() =~= seq!['f' as u8, 'n' as u8]);
        assert("let".spec_bytes() =~= seq!['l' as u8, 'e' as u8, 't' as u8]);
        assert("if".spec_bytes() =~= seq!['i' as u8, 'f' as u8]);
        assert("while".spec_bytes() =~= seq![
            'w' as u8,
            'h' as u8,
            'i' as u8,
            'l' as u8,
            'e' as u8,
        ]);
        assert("for".spec_bytes() =~= seq!['f' as u8, 'o' as u8, 'r' as u8]);
    }
    if spells(ident, "fn") {
        TokenType::Fn
    } else if spells(ident, "let") {
        TokenType::Let
    } else if spells(ident, "if") {
        TokenType::If
    } else if spells(ident, "while") {
        TokenType::While
    } else if spells(ident, "for") {
        TokenType::For
    } else {
        TokenType::Ident
    }
}

} // verus!
