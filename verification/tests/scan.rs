use fern::lex::cursor::{len_utf8, Cursor};
use fern::lex::scan::{
    char_can_continue_ident, char_can_start_ident, char_is_digit, char_is_whitespace,
    ident_token_ty, CharClass,
};
use fern::lex::token::TokenType;
use fern::source_map::SourceMap;

#[test]
fn character_classes_are_ascii() {
    for c in 0..=255u8 {
        let ch = c as char;
        assert_eq!(char_is_whitespace(c), c.is_ascii() && ch.is_ascii_whitespace());
        assert_eq!(char_is_digit(c), c.is_ascii() && ch.is_ascii_digit());
        assert_eq!(char_can_start_ident(c), c.is_ascii() && (ch.is_ascii_alphabetic() || ch == '_'));
        assert_eq!(
            char_can_continue_ident(c),
            c.is_ascii() && (ch.is_ascii_alphanumeric() || ch == '_')
        );
        assert_eq!(CharClass::Digit.contains(c), char_is_digit(c));
        assert_eq!(CharClass::IdentContinue.contains(c), char_can_continue_ident(c));
        assert_eq!(CharClass::CommentBody.contains(c), c != b'\n');
    }
}

#[test]
fn keywords_are_spelled_exactly() {
    assert_eq!(ident_token_ty(b"fn"), TokenType::Fn);
    assert_eq!(ident_token_ty(b"let"), TokenType::Let);
    assert_eq!(ident_token_ty(b"if"), TokenType::If);
    assert_eq!(ident_token_ty(b"while"), TokenType::While);
    assert_eq!(ident_token_ty(b"for"), TokenType::For);
    for ident in ["", "f", "fnn", "Fn", "le", "lets", "iff", "whil", "whilee", "fo", "fore", "x"] {
        assert_eq!(ident_token_ty(ident.as_bytes()), TokenType::Ident);
    }
}

#[test]
fn width_of_a_character_from_its_first_byte() {
    for c in ['\0', 'a', '\x7f', '\u{80}', 'é', '\u{7ff}', '\u{800}', '€', '\u{ffff}', '😀', '\u{10ffff}'] {
        let mut buffer = [0u8; 4];
        let encoded = c.encode_utf8(&mut buffer);
        assert_eq!(len_utf8(encoded.as_bytes()[0]), c.len_utf8());
    }
}

#[test]
fn cursor_walks_characters() {
    let mut sm = SourceMap::new();
    sm.add_source("a.fern".to_string(), "ab é12 // c\nd".to_string());
    let source = &sm.sources()[0];
    let mut cursor = Cursor::new(source);
    assert_eq!(cursor.peek(), Some(b'a'));
    assert!(cursor.peek_is(b'a'));
    assert!(!cursor.peek_is(b'b'));
    assert_eq!(cursor.pop(), Some(b'a'));
    assert_eq!(cursor.popped_text(), b"a");
    cursor.pop_while(CharClass::IdentContinue);
    assert_eq!(cursor.popped_text(), b"ab");
    let token = cursor.popped_as_token(TokenType::Ident);
    assert_eq!(token.span(), source.span(0, 2));
    assert_eq!(cursor.popped_text(), b"");

    assert_eq!(cursor.pop(), Some(b' '));
    cursor.ignore();
    // A character of two bytes is popped as a whole.
    assert_eq!(cursor.pop(), Some(0xC3));
    assert_eq!(cursor.popped_as_span(), source.span(3, 5));

    cursor.pop_while(CharClass::Digit);
    assert_eq!(cursor.popped_as_span(), source.span(5, 7));
    cursor.pop_while(CharClass::Digit);
    assert_eq!(cursor.popped_as_span(), source.span(7, 7));

    cursor.pop_while(CharClass::CommentBody);
    assert_eq!(cursor.popped_text(), b" // c");
    assert_eq!(cursor.peek(), Some(b'\n'));
    cursor.ignore();
    cursor.pop();
    cursor.pop();
    assert_eq!(cursor.popped_as_span(), source.span(12, 14));
    assert_eq!(cursor.peek(), None);
    assert_eq!(cursor.pop(), None);
    assert!(!cursor.peek_is(b'd'));
    assert_eq!(cursor.popped_as_span(), source.span(14, 14));
}
