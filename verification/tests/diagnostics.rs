use fern::diagnostics::render::{render, DiagWriter};
use fern::diagnostics::specifics::lex::{
    illegal_char, mismatched_close_paren, unmatched_close_paren, unmatched_open_paren,
};
use fern::diagnostics::Diagnostic;
use fern::lex::lex_source;
use fern::source_map::SourceMap;

fn map_with(name: &str, text: &str) -> SourceMap {
    let mut sm = SourceMap::new();
    sm.add_source(name.to_string(), text.to_string());
    sm
}

fn render_plain(diagnostic: &Diagnostic, sm: &SourceMap) -> String {
    let mut writer = DiagWriter::new_plain(String::new());
    render(&mut writer, diagnostic, sm);
    writer.finish()
}

fn render_ansi(diagnostic: &Diagnostic, sm: &SourceMap) -> String {
    let mut out = String::new();
    diagnostic.render(&mut out, sm);
    out
}

#[test]
fn diagnostic_keeps_message_and_parts_in_order() {
    let sm = map_with("a.fern", "abcdef");
    let source = &sm.sources()[0];
    let diagnostic = Diagnostic::new("message".to_string());
    assert_eq!(diagnostic.msg(), "message");
    assert_eq!(diagnostic.part_count(), 0);
    let diagnostic = diagnostic
        .add_part(source.span(3, 4), "second in text".to_string())
        .add_part(source.span(0, 2), "first in text".to_string());
    assert_eq!(diagnostic.msg(), "message");
    assert_eq!(diagnostic.part_count(), 2);
    assert_eq!(diagnostic.part(0).span(), source.span(3, 4));
    assert_eq!(diagnostic.part(0).help(), "second in text");
    assert_eq!(diagnostic.part(1).span(), source.span(0, 2));
    assert_eq!(diagnostic.part(1).help(), "first in text");
}

#[test]
fn lexer_diagnostics_from_their_templates() {
    let sm = map_with("a.fern", "$ ( ] é");
    let source = &sm.sources()[0];

    let diagnostic = illegal_char(source.span(0, 1), source);
    assert_eq!(diagnostic.msg(), "Illegal character `$`.");
    assert_eq!(diagnostic.part_count(), 1);
    assert_eq!(diagnostic.part(0).span(), source.span(0, 1));
    assert_eq!(diagnostic.part(0).help(), "");

    let diagnostic = illegal_char(source.span(6, 8), source);
    assert_eq!(diagnostic.msg(), "Illegal character `é`.");

    let diagnostic = unmatched_open_paren(source.span(2, 3), source);
    assert_eq!(diagnostic.msg(), "Unclosed delimiter `(`.");
    assert_eq!(diagnostic.part_count(), 1);
    assert_eq!(diagnostic.part(0).span(), source.span(2, 3));
    assert_eq!(diagnostic.part(0).help(), "has no match");

    let diagnostic = unmatched_close_paren(source.span(4, 5), source);
    assert_eq!(diagnostic.msg(), "Unexpected closing delimiter `]`.");
    assert_eq!(diagnostic.part_count(), 1);
    assert_eq!(diagnostic.part(0).span(), source.span(4, 5));
    assert_eq!(diagnostic.part(0).help(), "has no match");

    let diagnostic = mismatched_close_paren(source.span(2, 3), source.span(4, 5), source);
    assert_eq!(diagnostic.msg(), "Mismatched closing delimiter `]`.");
    assert_eq!(diagnostic.part_count(), 2);
    assert_eq!(diagnostic.part(0).span(), source.span(2, 3));
    assert_eq!(diagnostic.part(0).help(), "unclosed delimiter");
    assert_eq!(diagnostic.part(1).span(), source.span(4, 5));
    assert_eq!(diagnostic.part(1).help(), "mismatched closing delimiter");
}

#[test]
fn illegal_character_on_line_two_column_five() {
    let sm = map_with("a.fern", "fn a\nlet $ = 1;\n");
    let source = &sm.sources()[0];
    let span = source.span(9, 10);
    assert_eq!(source.text_of_span(span), "$");
    assert_eq!(source.line_of(span.start()), 2);
    assert_eq!(source.col_of(span.start()), 5);

    let diagnostic = Diagnostic::new("Illegal character `$`.".to_string())
        .add_part(span, String::new());
    let report = render_plain(&diagnostic, &sm);
    let lines: Vec<&str> = report.lines().collect();
    assert_eq!(lines.len(), 5);
    assert_eq!(lines[0], "error: Illegal character `$`.");
    assert_eq!(lines[1].trim_start(), "--> a.fern:2:5");
    assert_eq!(lines[1], " --> a.fern:2:5");
    assert_eq!(lines[2], "  |");
    assert_eq!(lines[3], "2 | let $ = 1;");
    assert_eq!(lines[4], "  |     ^ ");
    assert_eq!(lines[4].matches('^').count(), 1);
    // The caret stands under the character it marks.
    assert_eq!(lines[4].find('^'), lines[3].find('$'));
    assert_eq!(lines[4].find('^'), Some("2 | ".len() + 4));
    assert!(report.ends_with('\n'));
}

#[test]
fn ansi_report_bit_for_bit() {
    let sm = map_with("a.fern", "fn a\nlet $ = 1;\n");
    let source = &sm.sources()[0];
    let diagnostic = illegal_char(source.span(9, 10), source);
    let report = render_ansi(&diagnostic, &sm);
    let expected = "\x1b[91m\x1b[1merror\x1b[0m\x1b[1m: Illegal character `$`.\x1b[0m\n \
        \x1b[94m\x1b[1m-->\x1b[0m a.fern:2:5\n \
        \x1b[94m\x1b[1m |\x1b[0m\n\
        \x1b[94m\x1b[1m2 |\x1b[0m let $ = 1;\n \
        \x1b[94m\x1b[1m | \x1b[0m    \x1b[91m\x1b[1m^ \x1b[0m\n";
    assert_eq!(report, expected);
}

#[test]
fn render_appends_to_the_output() {
    let sm = map_with("a.fern", "a $");
    let source = &sm.sources()[0];
    let diagnostic = illegal_char(source.span(2, 3), source);
    let alone = render_ansi(&diagnostic, &sm);
    let mut out = String::from("before\n");
    diagnostic.render(&mut out, &sm);
    assert_eq!(out, format!("before\n{}", alone));
    diagnostic.render(&mut out, &sm);
    assert_eq!(out, format!("before\n{}{}", alone, alone));

    let mut writer = DiagWriter::new_ansi(String::from("x"));
    render(&mut writer, &diagnostic, &sm);
    assert_eq!(writer.finish(), format!("x{}", alone));
}

#[test]
fn diagnostic_without_parts_is_its_first_line() {
    let sm = map_with("a.fern", "text");
    let diagnostic = Diagnostic::new("nothing to show".to_string());
    assert_eq!(render_plain(&diagnostic, &sm), "error: nothing to show\n");
}

#[test]
fn parts_are_rendered_in_source_order() {
    let sm = map_with("pair.fern", "( a\n  b ]\n");
    let source = &sm.sources()[0];
    // The closing delimiter is added first, the opening one second.
    let diagnostic = Diagnostic::new("Mismatched closing delimiter `]`.".to_string())
        .add_part(source.span(8, 9), "mismatched closing delimiter".to_string())
        .add_part(source.span(0, 1), "unclosed delimiter".to_string());
    let report = render_plain(&diagnostic, &sm);
    let expected = "error: Mismatched closing delimiter `]`.\n \
        --> pair.fern:1:1\n  \
        |\n\
        1 | ( a\n  \
        | ^ unclosed delimiter\n \
        --> pair.fern:2:5\n  \
        |\n\
        2 |   b ]\n  \
        |     ^ mismatched closing delimiter\n";
    assert_eq!(report, expected);
}

#[test]
fn parts_with_the_same_start_keep_their_order() {
    let sm = map_with("a.fern", "abc def");
    let source = &sm.sources()[0];
    let diagnostic = Diagnostic::new("m".to_string())
        .add_part(source.span(4, 7), "late".to_string())
        .add_part(source.span(0, 3), "first added".to_string())
        .add_part(source.span(0, 1), "second added".to_string());
    let report = render_plain(&diagnostic, &sm);
    let carets: Vec<&str> = report.lines().filter(|line| line.contains('^')).collect();
    assert_eq!(
        carets,
        vec!["  | ^^^ first added", "  | ^ second added", "  |     ^^^ late"]
    );
}

#[test]
fn gutter_is_as_wide_as_the_longest_line_number() {
    let mut text = String::new();
    for _ in 0..99 {
        text.push_str("x\n");
    }
    text.push_str("tail $\n");
    let sm = map_with("long.fern", &text);
    let source = &sm.sources()[0];
    let diagnostic = Diagnostic::new("m".to_string())
        .add_part(source.span(16, 17), "early".to_string())
        .add_part(source.span(198 + 5, 198 + 6), "late".to_string());
    let report = render_plain(&diagnostic, &sm);
    let expected = "error: m\n   \
        --> long.fern:9:1\n    \
        |\n  \
        9 | x\n    \
        | ^ early\n   \
        --> long.fern:100:6\n    \
        |\n\
        100 | tail $\n    \
        |      ^ late\n";
    assert_eq!(report, expected);
}

#[test]
fn carets_count_characters_and_offsets_count_bytes() {
    let sm = map_with("a.fern", "aé €😀!");
    let source = &sm.sources()[0];
    let span = source.span(4, 11);
    assert_eq!(source.text_of_span(span), "€😀");
    let diagnostic = Diagnostic::new("m".to_string()).add_part(span, "two".to_string());
    let report = render_plain(&diagnostic, &sm);
    let lines: Vec<&str> = report.lines().collect();
    assert_eq!(lines[1], " --> a.fern:1:5");
    assert_eq!(lines[3], "1 | aé €😀!");
    assert_eq!(lines[4], "  |     ^^ two");
}

#[test]
fn empty_span_has_no_caret() {
    let sm = map_with("a.fern", "abc");
    let source = &sm.sources()[0];
    let diagnostic = Diagnostic::new("m".to_string()).add_part(source.span(1, 1), "here".to_string());
    let report = render_plain(&diagnostic, &sm);
    assert_eq!(report, "error: m\n --> a.fern:1:2\n  |\n1 | abc\n  |   here\n");
}

#[test]
fn lexer_diagnostics_render() {
    let sm = map_with("bad.fern", "fn f(x: i32 {\n  $\n]");
    let errors = lex_source(&sm.sources()[0]).expect_err("error tokens");
    let mut report = String::new();
    for error in &errors {
        report.push_str(&render_plain(error, &sm));
        report.push('\n');
    }
    // The unclosed parenthesis stands before the group in curly brackets,
    // whose error tokens follow it.
    let expected = "error: Unclosed delimiter `(`.\n \
        --> bad.fern:1:5\n  \
        |\n\
        1 | fn f(x: i32 {\n  \
        |     ^ has no match\n\
        \n\
        error: Illegal character `$`.\n \
        --> bad.fern:2:3\n  \
        |\n\
        2 |   $\n  \
        |   ^ \n\
        \n\
        error: Mismatched closing delimiter `]`.\n \
        --> bad.fern:1:13\n  \
        |\n\
        1 | fn f(x: i32 {\n  \
        |             ^ unclosed delimiter\n \
        --> bad.fern:3:1\n  \
        |\n\
        3 | ]\n  \
        | ^ mismatched closing delimiter\n\
        \n";
    assert_eq!(report, expected);
}

#[test]
fn parts_in_several_sources() {
    let mut sm = SourceMap::new();
    let first = sm.add_source("one.fern".to_string(), "alpha".to_string());
    let second = sm.add_source("two.fern".to_string(), "\nbeta".to_string());
    let diagnostic = Diagnostic::new("m".to_string())
        .add_part(sm.get_source(second).span(1, 5), "b".to_string())
        .add_part(sm.get_source(first).span(0, 5), "a".to_string());
    let report = render_plain(&diagnostic, &sm);
    let expected = "error: m\n \
        --> one.fern:1:1\n  \
        |\n\
        1 | alpha\n  \
        | ^^^^^ a\n \
        --> two.fern:2:1\n  \
        |\n\
        2 | beta\n  \
        | ^^^^ b\n";
    assert_eq!(report, expected);
}

#[test]
fn can_render_tells_what_render_needs() {
    let mut sm = SourceMap::new();
    let id = sm.add_source("a.fern".to_string(), "ab\ncd\n".to_string());
    let source = sm.get_source(id);

    let one_line = Diagnostic::new("m".to_string()).add_part(source.span(3, 5), String::new());
    assert!(one_line.can_render(&sm));
    // The newline belongs to the line that it ends.
    let with_newline = Diagnostic::new("m".to_string()).add_part(source.span(0, 2), String::new());
    assert!(with_newline.can_render(&sm));

    let two_lines = Diagnostic::new("m".to_string()).add_part(source.span(1, 4), String::new());
    assert!(!two_lines.can_render(&sm));
    let over_newline = Diagnostic::new("m".to_string()).add_part(source.span(0, 3), String::new());
    assert!(!over_newline.can_render(&sm));
    // Behind the last newline there is no line to show.
    let past_the_end = Diagnostic::new("m".to_string()).add_part(source.span(6, 6), String::new());
    assert!(!past_the_end.can_render(&sm));

    let mut other = SourceMap::new();
    other.add_source("x".to_string(), "ab\ncd\n".to_string());
    let second = other.add_source("y".to_string(), "é".to_string());
    let elsewhere = Diagnostic::new("m".to_string())
        .add_part(other.get_source(second).span(0, 2), String::new());
    assert!(elsewhere.can_render(&other));
    // This map has no second source.
    assert!(!elsewhere.can_render(&sm));
    assert!(!sm.contains(second));
    assert!(sm.contains(id));

    // In the first source of the other map the span ends inside a character.
    let mut third = SourceMap::new();
    third.add_source("x".to_string(), "aé".to_string());
    let inside = Diagnostic::new("m".to_string()).add_part(source.span(0, 2), String::new());
    assert!(!inside.can_render(&third));
    assert!(!third.sources()[0].contains_span(source.span(0, 2)));
    assert!(third.sources()[0].contains_span(source.span(0, 1)));
    assert!(third.sources()[0].contains_span(source.span(1, 3)));
}
