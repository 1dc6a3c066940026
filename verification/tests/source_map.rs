use fern::source_map::{SourceMap, SourcePos, Span};

fn map_with(text: &str) -> SourceMap {
    let mut sm = SourceMap::new();
    sm.add_source("test.fern".to_string(), text.to_string());
    sm
}

#[test]
fn new_map_is_empty() {
    let sm = SourceMap::new();
    assert_eq!(sm.sources().len(), 0);
    let sm = SourceMap::default();
    assert_eq!(sm.sources().len(), 0);
}

#[test]
fn add_source_issues_fresh_ids_in_insertion_order() {
    let mut sm = SourceMap::new();
    let a = sm.add_source("a.fern".to_string(), "first".to_string());
    let b = sm.add_source("b.fern".to_string(), "second".to_string());
    let c = sm.add_source("a.fern".to_string(), "first".to_string());
    assert_ne!(a, b);
    assert_ne!(a, c);
    assert_ne!(b, c);
    assert_eq!(sm.sources().len(), 3);
    assert_eq!(sm.get_source(a).id(), a);
    assert_eq!(sm.get_source(b).id(), b);
    assert_eq!(sm.get_source(c).id(), c);
    assert_eq!(sm.get_source(a).filename(), "a.fern");
    assert_eq!(sm.get_source(a).text(), "first");
    assert_eq!(sm.get_source(b).filename(), "b.fern");
    assert_eq!(sm.get_source(b).text(), "second");
    assert_eq!(sm.sources()[1].text(), "second");
}

#[test]
fn source_pos_keeps_its_parts() {
    let mut sm = SourceMap::new();
    let id = sm.add_source("a".to_string(), "abc".to_string());
    let pos = SourcePos::new(id, 2);
    assert_eq!(pos.src_id(), id);
    assert_eq!(pos.byte(), 2);
}

#[test]
fn span_keeps_its_ends() {
    let mut sm = SourceMap::new();
    let id = sm.add_source("a".to_string(), "abcdef".to_string());
    let span = Span::new(SourcePos::new(id, 1), SourcePos::new(id, 4));
    assert_eq!(span.src_id(), id);
    assert_eq!(span.start(), SourcePos::new(id, 1));
    assert_eq!(span.end(), SourcePos::new(id, 4));
    assert_eq!(span.byte_range(), 1..4);
    let empty = Span::new(SourcePos::new(id, 3), SourcePos::new(id, 3));
    assert_eq!(empty.byte_range(), 3..3);
}

#[test]
fn span_union_is_the_minimal_cover() {
    let sm = map_with("0123456789");
    let source = &sm.sources()[0];
    let a = source.span(2, 4);
    let b = source.span(6, 9);
    assert_eq!(Span::union(a, b), source.span(2, 9));
    assert_eq!(Span::union(b, a), source.span(2, 9));
    let inner = source.span(3, 5);
    let outer = source.span(1, 8);
    assert_eq!(Span::union(inner, outer), outer);
    assert_eq!(Span::union(a, a), a);
}

#[test]
fn span_and_span_with_len_agree() {
    let sm = map_with("hello world");
    let source = &sm.sources()[0];
    assert_eq!(source.span(6, 11), source.span_with_len(6, 5));
    assert_eq!(source.span_with_len(0, 0).byte_range(), 0..0);
    assert_eq!(source.span(6, 11).src_id(), source.id());
    assert_eq!(source.text_of_span(source.span(6, 11)), "world");
    assert_eq!(source.text_of_span(source.span(0, 11)), "hello world");
    assert_eq!(source.text_of_span(source.span(3, 3)), "");
}

#[test]
fn text_of_span_takes_whole_characters() {
    let sm = map_with("aé€😀z");
    let source = &sm.sources()[0];
    assert_eq!(source.text().len(), 11);
    assert_eq!(source.text_of_span(source.span(1, 3)), "é");
    assert_eq!(source.text_of_span(source.span(3, 6)), "€");
    assert_eq!(source.text_of_span(source.span(6, 10)), "😀");
    assert_eq!(source.text_of_span(source.span(1, 10)), "é€😀");
}

#[test]
fn line_of_counts_from_one() {
    let sm = map_with("ab\ncd\n\nxyz");
    let source = &sm.sources()[0];
    let id = source.id();
    let lines: Vec<usize> = (0..=10).map(|b| source.line_of(SourcePos::new(id, b))).collect();
    assert_eq!(lines, vec![1, 1, 1, 2, 2, 2, 3, 4, 4, 4, 4]);
}

#[test]
fn newline_belongs_to_the_line_it_ends() {
    let sm = map_with("ab\ncd");
    let source = &sm.sources()[0];
    let id = source.id();
    assert_eq!(source.line_of(SourcePos::new(id, 2)), 1);
    assert_eq!(source.col_of(SourcePos::new(id, 2)), 3);
    assert_eq!(source.line_of(SourcePos::new(id, 3)), 2);
    assert_eq!(source.col_of(SourcePos::new(id, 3)), 1);
}

#[test]
fn col_of_counts_bytes_from_one() {
    let sm = map_with("ab\ncd\n\nxyz");
    let source = &sm.sources()[0];
    let id = source.id();
    let cols: Vec<usize> = (0..=10).map(|b| source.col_of(SourcePos::new(id, b))).collect();
    assert_eq!(cols, vec![1, 2, 3, 1, 2, 3, 1, 1, 2, 3, 4]);
}

#[test]
fn empty_text_has_one_empty_line() {
    let sm = map_with("");
    let source = &sm.sources()[0];
    let id = source.id();
    assert_eq!(source.line_count(), 1);
    assert_eq!(source.line_of(SourcePos::new(id, 0)), 1);
    assert_eq!(source.col_of(SourcePos::new(id, 0)), 1);
    assert_eq!(source.span_of_line(1).byte_range(), 0..0);
}

#[test]
fn text_that_ends_in_a_newline_has_no_extra_line() {
    let sm = map_with("ab\ncd\n");
    let source = &sm.sources()[0];
    let id = source.id();
    assert_eq!(source.line_count(), 2);
    assert_eq!(source.span_of_line(2).byte_range(), 3..5);
    // The position behind the last newline is past the last line.
    assert_eq!(source.line_of(SourcePos::new(id, 6)), 3);
    assert_eq!(source.col_of(SourcePos::new(id, 6)), 1);
}

#[test]
fn text_without_a_final_newline_ends_its_last_line() {
    let sm = map_with("ab\ncd");
    let source = &sm.sources()[0];
    assert_eq!(source.line_count(), 2);
    assert_eq!(source.span_of_line(1).byte_range(), 0..2);
    assert_eq!(source.span_of_line(2).byte_range(), 3..5);
    assert_eq!(source.text_of_span(source.span_of_line(2)), "cd");
}

#[test]
fn span_of_line_leaves_the_newline_out() {
    let sm = map_with("fn a\n\nlet $\n");
    let source = &sm.sources()[0];
    assert_eq!(source.line_count(), 3);
    assert_eq!(source.text_of_span(source.span_of_line(1)), "fn a");
    assert_eq!(source.text_of_span(source.span_of_line(2)), "");
    assert_eq!(source.text_of_span(source.span_of_line(3)), "let $");
}

#[test]
fn lines_of_text_with_long_characters() {
    let sm = map_with("é\n€b\n");
    let source = &sm.sources()[0];
    let id = source.id();
    assert_eq!(source.line_of(SourcePos::new(id, 0)), 1);
    assert_eq!(source.line_of(SourcePos::new(id, 2)), 1);
    assert_eq!(source.col_of(SourcePos::new(id, 2)), 3);
    assert_eq!(source.line_of(SourcePos::new(id, 3)), 2);
    assert_eq!(source.col_of(SourcePos::new(id, 6)), 4);
    assert_eq!(source.text_of_span(source.span_of_line(2)), "€b");
}

#[test]
fn line_starts_are_in_column_one_and_lines_never_decrease() {
    let text = "fn f() {\n  let x = 1;\n\n}\n// é€\nlast";
    let sm = map_with(text);
    let source = &sm.sources()[0];
    let id = source.id();
    let mut previous = 1;
    for byte in 0..=text.len() {
        if !text.is_char_boundary(byte) {
            continue;
        }
        let pos = SourcePos::new(id, byte);
        let line = source.line_of(pos);
        assert!(line >= previous);
        previous = line;
        let start = byte + 1 - source.col_of(pos);
        assert_eq!(source.line_of(SourcePos::new(id, start)), line);
        assert_eq!(source.col_of(SourcePos::new(id, start)), 1);
        if line <= source.line_count() {
            assert_eq!(source.span_of_line(line).start().byte(), start);
        }
    }
    assert_eq!(previous, 6);
}

#[test]
fn line_of_is_found_in_a_long_table() {
    let mut text = String::new();
    for i in 0..1000 {
        text.push_str(&format!("{}\n", i));
    }
    let sm = map_with(&text);
    let source = &sm.sources()[0];
    let id = source.id();
    assert_eq!(source.line_count(), 1000);
    // Line 11 holds "10"; lines 1 to 10 take two bytes each.
    assert_eq!(source.line_of(SourcePos::new(id, 20)), 11);
    assert_eq!(source.text_of_span(source.span_of_line(11)), "10");
    assert_eq!(source.text_of_span(source.span_of_line(1000)), "999");
    assert_eq!(source.line_of(SourcePos::new(id, text.len() - 1)), 1000);
}
