use fern::diagnostics::render::{render, DiagWriter};
use fern::diagnostics::specifics::parse::{expected, Found};
use fern::diagnostics::Diagnostic;
use fern::lex::lex_tree;
use fern::lex::token::TokenType;
use fern::parse::ast::{DeclarationAst, FileAst, FnDeclAst};
use fern::parse::{
    parse_block, parse_decl, parse_file, parse_fn, parse_fn_arg, parse_fn_args,
    parse_fn_return_ty, parse_source, parse_ty, Cursor, SyncStatus,
};
use fern::source_map::{Source, SourceMap};

type Decl = (String, Vec<(String, String)>, Option<String>);

/// Message, annotation and marked bytes of a diagnostic with at most one part.
type Report = (String, String, Option<(usize, usize)>);

fn map_with(text: &str) -> SourceMap {
    let mut sm = SourceMap::new();
    sm.add_source("test.fern".to_string(), text.to_string());
    sm
}

fn describe(source: &Source, decl: &FnDeclAst) -> Decl {
    assert_eq!(source.text_of_span(decl.fn_kw), "fn");
    assert!(decl.body.statements.is_empty());
    assert!(decl.body.return_expr.is_none());
    let args = decl
        .args
        .iter()
        .map(|arg| {
            assert_eq!(source.text_of_span(arg.colon), ":");
            (
                source.text_of_span(arg.name).to_string(),
                source.text_of_span(arg.ty.name_ident).to_string(),
            )
        })
        .collect();
    let return_ty = decl.return_ty.as_ref().map(|return_ty| {
        assert_eq!(source.text_of_span(return_ty.r_arrow), "->");
        source.text_of_span(return_ty.ty.name_ident).to_string()
    });
    (source.text_of_span(decl.name_ident).to_string(), args, return_ty)
}

fn decls_of(source: &Source, file: &FileAst) -> Vec<Decl> {
    file.declarations
        .iter()
        .map(|decl| match decl {
            DeclarationAst::FnDecl(decl) => describe(source, decl),
        })
        .collect()
}

fn report_of(diagnostic: &Diagnostic) -> Report {
    assert!(diagnostic.part_count() <= 1);
    if diagnostic.part_count() == 0 {
        (diagnostic.msg().to_string(), String::new(), None)
    } else {
        let part = diagnostic.part(0);
        let range = part.span().byte_range();
        (diagnostic.msg().to_string(), part.help().to_string(), Some((range.start, range.end)))
    }
}

fn fn_decls(text: &str) -> Vec<Decl> {
    let sm = map_with(text);
    let source = &sm.sources()[0];
    let file = parse_source(source).expect("no error");
    decls_of(source, &file)
}

fn syntax_errors(text: &str) -> Vec<Report> {
    let sm = map_with(text);
    let source = &sm.sources()[0];
    assert!(fern::lex::lex_source(source).is_ok());
    let errors = parse_source(source).expect_err("a syntax error");
    assert!(!errors.is_empty());
    for error in &errors {
        assert!(error.can_render(&sm));
    }
    errors.iter().map(report_of).collect()
}

/// The declarations that are read and what is reported, by the parser alone.
fn parts_of(text: &str) -> (Vec<Decl>, Vec<Report>) {
    let sm = map_with(text);
    let source = &sm.sources()[0];
    let tokens = lex_tree(source);
    let mut cursor = Cursor::new(&tokens);
    let mut diags = Vec::new();
    let file = parse_file(&mut cursor, &mut diags).unwrap();
    assert!(cursor.is_eof());
    (decls_of(source, &file), diags.iter().map(report_of).collect())
}

fn decl(name: &str, args: &[(&str, &str)], return_ty: Option<&str>) -> Decl {
    (
        name.to_string(),
        args.iter().map(|(name, ty)| (name.to_string(), ty.to_string())).collect(),
        return_ty.map(|ty| ty.to_string()),
    )
}

fn unexpected(msg: &str, start: usize, end: usize) -> Report {
    (msg.to_string(), "unexpected token".to_string(), Some((start, end)))
}

fn at_end(msg: &str, at: usize) -> Report {
    (msg.to_string(), "expected here".to_string(), Some((at, at)))
}

#[test]
fn parses_a_function() {
    assert_eq!(
        fn_decls("fn f(x: i32) -> i32 { }"),
        vec![decl("f", &[("x", "i32")], Some("i32"))]
    );
}

#[test]
fn parses_functions_one_after_the_other() {
    assert_eq!(
        fn_decls("fn a() {}\nfn b(x: u8, y: u16,) -> u32 { x }\nfn c(z: T) {}"),
        vec![
            decl("a", &[], None),
            decl("b", &[("x", "u8"), ("y", "u16")], Some("u32")),
            decl("c", &[("z", "T")], None),
        ]
    );
}

#[test]
fn empty_file_has_no_declarations() {
    assert!(fn_decls("").is_empty());
    assert!(fn_decls("// nothing\n").is_empty());
}

#[test]
fn contents_of_a_block_are_not_read() {
    assert_eq!(fn_decls("fn f() { 1 + + ; let }"), vec![decl("f", &[], None)]);
}

#[test]
fn keyword_alone_reports_all_that_is_missing() {
    assert_eq!(
        syntax_errors("fn"),
        vec![
            at_end("Expected the name of the function.", 2),
            at_end("Expected the arguments of the function.", 2),
            at_end("Expected a block.", 2),
        ]
    );
}

#[test]
fn missing_block_is_reported() {
    assert_eq!(syntax_errors("fn f()"), vec![at_end("Expected a block.", 6)]);
    assert_eq!(syntax_errors("fn f() -> u8 "), vec![at_end("Expected a block.", 12)]);
    // The token in its place is skipped with the declaration.
    assert_eq!(syntax_errors("fn f() ;"), vec![unexpected("Expected a block.", 7, 8)]);
}

#[test]
fn missing_name_is_reported_at_the_token_in_its_place() {
    // A group is marked by its opening delimiter.
    assert_eq!(
        syntax_errors("fn (x: u8) {} fn g() {}"),
        vec![unexpected("Expected the name of the function.", 3, 4)]
    );
    // Nothing is consumed for the name, so the same token stands where
    // the arguments and the block are expected.
    assert_eq!(
        syntax_errors("fn 12() {}"),
        vec![
            unexpected("Expected the name of the function.", 3, 5),
            unexpected("Expected the arguments of the function.", 3, 5),
            unexpected("Expected a block.", 3, 5),
        ]
    );
}

#[test]
fn missing_arguments_are_reported() {
    assert_eq!(
        syntax_errors("fn f {} fn g() {}"),
        vec![unexpected("Expected the arguments of the function.", 5, 6)]
    );
}

#[test]
fn missing_return_type_is_reported() {
    assert_eq!(
        syntax_errors("fn f() -> {} fn g() {}"),
        vec![unexpected("Expected a type.", 10, 11)]
    );
    assert_eq!(
        syntax_errors("fn f() ->"),
        vec![at_end("Expected a type.", 9), at_end("Expected a block.", 9)]
    );
}

#[test]
fn missing_comma_is_reported() {
    assert_eq!(
        syntax_errors("fn f(x: u8 y: u8) {} fn g() {}"),
        vec![unexpected("Expected `,`.", 11, 12)]
    );
}

#[test]
fn argument_that_fails_is_reported_and_skipped_to_the_next_comma() {
    assert_eq!(syntax_errors("fn f(x u8, y: u16) {}"), vec![unexpected("Expected `:`.", 7, 9)]);
    assert_eq!(syntax_errors("fn f(x: , y: u16) {}"), vec![unexpected("Expected a type.", 8, 9)]);
    assert_eq!(
        syntax_errors("fn f(1 2 3, y: u16, : z) {}"),
        vec![
            unexpected("Expected the name of an argument.", 5, 6),
            unexpected("Expected the name of an argument.", 20, 21),
        ]
    );
    assert_eq!(syntax_errors("fn f(x) {}"), vec![at_end("Expected `:`.", 6)]);
    assert_eq!(syntax_errors("fn f(x:) {}"), vec![at_end("Expected a type.", 7)]);
    assert_eq!(
        syntax_errors("fn f(,) {}"),
        vec![unexpected("Expected the name of an argument.", 5, 6)]
    );
    // The arguments that do not fail are read all the same.
    assert_eq!(
        parts_of("fn f(x u8, y: u16) {}"),
        (vec![decl("f", &[("y", "u16")], None)], vec![unexpected("Expected `:`.", 7, 9)])
    );
}

#[test]
fn tokens_that_start_no_declaration_are_reported_and_skipped() {
    assert_eq!(
        syntax_errors("x + 1; let fn g() {} ; ;"),
        vec![
            unexpected("Expected a declaration.", 0, 1),
            unexpected("Expected a declaration.", 21, 22),
        ]
    );
    assert_eq!(syntax_errors("a b c"), vec![unexpected("Expected a declaration.", 0, 1)]);
    assert_eq!(
        parts_of("x + 1; let fn g() {} ; ;").0,
        vec![decl("g", &[], None)]
    );
}

#[test]
fn one_pass_reports_several_errors() {
    let (decls, reports) = parts_of("fn f(a b, c) -> fn g fn h(x: T) {}");
    assert_eq!(decls, vec![decl("h", &[("x", "T")], None)]);
    assert_eq!(
        reports,
        vec![
            unexpected("Expected `:`.", 7, 8),
            at_end("Expected `:`.", 11),
            unexpected("Expected a type.", 16, 18),
            unexpected("Expected a block.", 16, 18),
            unexpected("Expected the arguments of the function.", 21, 23),
            unexpected("Expected a block.", 21, 23),
        ]
    );
    assert_eq!(syntax_errors("fn f(a b, c) -> fn g fn h(x: T) {}"), reports);
}

#[test]
fn no_file_comes_back_with_diagnostics() {
    for text in ["fn", "fn f()", "fn f() {} x", "x fn f() {}", "fn f(a) {}"] {
        let sm = map_with(text);
        let result = parse_source(&sm.sources()[0]);
        assert!(matches!(&result, Err(errors) if !errors.is_empty()));
    }
    for text in ["", "fn f() {}", "fn f(a: b,) -> c {} fn g() {}"] {
        let sm = map_with(text);
        assert!(parse_source(&sm.sources()[0]).is_ok());
    }
}

#[test]
fn error_inside_arguments_does_not_desynchronize_the_declaration() {
    // The outer cursor stands behind the whole group whatever it holds.
    let (decls, reports) = parts_of("fn f(x: u8 y) -> r {} fn g(a: b) {}");
    assert_eq!(decls, vec![decl("g", &[("a", "b")], None)]);
    assert_eq!(reports, vec![unexpected("Expected `,`.", 11, 12)]);

    let sm = map_with("fn f(x: u8 y) -> r {} fn g(a: b) {}");
    let tokens = lex_tree(&sm.sources()[0]);
    let mut cursor = Cursor::new(&tokens);
    let mut diags = Vec::new();
    assert_eq!(parse_decl(&mut cursor, &mut diags).unwrap_err(), SyncStatus::Synced);
    assert_eq!(cursor.position(), 6);
    assert!(cursor.peek_is(TokenType::Fn));
    assert_eq!(diags.len(), 1);
    assert!(parse_decl(&mut cursor, &mut diags).is_ok());
    assert!(cursor.is_eof());
    assert_eq!(diags.len(), 1);
}

#[test]
fn lexical_errors_come_back_unchanged() {
    let sm = map_with("fn f( { $");
    let source = &sm.sources()[0];
    let errors = parse_source(source).expect_err("lexical errors");
    let messages: Vec<&str> = errors.iter().map(|error| error.msg()).collect();
    assert_eq!(
        messages,
        vec!["Unclosed delimiter `(`.", "Unclosed delimiter `{`.", "Illegal character `$`."]
    );
    let lexed = fern::lex::lex_source(source).expect_err("lexical errors");
    assert_eq!(lexed.len(), errors.len());
    for (a, b) in lexed.iter().zip(errors.iter()) {
        assert_eq!(a.msg(), b.msg());
        assert_eq!(a.part_count(), b.part_count());
    }
    // Where the lexer reports, the parser does not run.
    let sm = map_with("x $");
    let errors = parse_source(&sm.sources()[0]).expect_err("a lexical error");
    assert_eq!(errors.len(), 1);
    assert_eq!(errors[0].msg(), "Illegal character `$`.");
}

fn render_plain(diagnostic: &Diagnostic, sm: &SourceMap) -> String {
    let mut writer = DiagWriter::new_plain(String::new());
    render(&mut writer, diagnostic, sm);
    writer.finish()
}

#[test]
fn syntax_errors_render() {
    let sm = map_with("fn main()\n\nfn g {\n}\n");
    let errors = parse_source(&sm.sources()[0]).expect_err("syntax errors");
    let mut report = String::new();
    for error in &errors {
        assert!(error.can_render(&sm));
        report.push_str(&render_plain(error, &sm));
    }
    // The group that stands for the block spans two lines; its opening
    // delimiter marks it.
    let expected = "error: Expected a block.\n \
        --> test.fern:3:1\n  \
        |\n\
        3 | fn g {\n  \
        | ^^ unexpected token\n\
        error: Expected the arguments of the function.\n \
        --> test.fern:3:6\n  \
        |\n\
        3 | fn g {\n  \
        |      ^ unexpected token\n";
    assert_eq!(report, expected);

    let sm = map_with("fn main()\n");
    let errors = parse_source(&sm.sources()[0]).expect_err("a syntax error");
    assert_eq!(errors.len(), 1);
    let expected = "error: Expected a block.\n \
        --> test.fern:1:10\n  \
        |\n\
        1 | fn main()\n  \
        |           expected here\n";
    assert_eq!(render_plain(&errors[0], &sm), expected);
}

#[test]
fn diagnostic_for_what_is_expected() {
    let sm = map_with("a b");
    let source = &sm.sources()[0];
    let token = expected("a type", Found::Token(source.span(2, 3)));
    assert_eq!(report_of(&token), unexpected("Expected a type.", 2, 3));
    let end = expected("`,`", Found::End(source.span(3, 3)));
    assert_eq!(report_of(&end), at_end("Expected `,`.", 3));
    let nothing = expected("a declaration", Found::Nothing);
    assert_eq!(nothing.msg(), "Expected a declaration.");
    assert_eq!(nothing.part_count(), 0);
}

#[test]
fn cursor_says_what_it_found() {
    let sm = map_with("a (b\n c) d");
    let source = &sm.sources()[0];
    let tokens = lex_tree(source);
    let mut cursor = Cursor::new(&tokens);
    assert_eq!(cursor.found(), Found::Token(source.span(0, 1)));
    cursor.pop();
    // A group is marked by its opening delimiter.
    assert_eq!(cursor.found(), Found::Token(source.span(2, 3)));
    cursor.pop();
    assert_eq!(cursor.found(), Found::Token(source.span(9, 10)));
    cursor.pop();
    assert_eq!(cursor.found(), Found::End(source.span(10, 10)));

    let none = Cursor::new(&[]);
    assert_eq!(none.found(), Found::Nothing);
    let mut diags = Vec::new();
    let mut none = Cursor::new(&[]);
    assert_eq!(parse_decl(&mut none, &mut diags).unwrap_err(), SyncStatus::Synced);
    assert_eq!(diags.len(), 1);
    assert_eq!(diags[0].msg(), "Expected a declaration.");
    assert_eq!(diags[0].part_count(), 0);
}

#[test]
fn cursor_peeks_and_pops() {
    let sm = map_with("fn f ( ) ;");
    let tokens = lex_tree(&sm.sources()[0]);
    assert_eq!(tokens.len(), 4);
    let mut cursor = Cursor::new(&tokens);
    assert_eq!(cursor.position(), 0);
    assert!(!cursor.is_eof());
    assert_eq!(cursor.peek().ty(), TokenType::Fn);
    assert!(cursor.peek_is(TokenType::Fn));
    assert!(!cursor.peek_is(TokenType::Ident));
    assert_eq!(cursor.position(), 0);

    assert_eq!(cursor.pop_assert(TokenType::Fn).ty(), TokenType::Fn);
    assert_eq!(cursor.position(), 1);

    assert!(cursor.pop_if(TokenType::Parens).is_none());
    assert_eq!(cursor.position(), 1);
    assert_eq!(cursor.pop_if(TokenType::Ident).map(|token| token.ty()), Some(TokenType::Ident));
    assert_eq!(cursor.position(), 2);

    assert_eq!(cursor.pop_expect(TokenType::Ident).unwrap_err(), SyncStatus::Unsynced);
    assert_eq!(cursor.position(), 2);
    assert_eq!(cursor.pop_expect(TokenType::Parens).unwrap().ty(), TokenType::Parens);
    assert_eq!(cursor.position(), 3);

    assert_eq!(cursor.pop().ty(), TokenType::Semicolon);
    assert_eq!(cursor.position(), 4);
    assert!(cursor.is_eof());
    assert!(!cursor.peek_is(TokenType::Semicolon));
    assert!(cursor.pop_if(TokenType::Semicolon).is_none());
    assert_eq!(cursor.pop_expect(TokenType::Semicolon).unwrap_err(), SyncStatus::Unsynced);
    assert_eq!(cursor.position(), 4);
}

#[test]
fn sync_to_stops_at_the_first_token_of_the_set() {
    let sm = map_with("a b , c fn d");
    let tokens = lex_tree(&sm.sources()[0]);
    let mut cursor = Cursor::new(&tokens);
    cursor.sync_to(&[TokenType::Fn, TokenType::Comma]);
    assert_eq!(cursor.position(), 2);
    // At a token of the set the cursor stays.
    cursor.sync_to(&[TokenType::Fn, TokenType::Comma]);
    assert_eq!(cursor.position(), 2);
    cursor.sync_to(&[TokenType::Fn]);
    assert_eq!(cursor.position(), 4);
    cursor.pop();
    cursor.sync_to(&[TokenType::Fn]);
    assert_eq!(cursor.position(), 6);
    assert!(cursor.is_eof());
    // At the end the cursor stays.
    cursor.sync_to(&[TokenType::Fn]);
    assert_eq!(cursor.position(), 6);
    cursor.sync_to(&[]);
    assert_eq!(cursor.position(), 6);
}

#[test]
fn sync_to_the_empty_set_runs_to_the_end() {
    let sm = map_with("a b c");
    let tokens = lex_tree(&sm.sources()[0]);
    let mut cursor = Cursor::new(&tokens);
    cursor.sync_to(&[]);
    assert!(cursor.is_eof());
    assert_eq!(cursor.position(), 3);
}

#[test]
fn declaration_loop_always_moves_forward() {
    let texts = [
        "fn",
        "fn fn fn",
        "a fn b fn (c) fn d() e",
        "fn f(x: u8) -> u8 {} fn",
        "; ; ;",
        "fn f -> -> fn g(a b, c) x y z fn h() {} {}",
    ];
    for text in texts {
        let sm = map_with(text);
        let tokens = lex_tree(&sm.sources()[0]);
        let mut cursor = Cursor::new(&tokens);
        let mut diags = Vec::new();
        let mut rounds = 0;
        while !cursor.is_eof() {
            let before = cursor.position();
            let reported = diags.len();
            let decl = parse_decl(&mut cursor, &mut diags);
            assert!(cursor.position() > before);
            assert!(cursor.position() <= tokens.len());
            // A declaration that fails reports it.
            assert!(decl.is_ok() || diags.len() > reported);
            rounds += 1;
        }
        assert!(rounds <= tokens.len());
    }
}

#[test]
fn parse_file_reads_to_the_end() {
    let (decls, reports) = parts_of("x fn a() {} fn b( fn c() {} y");
    // The second declaration has an unclosed delimiter, which the lexer
    // turns into an error token: its argument list is missing.
    assert_eq!(decls, vec![decl("a", &[], None), decl("c", &[], None)]);
    assert_eq!(
        reports,
        vec![
            unexpected("Expected a declaration.", 0, 1),
            unexpected("Expected the arguments of the function.", 16, 17),
            unexpected("Expected a block.", 16, 17),
            unexpected("Expected a declaration.", 28, 29),
        ]
    );
}

#[test]
fn parse_file_appends_to_the_diagnostics() {
    let sm = map_with("x");
    let tokens = lex_tree(&sm.sources()[0]);
    let mut diags = vec![Diagnostic::new("before".to_string())];
    let mut cursor = Cursor::new(&tokens);
    assert!(parse_file(&mut cursor, &mut diags).is_ok());
    assert_eq!(diags.len(), 2);
    assert_eq!(diags[0].msg(), "before");
    assert_eq!(diags[1].msg(), "Expected a declaration.");
}

#[test]
fn productions_say_where_they_stop() {
    let sm = map_with("x : T , y -> U { } fn");
    let source = &sm.sources()[0];
    let tokens = lex_tree(source);
    let mut diags = Vec::new();

    let mut cursor = Cursor::new(&tokens);
    let arg = parse_fn_arg(&mut cursor, &mut diags).unwrap();
    assert_eq!(source.text_of_span(arg.name), "x");
    assert_eq!(source.text_of_span(arg.ty.name_ident), "T");
    assert_eq!(cursor.position(), 3);
    assert!(diags.is_empty());

    // A comma is no argument: nothing is consumed.
    assert_eq!(parse_fn_arg(&mut cursor, &mut diags).unwrap_err(), SyncStatus::Unsynced);
    assert_eq!(cursor.position(), 3);
    assert_eq!(parse_ty(&mut cursor, &mut diags).unwrap_err(), SyncStatus::Unsynced);
    assert_eq!(parse_fn_args(&mut cursor, &mut diags).unwrap_err(), SyncStatus::Unsynced);
    assert!(parse_fn_return_ty(&mut cursor, &mut diags).unwrap().is_none());
    assert_eq!(parse_block(&mut cursor, &mut diags).unwrap_err(), SyncStatus::Unsynced);
    assert_eq!(cursor.position(), 3);
    let reports: Vec<Report> = diags.iter().map(report_of).collect();
    assert_eq!(
        reports,
        vec![
            unexpected("Expected the name of an argument.", 6, 7),
            unexpected("Expected a type.", 6, 7),
            unexpected("Expected the arguments of the function.", 6, 7),
            unexpected("Expected a block.", 6, 7),
        ]
    );
    diags.clear();

    cursor.pop();
    // A name without a colon: the name is consumed.
    assert_eq!(parse_fn_arg(&mut cursor, &mut diags).unwrap_err(), SyncStatus::Unsynced);
    assert_eq!(cursor.position(), 5);
    assert_eq!(diags.len(), 1);
    assert_eq!(report_of(&diags[0]), unexpected("Expected `:`.", 10, 12));
    diags.clear();

    let return_ty = parse_fn_return_ty(&mut cursor, &mut diags).unwrap().unwrap();
    assert_eq!(source.text_of_span(return_ty.ty.name_ident), "U");
    assert_eq!(cursor.position(), 7);

    assert!(parse_block(&mut cursor, &mut diags).is_ok());
    assert_eq!(cursor.position(), 8);
    assert!(diags.is_empty());

    // The keyword alone: the declaration fails behind it.
    assert_eq!(parse_fn(&mut cursor, &mut diags).unwrap_err(), SyncStatus::Unsynced);
    assert_eq!(cursor.position(), 9);
    assert!(cursor.is_eof());
    assert_eq!(diags.len(), 3);
}

#[test]
fn arrow_without_a_type_fails_behind_the_arrow() {
    let sm = map_with("-> 1");
    let tokens = lex_tree(&sm.sources()[0]);
    let mut cursor = Cursor::new(&tokens);
    let mut diags = Vec::new();
    assert_eq!(parse_fn_return_ty(&mut cursor, &mut diags).unwrap_err(), SyncStatus::Unsynced);
    assert_eq!(cursor.position(), 1);
    assert_eq!(diags.len(), 1);
    assert_eq!(report_of(&diags[0]), unexpected("Expected a type.", 3, 4));
}

#[test]
fn argument_list_uses_a_cursor_of_its_own() {
    let sm = map_with("(a: b, c: d) e");
    let source = &sm.sources()[0];
    let tokens = lex_tree(source);
    let mut cursor = Cursor::new(&tokens);
    let mut diags = Vec::new();
    let args = parse_fn_args(&mut cursor, &mut diags).unwrap();
    assert_eq!(args.len(), 2);
    assert_eq!(source.text_of_span(args[1].name), "c");
    assert_eq!(cursor.position(), 1);
    assert!(cursor.peek_is(TokenType::Ident));
    assert!(diags.is_empty());
}
