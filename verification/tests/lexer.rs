use fern::lex::token::{TokenErrorTy, TokenTree, TokenType};
use fern::lex::{find_errors, lex_source, lex_tree};
use fern::source_map::{Source, SourceMap, Span};

fn map_with(text: &str) -> SourceMap {
    let mut sm = SourceMap::new();
    sm.add_source("test.fern".to_string(), text.to_string());
    sm
}

fn types(trees: &[TokenTree]) -> Vec<TokenType> {
    trees.iter().map(|tree| tree.ty()).collect()
}

fn texts<'a>(source: &'a Source, trees: &[TokenTree]) -> Vec<&'a str> {
    trees.iter().map(|tree| source.text_of_span(tree.span())).collect()
}

fn lex_types(text: &str) -> Vec<TokenType> {
    let sm = map_with(text);
    types(&lex_tree(&sm.sources()[0]))
}

fn lex_texts(text: &str) -> Vec<String> {
    let sm = map_with(text);
    let source = &sm.sources()[0];
    texts(source, &lex_tree(source)).into_iter().map(|s| s.to_string()).collect()
}

#[test]
fn function_header_lexes_to_two_groups() {
    let sm = map_with("fn f(x: i32) -> i32 { }");
    let source = &sm.sources()[0];
    let tokens = lex_source(source).expect("no error token");
    assert_eq!(
        types(&tokens),
        vec![
            TokenType::Fn,
            TokenType::Ident,
            TokenType::Parens,
            TokenType::RArrow,
            TokenType::Ident,
            TokenType::CurlyBrackets,
        ]
    );
    assert_eq!(texts(source, &tokens), vec!["fn", "f", "(x: i32)", "->", "i32", "{ }"]);
    let args = tokens[2].children();
    assert_eq!(types(args), vec![TokenType::Ident, TokenType::Colon, TokenType::Ident]);
    assert_eq!(texts(source, args), vec!["x", ":", "i32"]);
    assert!(tokens[5].children().is_empty());
    for token in tokens.iter().chain(args.iter()) {
        assert!(!matches!(token.ty(), TokenType::Error(_)));
    }
    let nodes = tokens.iter().filter(|token| token.ty().is_nested()).count();
    assert_eq!(nodes, 2);
}

#[test]
fn mismatched_closer_builds_the_node_with_an_error_child() {
    let sm = map_with("(]");
    let source = &sm.sources()[0];
    let tokens = lex_tree(source);
    assert_eq!(tokens.len(), 1);
    let node = &tokens[0];
    assert_eq!(node.ty(), TokenType::Parens);
    assert_eq!(node.span(), source.span(0, 2));
    let children = node.children();
    assert_eq!(children.len(), 1);
    let last = &children[children.len() - 1];
    assert_eq!(
        last.ty(),
        TokenType::Error(TokenErrorTy::MismatchedParenTy { open_span: source.span(0, 1) })
    );
    assert_eq!(last.span(), source.span(1, 2));
    assert_eq!(source.text_of_span(last.span()), "]");
    assert!(last.children().is_empty());
}

#[test]
fn mismatched_closer_keeps_the_children() {
    let sm = map_with("{ a b )");
    let source = &sm.sources()[0];
    let tokens = lex_tree(source);
    assert_eq!(types(&tokens), vec![TokenType::CurlyBrackets]);
    let children = tokens[0].children();
    assert_eq!(
        types(children),
        vec![
            TokenType::Ident,
            TokenType::Ident,
            TokenType::Error(TokenErrorTy::MismatchedParenTy { open_span: source.span(0, 1) }),
        ]
    );
    assert_eq!(texts(source, children), vec!["a", "b", ")"]);
}

#[test]
fn lone_closer_is_one_error_leaf() {
    let sm = map_with("}");
    let source = &sm.sources()[0];
    let tokens = lex_tree(source);
    assert_eq!(tokens.len(), 1);
    assert_eq!(tokens[0].ty(), TokenType::Error(TokenErrorTy::UnmatchedCloseParen));
    assert_eq!(tokens[0].span(), source.span(0, 1));
    assert!(tokens[0].children().is_empty());
    assert_eq!(tokens.iter().filter(|token| token.ty().is_nested()).count(), 0);
}

#[test]
fn lone_closer_leaves_the_level_unchanged() {
    let sm = map_with("a ) b ( c )");
    let source = &sm.sources()[0];
    let tokens = lex_tree(source);
    assert_eq!(
        types(&tokens),
        vec![
            TokenType::Ident,
            TokenType::Error(TokenErrorTy::UnmatchedCloseParen),
            TokenType::Ident,
            TokenType::Parens,
        ]
    );
    assert_eq!(texts(source, tokens[3].children()), vec!["c"]);
}

#[test]
fn unclosed_opener_becomes_an_error_before_its_children() {
    let sm = map_with("a ( b c");
    let source = &sm.sources()[0];
    let tokens = lex_tree(source);
    assert_eq!(
        types(&tokens),
        vec![
            TokenType::Ident,
            TokenType::Error(TokenErrorTy::UnmatchedOpenParen),
            TokenType::Ident,
            TokenType::Ident,
        ]
    );
    assert_eq!(texts(source, &tokens), vec!["a", "(", "b", "c"]);
}

#[test]
fn unclosed_openers_unwind_from_the_innermost() {
    let sm = map_with("a ( b [ c { } d");
    let source = &sm.sources()[0];
    let tokens = lex_tree(source);
    assert_eq!(
        types(&tokens),
        vec![
            TokenType::Ident,
            TokenType::Error(TokenErrorTy::UnmatchedOpenParen),
            TokenType::Ident,
            TokenType::Error(TokenErrorTy::UnmatchedOpenParen),
            TokenType::Ident,
            TokenType::CurlyBrackets,
            TokenType::Ident,
        ]
    );
    assert_eq!(texts(source, &tokens), vec!["a", "(", "b", "[", "c", "{ }", "d"]);
}

#[test]
fn groups_nest() {
    let sm = map_with("([{}] ())");
    let source = &sm.sources()[0];
    let tokens = lex_source(source).expect("no error token");
    assert_eq!(types(&tokens), vec![TokenType::Parens]);
    assert_eq!(tokens[0].span(), source.span(0, 9));
    let inner = tokens[0].children();
    assert_eq!(types(inner), vec![TokenType::Brackets, TokenType::Parens]);
    assert_eq!(types(inner[0].children()), vec![TokenType::CurlyBrackets]);
    assert_eq!(inner[0].span(), source.span(1, 5));
    assert_eq!(inner[1].span(), source.span(6, 8));
}

#[test]
fn empty_and_blank_texts_have_no_tokens() {
    assert!(lex_types("").is_empty());
    assert!(lex_types(" \t\r\n\x0C").is_empty());
    assert!(lex_types("// only a comment").is_empty());
    assert!(lex_types("// one\n// two\n").is_empty());
}

#[test]
fn comments_run_to_the_end_of_the_line() {
    assert_eq!(lex_texts("a // b c\nd"), vec!["a", "d"]);
    assert_eq!(lex_texts("a //( é } \nd"), vec!["a", "d"]);
    assert_eq!(lex_texts("a // no newline"), vec!["a"]);
    assert_eq!(lex_texts("a / / b"), vec!["a", "/", "/", "b"]);
    assert_eq!(lex_types("a /// b"), vec![TokenType::Ident]);
}

#[test]
fn vertical_tab_is_not_whitespace() {
    assert_eq!(lex_types("\x0B"), vec![TokenType::Error(TokenErrorTy::IllegalChar)]);
}

#[test]
fn integer_literals_are_runs_of_digits() {
    assert_eq!(lex_types("0 123 0099"), vec![TokenType::IntLit; 3]);
    assert_eq!(lex_texts("0 123 0099"), vec!["0", "123", "0099"]);
    assert_eq!(lex_types("12ab"), vec![TokenType::IntLit, TokenType::Ident]);
    assert_eq!(lex_texts("12ab"), vec!["12", "ab"]);
}

#[test]
fn identifiers_and_keywords() {
    assert_eq!(
        lex_types("fn let if while for"),
        vec![TokenType::Fn, TokenType::Let, TokenType::If, TokenType::While, TokenType::For]
    );
    assert_eq!(lex_types("fnx Fn _ _a1 forx whil i f0"), vec![TokenType::Ident; 8]);
    assert_eq!(lex_texts("a_b1+c"), vec!["a_b1", "+", "c"]);
}

#[test]
fn operators_with_and_without_lookahead() {
    assert_eq!(
        lex_types("-> - == = != ! && || <= < >= > + * / ; : ,"),
        vec![
            TokenType::RArrow,
            TokenType::Minus,
            TokenType::EqEq,
            TokenType::Eq,
            TokenType::NotEq,
            TokenType::Not,
            TokenType::AndAnd,
            TokenType::OrOr,
            TokenType::Lte,
            TokenType::Lt,
            TokenType::Gte,
            TokenType::Gt,
            TokenType::Plus,
            TokenType::Mul,
            TokenType::Div,
            TokenType::Semicolon,
            TokenType::Colon,
            TokenType::Comma,
        ]
    );
    assert_eq!(lex_texts("a->b"), vec!["a", "->", "b"]);
    assert_eq!(lex_texts("==="), vec!["==", "="]);
    assert_eq!(lex_texts("<=>"), vec!["<=", ">"]);
    assert_eq!(lex_texts("- >"), vec!["-", ">"]);
    assert_eq!(lex_texts("-"), vec!["-"]);
    assert_eq!(lex_texts("!"), vec!["!"]);
}

#[test]
fn single_ampersand_and_bar_are_illegal() {
    let illegal = TokenType::Error(TokenErrorTy::IllegalChar);
    assert_eq!(lex_types("&"), vec![illegal]);
    assert_eq!(lex_types("|"), vec![illegal]);
    assert_eq!(lex_types("& &"), vec![illegal, illegal]);
    assert_eq!(lex_types("&|"), vec![illegal, illegal]);
    assert_eq!(lex_types("&&&"), vec![TokenType::AndAnd, illegal]);
}

#[test]
fn illegal_character_covers_one_character() {
    let sm = map_with("a $ é€😀b");
    let source = &sm.sources()[0];
    let tokens = lex_tree(source);
    let illegal = TokenType::Error(TokenErrorTy::IllegalChar);
    assert_eq!(
        types(&tokens),
        vec![TokenType::Ident, illegal, illegal, illegal, illegal, TokenType::Ident]
    );
    assert_eq!(texts(source, &tokens), vec!["a", "$", "é", "€", "😀", "b"]);
    assert_eq!(tokens[2].span(), source.span(4, 6));
    assert_eq!(tokens[3].span(), source.span(6, 9));
    assert_eq!(tokens[4].span(), source.span(9, 13));
}

#[test]
fn lex_source_gives_tokens_or_diagnostics() {
    let sm = map_with("let x = (1 + 2);");
    let tokens = lex_source(&sm.sources()[0]).expect("no error token");
    assert_eq!(tokens.len(), 5);

    let sm = map_with("let x = (1 + $);");
    let errors = lex_source(&sm.sources()[0]).expect_err("an error token");
    assert_eq!(errors.len(), 1);
    assert_eq!(errors[0].msg(), "Illegal character `$`.");
}

#[test]
fn errors_are_harvested_children_first() {
    let sm = map_with("$ ( # ] } { @");
    let source = &sm.sources()[0];
    let errors = lex_source(source).expect_err("error tokens");
    let messages: Vec<&str> = errors.iter().map(|error| error.msg()).collect();
    assert_eq!(
        messages,
        vec![
            "Illegal character `$`.",
            "Illegal character `#`.",
            "Mismatched closing delimiter `]`.",
            "Unexpected closing delimiter `}`.",
            "Unclosed delimiter `{`.",
            "Illegal character `@`.",
        ]
    );
}

#[test]
fn find_errors_appends_to_what_is_there() {
    let sm = map_with("a ) b");
    let source = &sm.sources()[0];
    let tokens = lex_tree(source);
    let mut errors = Vec::new();
    find_errors(&tokens, source, &mut errors);
    find_errors(&tokens, source, &mut errors);
    assert_eq!(errors.len(), 2);
    assert_eq!(errors[0].msg(), "Unexpected closing delimiter `)`.");
    assert_eq!(errors[1].msg(), "Unexpected closing delimiter `)`.");
}

#[test]
fn each_error_has_its_diagnostic() {
    let sm = map_with("? ( ] ) [");
    let source = &sm.sources()[0];
    let errors = lex_source(source).expect_err("error tokens");
    assert_eq!(errors.len(), 4);

    assert_eq!(errors[0].msg(), "Illegal character `?`.");
    assert_eq!(errors[0].part_count(), 1);
    assert_eq!(errors[0].part(0).span(), source.span(0, 1));
    assert_eq!(errors[0].part(0).help(), "");

    assert_eq!(errors[1].msg(), "Mismatched closing delimiter `]`.");
    assert_eq!(errors[1].part_count(), 2);
    assert_eq!(errors[1].part(0).span(), source.span(2, 3));
    assert_eq!(errors[1].part(0).help(), "unclosed delimiter");
    assert_eq!(errors[1].part(1).span(), source.span(4, 5));
    assert_eq!(errors[1].part(1).help(), "mismatched closing delimiter");

    assert_eq!(errors[2].msg(), "Unexpected closing delimiter `)`.");
    assert_eq!(errors[2].part_count(), 1);
    assert_eq!(errors[2].part(0).span(), source.span(6, 7));
    assert_eq!(errors[2].part(0).help(), "has no match");

    assert_eq!(errors[3].msg(), "Unclosed delimiter `[`.");
    assert_eq!(errors[3].part_count(), 1);
    assert_eq!(errors[3].part(0).span(), source.span(8, 9));
    assert_eq!(errors[3].part(0).help(), "has no match");
}

fn shape(tree: &TokenTree, out: &mut Vec<(TokenType, usize, usize, usize)>) {
    let ty = match tree.ty() {
        TokenType::Error(TokenErrorTy::MismatchedParenTy { open_span }) => {
            out.push((TokenType::Ident, open_span.start().byte(), open_span.end().byte(), 0));
            TokenType::Error(TokenErrorTy::IllegalChar)
        }
        ty => ty,
    };
    out.push((ty, tree.span().start().byte(), tree.span().end().byte(), tree.children().len()));
    for child in tree.children() {
        shape(child, out);
    }
}

#[test]
fn lexing_the_same_text_again_gives_the_same_trees() {
    let text = "fn f(x: i32) -> i32 { a [ b ) $ // c\n } ] (";
    let sm = map_with(text);
    let mut other = SourceMap::new();
    other.add_source("first.fern".to_string(), "unrelated".to_string());
    let id = other.add_source("second.fern".to_string(), text.to_string());
    assert_ne!(sm.sources()[0].id(), id);

    let first = lex_tree(&sm.sources()[0]);
    let second = lex_tree(other.get_source(id));
    let again = lex_tree(&sm.sources()[0]);
    let mut first_shape = Vec::new();
    let mut second_shape = Vec::new();
    let mut again_shape = Vec::new();
    for tree in &first {
        shape(tree, &mut first_shape);
        assert_eq!(tree.span().src_id(), sm.sources()[0].id());
    }
    for tree in &second {
        shape(tree, &mut second_shape);
        assert_eq!(tree.span().src_id(), id);
    }
    for tree in &again {
        shape(tree, &mut again_shape);
    }
    assert!(first_shape.len() > 10);
    assert_eq!(first_shape, second_shape);
    assert_eq!(first_shape, again_shape);
}

fn is_skipped(text: &str) -> bool {
    text.lines().all(|line| match line.find("//") {
        Some(at) => line[..at].trim().is_empty(),
        None => line.trim().is_empty(),
    })
}

#[test]
fn top_level_spans_tile_the_text() {
    let text = " // start\nfn f ( a , b ) // tail\n\t-> x { } ) [ $ é\n// end";
    let sm = map_with(text);
    let source = &sm.sources()[0];
    let tokens = lex_tree(source);
    let mut joined = String::new();
    let mut at = 0;
    for token in &tokens {
        let range = token.span().byte_range();
        assert!(at <= range.start);
        assert!(range.start < range.end);
        assert!(is_skipped(&text[at..range.start]));
        joined.push_str(source.text_of_span(token.span()));
        at = range.end;
    }
    assert!(is_skipped(&text[at..]));
    assert_eq!(joined, "fnf( a , b )->x{ })[$é");
}

fn check_balance(source: &Source, tree: &TokenTree) {
    if tree.ty().is_nested() {
        let text = source.text_of_span(tree.span());
        let open = text.chars().next().unwrap();
        let close = text.chars().last().unwrap();
        assert!(text.len() >= 2);
        assert!(matches!(open, '(' | '[' | '{'));
        assert!(matches!(close, ')' | ']' | '}'));
        assert_eq!(TokenType::new_from_paren(open), tree.ty());
        let mismatched = matches!(
            tree.children().last().map(|child| child.ty()),
            Some(TokenType::Error(TokenErrorTy::MismatchedParenTy { .. }))
        );
        assert_eq!(TokenType::new_from_paren(close) != tree.ty(), mismatched);
    } else {
        assert!(tree.children().is_empty());
    }
    for child in tree.children() {
        check_balance(source, child);
    }
}

#[test]
fn nodes_start_and_end_with_delimiters() {
    let sm = map_with("( a [ b } c ) { ( ) ] [ ( { } ) ] ) ( [");
    let source = &sm.sources()[0];
    let tokens = lex_tree(source);
    assert!(tokens.iter().any(|token| token.ty().is_nested()));
    for token in &tokens {
        check_balance(source, token);
    }
}

#[test]
fn token_type_of_each_delimiter() {
    assert_eq!(TokenType::new_from_paren('('), TokenType::Parens);
    assert_eq!(TokenType::new_from_paren(')'), TokenType::Parens);
    assert_eq!(TokenType::new_from_paren('['), TokenType::Brackets);
    assert_eq!(TokenType::new_from_paren(']'), TokenType::Brackets);
    assert_eq!(TokenType::new_from_paren('{'), TokenType::CurlyBrackets);
    assert_eq!(TokenType::new_from_paren('}'), TokenType::CurlyBrackets);
    assert!(TokenType::Parens.is_nested());
    assert!(TokenType::Brackets.is_nested());
    assert!(TokenType::CurlyBrackets.is_nested());
    assert!(!TokenType::Ident.is_nested());
    assert!(!TokenType::Error(TokenErrorTy::UnmatchedOpenParen).is_nested());
}

#[test]
fn token_trees_are_built_from_their_parts() {
    let sm = map_with("(a)");
    let source = &sm.sources()[0];
    let leaf = TokenTree::new(TokenType::Ident, source.span(1, 2));
    assert_eq!(leaf.ty(), TokenType::Ident);
    assert_eq!(leaf.span(), source.span(1, 2));
    assert!(leaf.children().is_empty());
    assert_eq!(leaf.token().ty(), TokenType::Ident);
    assert_eq!(leaf.token().span(), source.span(1, 2));

    let error = TokenTree::new_error(TokenErrorTy::IllegalChar, source.span(0, 1));
    assert_eq!(error.ty(), TokenType::Error(TokenErrorTy::IllegalChar));
    assert_eq!(error.span(), source.span(0, 1));

    let node = TokenTree::new_nested(TokenType::Parens, source.span(0, 3), vec![leaf, error]);
    assert_eq!(node.ty(), TokenType::Parens);
    assert_eq!(node.span(), source.span(0, 3));
    assert_eq!(node.children().len(), 2);
    assert_eq!(node.children()[0].ty(), TokenType::Ident);
    assert_eq!(node.children()[1].span(), source.span(0, 1));
}

#[test]
fn node_span_is_the_union_of_its_delimiters() {
    let sm = map_with("a ( b ) c");
    let source = &sm.sources()[0];
    let tokens = lex_tree(source);
    let union = Span::union(source.span(2, 3), source.span(6, 7));
    assert_eq!(tokens[1].span(), union);
}
