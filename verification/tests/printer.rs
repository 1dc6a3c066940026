use fern::parse::ast::FileAst;
use fern::parse::parse_source;
use fern::parse::visit::{pretty_print, PrettyPrintAst};
use fern::source_map::SourceMap;
use fern::utils::tree_writer::TreePrinter;

fn strings(items: &[&str]) -> Vec<String> {
    items.iter().map(|item| item.to_string()).collect()
}

#[test]
fn tree_without_fields() {
    assert_eq!(TreePrinter::start("Empty").finish(), "Empty {\n}");
}

#[test]
fn fields_are_indented_by_one_level() {
    let text = TreePrinter::start("Point").field("x", "1").field("y", "2").finish();
    assert_eq!(text, "Point {\n  x: 1\n  y: 2\n}");
}

#[test]
fn empty_list_stays_on_one_line() {
    let text = TreePrinter::start("T").field_list("items", &[]).finish();
    assert_eq!(text, "T {\n  items: []\n}");
}

#[test]
fn list_items_are_indented_by_two_levels() {
    let text = TreePrinter::start("T")
        .field_list("items", &strings(&["a", "b"]))
        .field("after", "x")
        .finish();
    assert_eq!(text, "T {\n  items: [\n    a\n    b\n  ]\n  after: x\n}");
}

#[test]
fn tree_as_a_field_is_indented_as_a_whole() {
    let inner = TreePrinter::start("Inner").field("a", "1").finish();
    let outer = TreePrinter::start("Outer").field("inner", &inner).finish();
    assert_eq!(outer, "Outer {\n  inner: Inner {\n    a: 1\n  }\n}");
    let list = TreePrinter::start("List").field_list("all", &[inner.clone(), inner]).finish();
    assert_eq!(
        list,
        "List {\n  all: [\n    Inner {\n      a: 1\n    }\n    Inner {\n      a: 1\n    }\n  ]\n}"
    );
}

#[test]
fn empty_lines_are_indented_too() {
    let text = TreePrinter::start("T").field("v", "a\n\nb\n").field("w", "").finish();
    assert_eq!(text, "T {\n  v: a\n  \n  b\n  \n  w: \n}");
}

#[test]
fn long_characters_pass_through() {
    let text = TreePrinter::start("é").field("€", "😀\né").finish();
    assert_eq!(text, "é {\n  €: 😀\n  é\n}");
}

fn parse(sm: &SourceMap) -> FileAst {
    parse_source(&sm.sources()[0]).expect("no lexical error")
}

#[test]
fn dump_of_an_empty_file() {
    let mut sm = SourceMap::new();
    sm.add_source("empty.fern".to_string(), "// nothing\n".to_string());
    let file = parse(&sm);
    let mut out = String::new();
    pretty_print(&file, &sm.sources()[0], &mut out);
    assert_eq!(out, "File {\n  filename: empty.fern\n  declarations: []\n}");
}

#[test]
fn dump_of_functions() {
    let mut sm = SourceMap::new();
    sm.add_source(
        "simple.fern".to_string(),
        "fn main() {}\nfn add(a: i32, b: i32) -> i32 { a + b }\n".to_string(),
    );
    let source = &sm.sources()[0];
    let file = parse(&sm);
    assert!(file.is_in_source(source));
    let mut out = String::from("> ");
    pretty_print(&file, source, &mut out);
    let expected = "> File {
  filename: simple.fern
  declarations: [
    FnDecl {
      name: main
      args: []
      ret_ty: ()
      body: Block
    }
    FnDecl {
      name: add
      args: [
        FnArg {
          name: a
          ty: i32
        }
        FnArg {
          name: b
          ty: i32
        }
      ]
      ret_ty: i32
      body: Block
    }
  ]
}";
    assert_eq!(out, expected);
}

#[test]
fn dump_of_each_node() {
    let mut sm = SourceMap::new();
    sm.add_source("a.fern".to_string(), "fn f(x: T) -> U {}".to_string());
    let source = &sm.sources()[0];
    let file = parse(&sm);
    let pp = PrettyPrintAst::new(source);
    let fern::parse::ast::DeclarationAst::FnDecl(decl) = &file.declarations[0];
    assert_eq!(pp.visit_ty(&decl.args[0].ty), "T");
    assert_eq!(pp.visit_fn_arg(&decl.args[0]), "FnArg {\n  name: x\n  ty: T\n}");
    assert_eq!(pp.visit_fn_ret_ty(&decl.return_ty), "U");
    assert_eq!(pp.visit_fn_ret_ty(&None), "()");
    assert_eq!(pp.visit_block(&decl.body), "Block");
    let text = pp.visit_fn_decl(decl);
    assert_eq!(text, pp.visit_decl(&file.declarations[0]));
    assert!(text.starts_with("FnDecl {\n  name: f\n  args: [\n    FnArg {\n"));
    assert!(pp.visit_file(&file).contains(&text.replace('\n', "\n    ")));
}

#[test]
fn syntax_tree_of_another_source_is_told_apart() {
    let mut sm = SourceMap::new();
    sm.add_source("a.fern".to_string(), "fn long_name() {}".to_string());
    sm.add_source("b.fern".to_string(), "fn f".to_string());
    let file = parse(&sm);
    assert!(file.is_in_source(&sm.sources()[0]));
    assert!(!file.is_in_source(&sm.sources()[1]));
}
