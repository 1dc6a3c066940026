use fern::pipeline::{pipeline, render_all};
use fern::source_map::SourceMap;

#[test]
fn pipeline_of_no_source() {
    let sm = SourceMap::new();
    let mut out = String::new();
    assert!(pipeline(&sm, &mut out).is_ok());
    assert_eq!(out, "");
}

#[test]
fn pipeline_dumps_each_source_on_lines_of_its_own() {
    let mut sm = SourceMap::new();
    sm.add_source("a.fern".to_string(), "fn a() {}".to_string());
    sm.add_source("b.fern".to_string(), "".to_string());
    let mut out = String::from("# ");
    assert!(pipeline(&sm, &mut out).is_ok());
    let expected = "# File {
  filename: a.fern
  declarations: [
    FnDecl {
      name: a
      args: []
      ret_ty: ()
      body: Block
    }
  ]
}
File {
  filename: b.fern
  declarations: []
}
";
    assert_eq!(out, expected);
}

#[test]
fn pipeline_collects_the_errors_of_all_sources() {
    let mut sm = SourceMap::new();
    sm.add_source("a.fern".to_string(), "fn a( {}".to_string());
    sm.add_source("b.fern".to_string(), "fn b() {}".to_string());
    sm.add_source("c.fern".to_string(), "$ }".to_string());
    let mut out = String::new();
    let errors = pipeline(&sm, &mut out).expect_err("two sources with errors");
    let messages: Vec<&str> = errors.iter().map(|error| error.msg()).collect();
    assert_eq!(
        messages,
        vec![
            "Unclosed delimiter `(`.",
            "Illegal character `$`.",
            "Unexpected closing delimiter `}`.",
        ]
    );
    // The source without errors is dumped all the same.
    assert!(out.starts_with("File {\n  filename: b.fern\n"));
    assert!(out.ends_with("}\n"));
    assert!(!out.contains("a.fern"));
    for error in &errors {
        assert!(error.can_render(&sm));
    }
}

#[test]
fn render_all_separates_the_reports() {
    let mut sm = SourceMap::new();
    sm.add_source("a.fern".to_string(), "a\n $ \n)".to_string());
    let mut out = String::new();
    let errors = pipeline(&sm, &mut out).expect_err("errors");
    assert_eq!(out, "");
    assert_eq!(errors.len(), 2);

    let mut first = String::new();
    errors[0].render(&mut first, &sm);
    let mut second = String::new();
    errors[1].render(&mut second, &sm);

    let mut report = String::from("report:\n");
    render_all(&errors, &mut report, &sm);
    assert_eq!(report, format!("report:\n{}\n{}\n", first, second));
    assert!(first.contains("a.fern:2:2"));
    assert!(second.contains("a.fern:3:1"));

    let mut nothing = String::new();
    render_all(&[], &mut nothing, &sm);
    assert_eq!(nothing, "");
}

#[test]
fn pipeline_collects_syntax_errors_too() {
    let mut sm = SourceMap::new();
    sm.add_source("a.fern".to_string(), "fn a()".to_string());
    sm.add_source("b.fern".to_string(), "fn b() {}".to_string());
    sm.add_source("c.fern".to_string(), "$ fn".to_string());
    let mut out = String::new();
    let errors = pipeline(&sm, &mut out).expect_err("two sources with errors");
    let messages: Vec<&str> = errors.iter().map(|error| error.msg()).collect();
    // The third source has a lexical error: its syntax is not looked at.
    assert_eq!(messages, vec!["Expected a block.", "Illegal character `$`."]);
    assert!(out.starts_with("File {\n  filename: b.fern\n"));
    assert!(!out.contains("a.fern"));
    let mut report = String::new();
    render_all(&errors, &mut report, &sm);
    assert!(report.contains("a.fern:1:7"));
    assert!(report.contains("c.fern:1:1"));
}
