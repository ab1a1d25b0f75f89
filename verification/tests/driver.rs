use velari::driver::{compile, render_all, VERSION};
use velari::lexer::Span;

#[test]
fn version_is_current_release() {
    assert_eq!(format!("velari {}", VERSION), "velari 0.4.5-beta.3");
}

#[test]
fn check_accepts_a_valid_program() {
    assert!(compile("begin\n print 2 + 3\nend\n", "main.vr").is_ok());
    assert!(compile("begin\n let count: Int be 3\n print count\nend\n", "typed.vr").is_ok());
}

#[test]
fn check_reports_stable_diagnostic_context() {
    let e = compile("begin\n print missing\nend\n", "bad.vr").expect_err("must fail");
    assert!(e.contains("error[E3001]"));
    assert!(e.contains("variable `missing` used before initialization"));
    assert!(e.contains("help:"));
    assert!(e.contains("-->"));
    assert!(e.starts_with("error[E3001]: variable `missing` used before initialization\n\n --> bad.vr:2:"));
}

#[test]
fn lexical_errors_use_their_code() {
    let e = compile("begin\n print @\nend\n", "lex.vr").expect_err("must fail");
    assert!(e.starts_with("error[E1001]"));
    assert!(e.contains(" --> lex.vr:2:"));
}

#[test]
fn syntax_errors_use_their_code() {
    let e = compile("begin\n print\nend\n", "syntax.vr").expect_err("must fail");
    assert!(e.starts_with("error[E2001]"));
    let e = compile("print 1\n", "syntax.vr").expect_err("must fail");
    assert!(e.starts_with("error[E2001]"));
}

#[test]
fn several_diagnostics_are_joined_by_newlines() {
    let errs = vec![
        ("first".to_string(), Span { line: 1, column: 1, start: 0, end: 1 }),
        ("second".to_string(), Span { line: 1, column: 2, start: 1, end: 2 }),
    ];
    let text = render_all("E9999", &errs, "ab", "f.vr");
    assert_eq!(
        text,
        "error[E9999]: first\n\n --> f.vr:1:1\n  |\n1 | ab\n  | ^\n\nerror[E9999]: second\n\n --> f.vr:1:2\n  |\n1 | ab\n  |  ^\n"
    );
    assert_eq!(render_all("E9999", &Vec::new(), "ab", "f.vr"), "");
}
