use velari::interpreter::{Interpreter, RuntimeError};
use velari::lexer::Lexer;
use velari::parser::Parser;

#[test]
fn defined_variables_read_back() {
    let mut env: Interpreter<i64> = Interpreter::new();
    assert_eq!(env.lookup("x"), None);
    env.define("x".to_string(), 1);
    env.define("y".to_string(), 2);
    assert_eq!(env.lookup("x"), Some(&1));
    env.define("x".to_string(), 3);
    assert_eq!(env.lookup("x"), Some(&3));
    assert_eq!(env.lookup("y"), Some(&2));
}

#[test]
fn inner_scopes_shadow_and_disappear() {
    let mut env: Interpreter<i64> = Interpreter::new();
    env.define("x".to_string(), 1);
    env.push();
    assert_eq!(env.lookup("x"), Some(&1));
    env.define("x".to_string(), 2);
    assert_eq!(env.lookup("x"), Some(&2));
    env.pop();
    assert_eq!(env.lookup("x"), Some(&1));
}

#[test]
fn assignment_updates_the_innermost_holder() {
    let mut env: Interpreter<i64> = Interpreter::new();
    env.define("x".to_string(), 1);
    env.push();
    assert!(env.assign("x", 5));
    assert_eq!(env.lookup("x"), Some(&5));
    env.pop();
    assert_eq!(env.lookup("x"), Some(&5));
    assert!(!env.assign("missing", 7));
    assert_eq!(env.lookup("missing"), None);
}

#[test]
fn functions_are_collected_from_the_program() {
    let src = "begin\nfunction add(a,b)\n return a+b\nend\nlet value be add(2,3)\nend";
    let ast = Parser::new(Lexer::new(src).tokenize().unwrap()).parse_program().unwrap();
    let mut env: Interpreter<i64> = Interpreter::new();
    env.collect(&ast);
    let (params, body) = env.function("add").expect("declared");
    assert_eq!(params, &vec!["a".to_string(), "b".to_string()]);
    assert_eq!(body.len(), 1);
    assert!(env.function("value").is_none());
}

#[test]
fn runtime_error_carries_its_message() {
    let e = RuntimeError("return outside function".to_string());
    assert_eq!(e.0, "return outside function");
}
