use velari::ast::Type;
use velari::ir::{Instruction, Lowerer};
use velari::lexer::Lexer;
use velari::parser::Parser;
use velari::semantic::{SemanticAnalyzer, SemanticError};

fn analyze(source: &str) -> Result<(), Vec<SemanticError>> {
    let tokens = Lexer::new(source).tokenize().expect("tokens");
    let ast = Parser::new(tokens).parse_program().expect("ast");
    SemanticAnalyzer::new().analyze(&ast)
}

#[test]
fn infers_collection_element_types() {
    let source = "begin\nlet values be [1, 2, 3]\nlet names be {\"first\": \"VelaRi\"}\nprint values[1]\nprint names[\"first\"]\nend";
    assert!(analyze(source).is_ok());
}

#[test]
fn rejects_invalid_collection_annotation() {
    let source = "begin\nlet values: Array<Int> be [1, \"wrong\"]\nend";
    let errors = analyze(source).expect_err("mixed array should fail");
    assert!(errors
        .iter()
        .any(|error| error.message.contains("Array<Int>")));
}

#[test]
fn validates_function_arguments_and_returns() {
    let source = "begin\nfunction add(a: Int, b: Int): Int\nreturn \"wrong\"\nend\nprint add(\"wrong\", true)\nend";
    let errors = analyze(source).expect_err("invalid call should fail");
    assert!(errors
        .iter()
        .any(|error| error.message.contains("expected Int")));
}

#[test]
fn infers_typed_collections_and_lowers_functions() {
    let source = "begin\nfunction make(): Array<Int>\n return [1, 2, 3]\nend\nlet xs be make()\nprint xs[1]\nend";
    let tokens = Lexer::new(source).tokenize().expect("tokens");
    let ast = Parser::new(tokens).parse_program().expect("ast");
    let ir = Lowerer::lower(&ast);
    assert_eq!(ir.functions.len(), 2);
    assert!(ir.functions[0].instructions.iter().any(|instruction| {
        matches!(instruction, Instruction::Call { ty: Type::Array(element), .. } if **element == Type::Int)
    }));
    assert!(ir.functions[1].instructions.iter().any(|instruction| {
        matches!(instruction, Instruction::Aggregate { ty: Type::Array(element), .. } if **element == Type::Int)
    }));
}

#[test]
fn mixed_arrays_are_rejected_whatever_the_order() {
    for literal in ["[1, \"wrong\", 2]", "[\"wrong\", 1, 2]", "[1, 2, \"wrong\"]", "[1, 2.5, \"wrong\", 3]"] {
        let source = format!("begin\nlet values: Array<Int> be {}\nend", literal);
        let errors = analyze(&source).expect_err("mixed array should fail");
        assert!(errors
            .iter()
            .any(|error| error.message == "type mismatch: expected Array<Int>, found Array<Unknown>"));
    }
    assert!(analyze("begin\nlet values: Array<Float> be [1, 2.5, 3]\nend").is_ok());
}

#[test]
fn mixed_map_values_are_rejected_whatever_the_order() {
    let source = "begin\nlet m: Map<String, Int> be {\"a\": 1, \"b\": \"x\", \"c\": 2}\nend";
    let errors = analyze(source).expect_err("mixed map should fail");
    assert!(errors
        .iter()
        .any(|error| error.message == "type mismatch: expected Map<String, Int>, found Map<String, Unknown>"));
}

#[test]
fn a_scope_closes_with_its_block() {
    let errors = analyze("begin\nif true then\nlet y be 1\nend\nprint y\nend").expect_err("y is out of scope");
    assert!(errors.iter().any(|e| e.message == "variable `y` used before initialization"));
    assert!(analyze("begin\nlet y be 1\nif true then\nprint y\nend\nprint y\nend").is_ok());
}

#[test]
fn failing_checks_report_an_error() {
    let errors = analyze("begin\nprint -\"a\"\nend").expect_err("invalid negation");
    assert_eq!(errors.len(), 1);
    assert_eq!(errors[0].message, "unary minus requires Number");
}
