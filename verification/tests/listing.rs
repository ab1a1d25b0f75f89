use velari::ast::{Op, Type, Value};
use velari::ir::{program_size, Instruction, IrFunction, IrProgram, Lowerer};
use velari::lexer::Lexer;
use velari::semantic::{name_of_type, type_from_ast, value_type};
use velari::parser::Parser;

fn number_text(literal: &str) -> String {
    let program = IrProgram {
        functions: vec![IrFunction {
            name: "main".to_string(),
            parameters: Vec::new(),
            return_type: Type::Null,
            instructions: vec![Instruction::Const {
                dest: "t0".to_string(),
                value: Value::Number(literal.to_string()),
                ty: Type::Float,
            }],
        }],
    };
    program.text()
}

fn expected_number(x: f64) -> String {
    format!(
        "function main() -> Null:\n  Const {{ dest: \"t0\", value: Number({:?}), ty: Float }}\n",
        x
    )
}

#[test]
fn numbers_are_listed_as_floating_point_debug_text() {
    let cases: [(&str, f64); 12] = [
        ("2", 2.0),
        ("2.50", 2.5),
        ("0", 0.0),
        ("0.000", 0.0),
        ("123.456", 123.456),
        ("0.0001", 0.0001),
        ("0.00001", 0.00001),
        ("1000000000000000", 1e15),
        ("10000000000000000", 1e16),
        ("120000000000000000000", 1.2e20),
        ("00012", 12.0),
        ("0.000123", 0.000123),
    ];
    for (literal, value) in cases {
        assert_eq!(number_text(literal), expected_number(value), "literal {literal}");
    }
    assert_eq!(number_text("0.00001"), expected_number(1e-5));
    assert!(number_text("10000000000000000").contains("Number(1e16)"));
}

#[test]
fn listing_of_a_hand_built_program() {
    let program = IrProgram {
        functions: vec![IrFunction {
            name: "add".to_string(),
            parameters: vec![("a".to_string(), Type::Int), ("b".to_string(), Type::Array(Box::new(Type::Int)))],
            return_type: Type::Mapping(Box::new(Type::String), Box::new(Type::Float)),
            instructions: vec![
                Instruction::Load { dest: "t0".to_string(), name: "a".to_string(), ty: Type::Int },
                Instruction::Binary {
                    dest: "t1".to_string(),
                    op: Op::Add,
                    left: "t0".to_string(),
                    right: "t0".to_string(),
                    ty: Type::Int,
                },
                Instruction::Call {
                    dest: "t2".to_string(),
                    name: "f".to_string(),
                    args: vec!["t0".to_string(), "t1".to_string()],
                    ty: Type::Unknown,
                },
                Instruction::Const {
                    dest: "t3".to_string(),
                    value: Value::String("say \"hi\"\n".to_string()),
                    ty: Type::String,
                },
                Instruction::Aggregate { dest: "t4".to_string(), elements: vec![], ty: Type::Array(Box::new(Type::Unknown)) },
                Instruction::Branch {
                    condition: "t1".to_string(),
                    then_label: "then0".to_string(),
                    else_label: "else1".to_string(),
                },
                Instruction::Label("then0".to_string()),
                Instruction::Jump("end2".to_string()),
                Instruction::Return(Some("t1".to_string())),
                Instruction::Return(None),
            ],
        }],
    };
    let expected = "function add(a: Int, b: Array<Int>) -> Map<String, Float>:\n".to_string()
        + "  Load { dest: \"t0\", name: \"a\", ty: Int }\n"
        + "  Binary { dest: \"t1\", op: Add, left: \"t0\", right: \"t0\", ty: Int }\n"
        + "  Call { dest: \"t2\", name: \"f\", args: [\"t0\", \"t1\"], ty: Unknown }\n"
        + "  Const { dest: \"t3\", value: String(\"say \\\"hi\\\"\\n\"), ty: String }\n"
        + "  Aggregate { dest: \"t4\", elements: [], ty: Array(Unknown) }\n"
        + "  Branch { condition: \"t1\", then_label: \"then0\", else_label: \"else1\" }\n"
        + "  Label(\"then0\")\n"
        + "  Jump(\"end2\")\n"
        + "  Return(Some(\"t1\"))\n"
        + "  Return(None)\n";
    assert_eq!(program.text(), expected);
}

#[test]
fn listing_values_of_every_kind() {
    let value = Value::Array(vec![
        Value::Boolean(true),
        Value::Null,
        Value::Mapping(vec![("k".to_string(), Value::Number("1".to_string()))]),
    ]);
    let program = IrProgram {
        functions: vec![IrFunction {
            name: "main".to_string(),
            parameters: Vec::new(),
            return_type: Type::Null,
            instructions: vec![Instruction::Const { dest: "t0".to_string(), value, ty: Type::Unknown }],
        }],
    };
    assert_eq!(
        program.text(),
        "function main() -> Null:\n  Const { dest: \"t0\", value: Array([Boolean(true), Null, Map({\"k\": Number(1.0)})]), ty: Unknown }\n"
    );
}

#[test]
fn typed_declaration_and_ir_listing() {
    let source = "begin\n let count: Int be 3\n print count\nend\n";
    let tokens = Lexer::new(source).tokenize().expect("tokens");
    let ast = Parser::new(tokens).parse_program().expect("ast");
    assert!(program_size(&ast).is_some());
    let text = Lowerer::lower(&ast).text();
    assert!(text.contains("function main"));
    assert!(text.starts_with("function main() -> Null:\n"));
    assert!(text.contains("Number(3.0)"));
    assert!(text.contains("ty: Int"));
}

#[test]
fn empty_program_has_no_functions_listed_but_main() {
    let tokens = Lexer::new("begin\nend").tokenize().expect("tokens");
    let ast = Parser::new(tokens).parse_program().expect("ast");
    assert_eq!(program_size(&ast), Some(0));
    assert_eq!(Lowerer::lower(&ast).text(), "function main() -> Null:\n");
    assert_eq!(IrProgram { functions: Vec::new() }.text(), "");
}

#[test]
fn mixed_array_literals_lower_to_unknown_elements() {
    let source = "begin\nlet values be [1, \"wrong\", 2]\nlet whole be [1, 2.5]\nend";
    let tokens = Lexer::new(source).tokenize().unwrap();
    let ast = Parser::new(tokens).parse_program().unwrap();
    let text = Lowerer::lower(&ast).text();
    assert!(text.contains("Array(Unknown)"));
    assert!(text.contains("Array(Float)"));
}

fn defined(i: &Instruction) -> Option<String> {
    match i {
        Instruction::Const { dest, .. }
        | Instruction::Load { dest, .. }
        | Instruction::Binary { dest, .. }
        | Instruction::Call { dest, .. }
        | Instruction::Index { dest, .. }
        | Instruction::Aggregate { dest, .. } => Some(dest.clone()),
        _ => None,
    }
}

fn read(i: &Instruction) -> Vec<String> {
    match i {
        Instruction::Store { value, .. } | Instruction::Print { value } | Instruction::Assert { value } => vec![value.clone()],
        Instruction::Binary { left, right, .. } => vec![left.clone(), right.clone()],
        Instruction::Call { args, .. } => args.clone(),
        Instruction::Index { target, index, .. } => vec![target.clone(), index.clone()],
        Instruction::Aggregate { elements, .. } => elements.clone(),
        Instruction::Return(Some(v)) => vec![v.clone()],
        Instruction::Branch { condition, .. } => vec![condition.clone()],
        _ => vec![],
    }
}

#[test]
fn temporaries_and_labels_are_well_defined() {
    let source = "begin
function f(a)
if a == 1 then
return [a, a + 1][0]
otherwise
repeat 2 times
print a
end
end
return 0
end
let x be f(1) * 2
if x == 2 then
print {\"k\": x}
end
end";
    let tokens = Lexer::new(source).tokenize().unwrap();
    let ast = Parser::new(tokens).parse_program().unwrap();
    let program = Lowerer::lower(&ast);
    assert_eq!(program.functions.len(), 2);
    for f in &program.functions {
        let mut seen: Vec<String> = Vec::new();
        let mut labels: Vec<String> = Vec::new();
        for i in &f.instructions {
            for t in read(i) {
                assert!(seen.contains(&t), "{} read before it is defined", t);
            }
            if let Some(d) = defined(i) {
                assert!(!seen.contains(&d));
                seen.push(d);
            }
            if let Instruction::Label(l) = i {
                assert!(!labels.contains(l));
                labels.push(l.clone());
            }
        }
        for i in &f.instructions {
            match i {
                Instruction::Branch { then_label, else_label, .. } => {
                    assert!(labels.contains(then_label) && labels.contains(else_label));
                }
                Instruction::Jump(l) => assert!(labels.contains(l)),
                _ => {}
            }
        }
    }
}

#[test]
fn literal_types_agree_between_analysis_and_lowering() {
    use_literal("1", "Int");
    use_literal("2.5", "Float");
    use_literal("\"s\"", "String");
    use_literal("true", "Boolean");
    use_literal("null", "Null");
}

fn use_literal(literal: &str, name: &str) {
    let source = format!("begin\nlet x be {}\nend", literal);
    let tokens = Lexer::new(&source).tokenize().unwrap();
    let ast = Parser::new(tokens).parse_program().unwrap();
    let program = Lowerer::lower(&ast);
    match &program.functions[0].instructions[0] {
        Instruction::Const { value, ty, .. } => {
            assert_eq!(type_from_ast(ty), value_type(value));
            assert_eq!(name_of_type(&value_type(value)), name);
        }
        other => panic!("expected a constant, found {:?}", other),
    }
}

#[test]
fn negation_is_lowered_as_subtraction_from_zero() {
    let tokens = Lexer::new("begin\nlet x be -5\nend").tokenize().unwrap();
    let ast = Parser::new(tokens).parse_program().unwrap();
    let program = Lowerer::lower(&ast);
    let is = &program.functions[0].instructions;
    assert_eq!(is.len(), 4);
    assert_eq!(
        is[0],
        Instruction::Const { dest: "%0".to_string(), value: Value::Number("5".to_string()), ty: Type::Int }
    );
    assert_eq!(
        is[1],
        Instruction::Const { dest: "%1".to_string(), value: Value::Number("0".to_string()), ty: Type::Int }
    );
    assert_eq!(
        is[2],
        Instruction::Binary {
            dest: "%2".to_string(),
            op: Op::Sub,
            left: "%1".to_string(),
            right: "%0".to_string(),
            ty: Type::Int
        }
    );
    assert_eq!(is[3], Instruction::Store { name: "x".to_string(), value: "%2".to_string(), ty: Type::Int });
}

#[test]
fn names_are_unique_across_the_program() {
    let source = "begin\nfunction f(a)\nif a == 1 then\nreturn -a\nend\nreturn 0\nend\nfunction g()\nrepeat 2 times\nprint f(1)\nend\nreturn 1\nend\nif g() == 1 then\nprint 2\notherwise\nprint 3\nend\nend";
    let tokens = Lexer::new(source).tokenize().unwrap();
    let ast = Parser::new(tokens).parse_program().unwrap();
    let program = Lowerer::lower(&ast);
    assert_eq!(program.functions.len(), 3);
    let mut temps: Vec<String> = Vec::new();
    let mut labels: Vec<String> = Vec::new();
    for f in &program.functions {
        for i in &f.instructions {
            if let Some(d) = defined(i) {
                assert!(!temps.contains(&d));
                temps.push(d);
            }
            if let Instruction::Label(l) = i {
                assert!(!labels.contains(l));
                labels.push(l.clone());
            }
        }
    }
}
