use velari::ast::{Expr, Op, Stmt, Value};
use velari::lexer::{Lexer, Span, TokenKind};
use velari::parser::Parser;

fn sp(line: usize, column: usize, start: usize, end: usize) -> Span {
    Span { line, column, start, end }
}

#[test]
fn tokens_carry_kinds_and_spans() {
    let tokens = Lexer::new("begin\n let x be 10 + 2.5 # note\nend").tokenize().expect("tokens");
    let got: Vec<(TokenKind, Span)> = tokens.into_iter().map(|t| (t.kind, t.span)).collect();
    let expected = vec![
        (TokenKind::Begin, sp(1, 1, 0, 5)),
        (TokenKind::Let, sp(2, 2, 7, 10)),
        (TokenKind::Identifier("x".to_string()), sp(2, 6, 11, 12)),
        (TokenKind::Be, sp(2, 8, 13, 15)),
        (TokenKind::Number("10".to_string()), sp(2, 11, 16, 18)),
        (TokenKind::Plus, sp(2, 14, 19, 20)),
        (TokenKind::Number("2.5".to_string()), sp(2, 16, 21, 24)),
        (TokenKind::End, sp(3, 1, 32, 35)),
        (TokenKind::Eof, sp(3, 4, 35, 35)),
    ];
    assert_eq!(got, expected);
}

#[test]
fn string_escapes_are_decoded() {
    let tokens = Lexer::new("\"a\\n\\t\\\"\\\\b\"").tokenize().expect("tokens");
    assert_eq!(tokens[0].kind, TokenKind::Str("a\n\t\"\\b".to_string()));
    assert_eq!(tokens[0].span, sp(1, 1, 0, 12));
    assert_eq!(tokens[1].kind, TokenKind::Eof);
}

#[test]
fn operators_and_keywords() {
    let tokens = Lexer::new("a==b=c begins is or and").tokenize().expect("tokens");
    let kinds: Vec<TokenKind> = tokens.into_iter().map(|t| t.kind).collect();
    assert_eq!(
        kinds,
        vec![
            TokenKind::Identifier("a".to_string()),
            TokenKind::EqualEqual,
            TokenKind::Identifier("b".to_string()),
            TokenKind::Equal,
            TokenKind::Identifier("c".to_string()),
            TokenKind::Identifier("begins".to_string()),
            TokenKind::Is,
            TokenKind::Or,
            TokenKind::And,
            TokenKind::Eof,
        ]
    );
}

#[test]
fn lexical_errors_are_all_reported_in_order() {
    let errors = Lexer::new("begin @ \"x\\q\" \"open").tokenize().expect_err("errors");
    let got: Vec<(String, Span)> = errors.into_iter().map(|e| (e.message, e.span)).collect();
    assert_eq!(
        got,
        vec![
            ("unexpected character `@`".to_string(), sp(1, 7, 6, 7)),
            ("unknown escape sequence in string literal".to_string(), sp(1, 11, 10, 12)),
            ("unterminated string literal".to_string(), sp(1, 15, 14, 19)),
        ]
    );
}

#[test]
fn a_point_needs_a_digit_after_it() {
    let errors = Lexer::new("1.").tokenize().expect_err("errors");
    assert_eq!(errors[0].message, "unexpected character `.`");
    assert_eq!(errors[0].span, sp(1, 2, 1, 2));
}

#[test]
fn spans_count_bytes_of_wide_characters() {
    let errors = Lexer::new("é x").tokenize().expect_err("errors");
    assert_eq!(errors[0].message, "unexpected character `é`");
    assert_eq!(errors[0].span, sp(1, 1, 0, 2));
    let tokens = Lexer::new("\"é\" y").tokenize().expect("tokens");
    assert_eq!(tokens[1].span, sp(1, 5, 5, 6));
}

#[test]
fn multiplication_binds_tighter_than_addition() {
    let tokens = Lexer::new("begin\nlet total be 10 + 5 * 2\nend").tokenize().unwrap();
    let ast = Parser::new(tokens).parse_program().unwrap();
    let statements = match ast {
        Stmt::Block(xs) => xs,
        _ => panic!("a program is a block"),
    };
    assert_eq!(statements.len(), 1);
    match &statements[0] {
        Stmt::Let { name, value, .. } => {
            assert_eq!(name, "total");
            match value {
                Expr::Binary { left, op: Op::Add, right, .. } => {
                    assert!(matches!(&**left, Expr::Literal(Value::Number(n), _) if n == "10"));
                    assert!(matches!(&**right, Expr::Binary { op: Op::Mul, .. }));
                }
                _ => panic!("expected an addition"),
            }
        }
        _ => panic!("expected a let statement"),
    }
}

#[test]
fn bare_return_may_be_followed_by_a_statement() {
    let source = "begin\nfunction demo()\n\treturn\n\tprint 1\nend\nprint demo()\nend";
    let tokens = Lexer::new(source).tokenize().unwrap();
    assert!(Parser::new(tokens).parse_program().is_ok());
}

#[test]
fn tokens_after_eof_are_dropped() {
    let tokens = Lexer::new("begin end").tokenize().unwrap();
    assert_eq!(tokens.len(), 3);
    assert!(Parser::new(tokens).parse_program().is_ok());
    assert!(Parser::new(Vec::new()).parse_program().is_err());
}

#[test]
fn syntax_errors_are_collected_after_recovery() {
    let tokens = Lexer::new("begin\n let be 1\n print 2\n let y 3\nend").tokenize().unwrap();
    let errors = Parser::new(tokens).parse_program().expect_err("syntax errors");
    let got: Vec<(String, Span)> = errors.into_iter().map(|e| (e.message, e.span)).collect();
    assert_eq!(
        got,
        vec![
            ("expected variable name, found Be".to_string(), sp(2, 6, 11, 13)),
            ("expected `be`, found Number".to_string(), sp(4, 8, 32, 33)),
        ]
    );
}

#[test]
fn a_program_must_begin_and_end() {
    let tokens = Lexer::new("print 1").tokenize().unwrap();
    let errors = Parser::new(tokens).parse_program().expect_err("syntax errors");
    assert_eq!(errors[0].message, "expected `begin`, found Print");
    assert_eq!(errors[errors.len() - 1].message, "expected `end`, found Eof");
    let tokens = Lexer::new("begin\nend\nprint 1").tokenize().unwrap();
    let errors = Parser::new(tokens).parse_program().expect_err("syntax errors");
    assert_eq!(errors.len(), 1);
    assert_eq!(errors[0].message, "expected end of input, found Print");
}

#[test]
fn map_literals_keep_their_entries_in_order() {
    let tokens = Lexer::new("begin\nlet m be {\"b\": 1, \"a\": [2]}\nend").tokenize().unwrap();
    let ast = Parser::new(tokens).parse_program().unwrap();
    let statements = match ast {
        Stmt::Block(xs) => xs,
        _ => panic!("a program is a block"),
    };
    match &statements[0] {
        Stmt::Let { value: Expr::Mapping(entries, span), .. } => {
            let keys: Vec<&str> = entries.iter().map(|(k, _)| k.as_str()).collect();
            assert_eq!(keys, vec!["b", "a"]);
            assert_eq!(*span, sp(2, 10, 15, 33));
            assert!(matches!(&entries[1].1, Expr::Array(items, _) if items.len() == 1));
        },
        _ => panic!("expected a let with a map literal"),
    }
}
