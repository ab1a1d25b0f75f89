//! The syntax of VelaRi as the parser reads it: for a token sequence and a
//! position, what each construct parses to, where it ends and which errors
//! it reports.
use vstd::prelude::*;
use crate::ast::{model_span, ExprModel, Op, StmtModel, Type, ValueModel};
use crate::lexer::{payload, tag_spec, Span, Token, TokenKind};

verus! {

pub const BEGIN: u8 = 0;
pub const END: u8 = 1;
pub const LET: u8 = 2;
pub const BE: u8 = 3;
pub const PRINT: u8 = 4;
pub const ASSERT: u8 = 5;
pub const IF: u8 = 6;
pub const THEN: u8 = 7;
pub const OTHERWISE: u8 = 8;
pub const REPEAT: u8 = 9;
pub const TIMES: u8 = 10;
pub const FUNCTION: u8 = 11;
pub const RETURN: u8 = 12;
pub const WINDOW: u8 = 13;
pub const TRUE: u8 = 14;
pub const FALSE: u8 = 15;
pub const NULL: u8 = 16;
pub const AND: u8 = 17;
pub const OR: u8 = 18;
pub const IS: u8 = 19;
pub const IDENTIFIER: u8 = 20;
pub const NUMBER: u8 = 21;
pub const STR: u8 = 22;
pub const PLUS: u8 = 23;
pub const MINUS: u8 = 24;
pub const STAR: u8 = 25;
pub const SLASH: u8 = 26;
pub const EQUAL_EQUAL: u8 = 27;
pub const EQUAL: u8 = 28;
pub const LEFT_PAREN: u8 = 29;
pub const RIGHT_PAREN: u8 = 30;
pub const LEFT_BRACKET: u8 = 31;
pub const RIGHT_BRACKET: u8 = 32;
pub const LEFT_BRACE: u8 = 33;
pub const RIGHT_BRACE: u8 = 34;
pub const COMMA: u8 = 35;
pub const COLON: u8 = 36;
pub const LESS: u8 = 37;
pub const GREATER: u8 = 38;
pub const EOF: u8 = 39;

/// Syntax errors: message and span, in the order they are found.
pub type Errs = Seq<(Seq<char>, Span)>;

/// The name of a token kind in messages.
pub open spec fn kind_text(k: TokenKind) -> Seq<char> {
    match k {
        TokenKind::Begin => "Begin"@,
        TokenKind::End => "End"@,
        TokenKind::Let => "Let"@,
        TokenKind::Be => "Be"@,
        TokenKind::Print => "Print"@,
        TokenKind::Assert => "Assert"@,
        TokenKind::If => "If"@,
        TokenKind::Then => "Then"@,
        TokenKind::Otherwise => "Otherwise"@,
        TokenKind::Repeat => "Repeat"@,
        TokenKind::Times => "Times"@,
        TokenKind::Function => "Function"@,
        TokenKind::Return => "Return"@,
        TokenKind::Window => "Window"@,
        TokenKind::True => "True"@,
        TokenKind::False => "False"@,
        TokenKind::Null => "Null"@,
        TokenKind::And => "And"@,
        TokenKind::Or => "Or"@,
        TokenKind::Is => "Is"@,
        TokenKind::Identifier(_) => "Identifier"@,
        TokenKind::Number(_) => "Number"@,
        TokenKind::Str(_) => "Str"@,
        TokenKind::Plus => "Plus"@,
        TokenKind::Minus => "Minus"@,
        TokenKind::Star => "Star"@,
        TokenKind::Slash => "Slash"@,
        TokenKind::EqualEqual => "EqualEqual"@,
        TokenKind::Equal => "Equal"@,
        TokenKind::LeftParen => "LeftParen"@,
        TokenKind::RightParen => "RightParen"@,
        TokenKind::LeftBracket => "LeftBracket"@,
        TokenKind::RightBracket => "RightBracket"@,
        TokenKind::LeftBrace => "LeftBrace"@,
        TokenKind::RightBrace => "RightBrace"@,
        TokenKind::Comma => "Comma"@,
        TokenKind::Colon => "Colon"@,
        TokenKind::Less => "Less"@,
        TokenKind::Greater => "Greater"@,
        TokenKind::Eof => "Eof"@,
    }
}

/// The kind of the token at `p`, as a number.
pub open spec fn tag_of(ts: Seq<Token>, p: int) -> u8 {
    tag_spec(ts[p].kind)
}

/// The position after the token at `p`; `Eof` is never passed.
pub open spec fn next_pos(ts: Seq<Token>, p: int) -> int {
    if tag_of(ts, p) == EOF {
        p
    } else {
        p + 1
    }
}

/// `q` lies at or after `p` within the tokens.
pub open spec fn onward(ts: Seq<Token>, p: int, q: int) -> bool {
    p <= q < ts.len()
}

/// "expected WHAT, found KIND" at `p`.
pub open spec fn expected_err(ts: Seq<Token>, p: int, what: Seq<char>) -> (Seq<char>, Span) {
    ("expected "@ + what + ", found "@ + kind_text(ts[p].kind), ts[p].span)
}

/// A token of kind `t` at `p`, or an error there. The errors found so far
/// are `acc`; each function gives them back with its own added.
pub open spec fn expect_spec(ts: Seq<Token>, p: int, t: u8, what: Seq<char>, acc: Errs) -> (bool, int, Errs) {
    if tag_of(ts, p) == t {
        (true, next_pos(ts, p), acc)
    } else {
        (false, p, acc.push(expected_err(ts, p, what)))
    }
}

/// A span from the start of `a` to the end of `b`.
pub open spec fn join_spec(a: Span, b: Span) -> Span {
    Span { line: a.line, column: a.column, start: a.start, end: b.end }
}

/// `left op right`, spanning both operands.
pub open spec fn binary_model(left: ExprModel, op: Op, right: ExprModel) -> ExprModel {
    ExprModel::Binary(
        Box::new(left),
        op,
        Box::new(right),
        join_spec(model_span(left), model_span(right)),
    )
}

/// An expression at `p`.
#[verifier::opaque]
pub open spec fn expression_spec(ts: Seq<Token>, p: int, acc: Errs) -> (Result<ExprModel, ()>, int, Errs)
    decreases ts.len() - p, 30int,
{
    or_spec(ts, p, acc)
}

/// Operands joined by `or`, left to right.
#[verifier::opaque]
pub open spec fn or_spec(ts: Seq<Token>, p: int, acc: Errs) -> (Result<ExprModel, ()>, int, Errs)
    decreases ts.len() - p, 28int,
{
    let (first, q, e) = and_spec(ts, p, acc);
    match first {
        Err(_) => (Err(()), q, e),
        Ok(left) => if onward(ts, p, q) {
            or_rest(ts, left, q, e)
        } else {
            (Err(()), q, e)
        },
    }
}

/// After the operand `left`: further `or OPERAND`, folded to the left.
#[verifier::opaque]
pub open spec fn or_rest(ts: Seq<Token>, left: ExprModel, p: int, acc: Errs) -> (Result<ExprModel, ()>, int, Errs)
    decreases ts.len() - p, 27int,
{
    if 0 <= p < ts.len() && tag_of(ts, p) == OR {
        let (right, q, e) = and_spec(ts, p + 1, acc);
        match right {
            Err(_) => (Err(()), q, e),
            Ok(r) => if onward(ts, p + 1, q) {
                or_rest(ts, binary_model(left, Op::Or, r), q, e)
            } else {
                (Err(()), q, e)
            },
        }
    } else {
        (Ok(left), p, acc)
    }
}

#[verifier::opaque]
pub open spec fn and_spec(ts: Seq<Token>, p: int, acc: Errs) -> (Result<ExprModel, ()>, int, Errs)
    decreases ts.len() - p, 26int,
{
    let (first, q, e) = equality_spec(ts, p, acc);
    match first {
        Err(_) => (Err(()), q, e),
        Ok(left) => if onward(ts, p, q) {
            and_rest(ts, left, q, e)
        } else {
            (Err(()), q, e)
        },
    }
}

#[verifier::opaque]
pub open spec fn and_rest(ts: Seq<Token>, left: ExprModel, p: int, acc: Errs) -> (Result<ExprModel, ()>, int, Errs)
    decreases ts.len() - p, 25int,
{
    if 0 <= p < ts.len() && tag_of(ts, p) == AND {
        let (right, q, e) = equality_spec(ts, p + 1, acc);
        match right {
            Err(_) => (Err(()), q, e),
            Ok(r) => if onward(ts, p + 1, q) {
                and_rest(ts, binary_model(left, Op::And, r), q, e)
            } else {
                (Err(()), q, e)
            },
        }
    } else {
        (Ok(left), p, acc)
    }
}

#[verifier::opaque]
pub open spec fn equality_spec(ts: Seq<Token>, p: int, acc: Errs) -> (Result<ExprModel, ()>, int, Errs)
    decreases ts.len() - p, 24int,
{
    let (first, q, e) = additive_spec(ts, p, acc);
    match first {
        Err(_) => (Err(()), q, e),
        Ok(left) => if onward(ts, p, q) {
            equality_rest(ts, left, q, e)
        } else {
            (Err(()), q, e)
        },
    }
}

#[verifier::opaque]
pub open spec fn equality_rest(ts: Seq<Token>, left: ExprModel, p: int, acc: Errs) -> (Result<ExprModel, ()>, int, Errs)
    decreases ts.len() - p, 23int,
{
    if 0 <= p < ts.len() && (tag_of(ts, p) == IS || tag_of(ts, p) == EQUAL_EQUAL) {
        let (right, q, e) = additive_spec(ts, p + 1, acc);
        match right {
            Err(_) => (Err(()), q, e),
            Ok(r) => if onward(ts, p + 1, q) {
                equality_rest(ts, binary_model(left, Op::Eq, r), q, e)
            } else {
                (Err(()), q, e)
            },
        }
    } else {
        (Ok(left), p, acc)
    }
}

#[verifier::opaque]
pub open spec fn additive_spec(ts: Seq<Token>, p: int, acc: Errs) -> (Result<ExprModel, ()>, int, Errs)
    decreases ts.len() - p, 22int,
{
    let (first, q, e) = multiplicative_spec(ts, p, acc);
    match first {
        Err(_) => (Err(()), q, e),
        Ok(left) => if onward(ts, p, q) {
            additive_rest(ts, left, q, e)
        } else {
            (Err(()), q, e)
        },
    }
}

#[verifier::opaque]
pub open spec fn additive_rest(ts: Seq<Token>, left: ExprModel, p: int, acc: Errs) -> (Result<ExprModel, ()>, int, Errs)
    decreases ts.len() - p, 21int,
{
    if 0 <= p < ts.len() && (tag_of(ts, p) == PLUS || tag_of(ts, p) == MINUS) {
        let op = if tag_of(ts, p) == PLUS {
            Op::Add
        } else {
            Op::Sub
        };
        let (right, q, e) = multiplicative_spec(ts, p + 1, acc);
        match right {
            Err(_) => (Err(()), q, e),
            Ok(r) => if onward(ts, p + 1, q) {
                additive_rest(ts, binary_model(left, op, r), q, e)
            } else {
                (Err(()), q, e)
            },
        }
    } else {
        (Ok(left), p, acc)
    }
}

#[verifier::opaque]
pub open spec fn multiplicative_spec(ts: Seq<Token>, p: int, acc: Errs) -> (Result<ExprModel, ()>, int, Errs)
    decreases ts.len() - p, 20int,
{
    let (first, q, e) = unary_spec(ts, p, acc);
    match first {
        Err(_) => (Err(()), q, e),
        Ok(left) => if onward(ts, p, q) {
            multiplicative_rest(ts, left, q, e)
        } else {
            (Err(()), q, e)
        },
    }
}

#[verifier::opaque]
pub open spec fn multiplicative_rest(ts: Seq<Token>, left: ExprModel, p: int, acc: Errs) -> (Result<ExprModel, ()>, int, Errs)
    decreases ts.len() - p, 19int,
{
    if 0 <= p < ts.len() && (tag_of(ts, p) == STAR || tag_of(ts, p) == SLASH) {
        let op = if tag_of(ts, p) == STAR {
            Op::Mul
        } else {
            Op::Div
        };
        let (right, q, e) = unary_spec(ts, p + 1, acc);
        match right {
            Err(_) => (Err(()), q, e),
            Ok(r) => if onward(ts, p + 1, q) {
                multiplicative_rest(ts, binary_model(left, op, r), q, e)
            } else {
                (Err(()), q, e)
            },
        }
    } else {
        (Ok(left), p, acc)
    }
}

/// `-` applied to a unary expression, or a postfix expression.
#[verifier::opaque]
pub open spec fn unary_spec(ts: Seq<Token>, p: int, acc: Errs) -> (Result<ExprModel, ()>, int, Errs)
    decreases ts.len() - p, 18int,
{
    if 0 <= p < ts.len() && tag_of(ts, p) == MINUS {
        let (operand, q, e) = unary_spec(ts, p + 1, acc);
        match operand {
            Ok(x) => (
                Ok(ExprModel::Unary(Op::Neg, Box::new(x), join_spec(ts[p].span, model_span(x)))),
                q,
                e,
            ),
            Err(_) => (Err(()), q, e),
        }
    } else {
        postfix_spec(ts, p, acc)
    }
}

/// A primary expression followed by any number of `[index]`.
#[verifier::opaque]
pub open spec fn postfix_spec(ts: Seq<Token>, p: int, acc: Errs) -> (Result<ExprModel, ()>, int, Errs)
    decreases ts.len() - p, 17int,
{
    let (first, q, e) = primary_spec(ts, p, acc);
    match first {
        Err(_) => (Err(()), q, e),
        Ok(target) => if onward(ts, p, q) {
            postfix_rest(ts, target, q, e)
        } else {
            (Err(()), q, e)
        },
    }
}

#[verifier::opaque]
pub open spec fn postfix_rest(ts: Seq<Token>, target: ExprModel, p: int, acc: Errs) -> (Result<ExprModel, ()>, int, Errs)
    decreases ts.len() - p, 16int,
{
    if 0 <= p < ts.len() && tag_of(ts, p) == LEFT_BRACKET {
        let (index, q, e) = expression_spec(ts, p + 1, acc);
        match index {
            Err(_) => (Err(()), q, e),
            Ok(i) => if onward(ts, p + 1, q) {
                let (ok, q2, e2) = expect_spec(ts, q, RIGHT_BRACKET, "`]`"@, e);
                if !ok {
                    (Err(()), q2, e2)
                } else {
                    let t = ExprModel::Index(
                        Box::new(target),
                        Box::new(i),
                        join_spec(model_span(target), ts[q].span),
                    );
                    postfix_rest(ts, t, q2, e2)
                }
            } else {
                (Err(()), q, e)
            },
        }
    } else {
        (Ok(target), p, acc)
    }
}

/// Comma-separated expressions from `p`, the list so far being `items`, up
/// to the token `close`. Gives the items and the span of `close`.
#[verifier::opaque]
pub open spec fn list_rest(
    ts: Seq<Token>,
    close: u8,
    what: Seq<char>,
    items: Seq<ExprModel>,
    p: int,
    acc: Errs,
) -> (Result<(Seq<ExprModel>, Span), ()>, int, Errs)
    decreases ts.len() - p + 1, 0int,
{
    if 0 <= p < ts.len() {
        let (item, q, e) = expression_spec(ts, p, acc);
        match item {
            Err(_) => (Err(()), q, e),
            Ok(x) => if onward(ts, p, q) {
                if tag_of(ts, q) == COMMA {
                    let q2 = next_pos(ts, q);
                    if q2 <= p {
                        (Err(()), q2, e)
                    } else {
                        list_rest(ts, close, what, items.push(x), q2, e)
                    }
                } else {
                    let (ok, q2, e2) = expect_spec(ts, q, close, what, e);
                    if ok {
                        (Ok((items.push(x), ts[q].span)), q2, e2)
                    } else {
                        (Err(()), q2, e2)
                    }
                }
            } else {
                (Err(()), q, e)
            },
        }
    } else {
        (Err(()), p, acc)
    }
}

/// The list that follows the opening token at `open`.
#[verifier::opaque]
pub open spec fn list_spec(ts: Seq<Token>, open: int, close: u8, what: Seq<char>, acc: Errs) -> (Result<
    (Seq<ExprModel>, Span),
    (),
>, int, Errs)
    decreases ts.len() - open, 14int,
{
    if 0 <= open < ts.len() && tag_of(ts, open) != EOF {
        let p = open + 1;
        if p < ts.len() && tag_of(ts, p) == close {
            (Ok((Seq::empty(), ts[p].span)), next_pos(ts, p), acc)
        } else {
            list_rest(ts, close, what, Seq::empty(), p, acc)
        }
    } else {
        (Err(()), open, acc)
    }
}

/// One map entry `"key": value` at `p`.
#[verifier::opaque]
pub open spec fn entry_spec(ts: Seq<Token>, p: int, acc: Errs) -> (Result<(Seq<char>, ExprModel), ()>, int, Errs)
    decreases ts.len() - p, 12int,
{
    if 0 <= p < ts.len() {
        match ts[p].kind {
            TokenKind::Str(k) => {
                let p1 = p + 1;
                if p1 < ts.len() {
                    let (ok, p2, e1) = expect_spec(ts, p1, COLON, "`:`"@, acc);
                    if !ok {
                        (Err(()), p2, e1)
                    } else if onward(ts, p1, p2) {
                        let (value, p3, e2) = expression_spec(ts, p2, e1);
                        match value {
                            Err(_) => (Err(()), p3, e2),
                            Ok(v) => (Ok((k@, v)), p3, e2),
                        }
                    } else {
                        (Err(()), p2, e1)
                    }
                } else {
                    (Err(()), p, acc)
                }
            },
            _ => (Err(()), p, acc.push(expected_err(ts, p, "string key"@))),
        }
    } else {
        (Err(()), p, acc)
    }
}

/// Map entries from `p`, the entries so far being `entries`, up to and past
/// the closing `}`.
#[verifier::opaque]
pub open spec fn map_rest(
    ts: Seq<Token>,
    start: Span,
    entries: Seq<(Seq<char>, ExprModel)>,
    p: int,
    acc: Errs,
) -> (Result<ExprModel, ()>, int, Errs)
    decreases ts.len() - p, 13int,
{
    let (entry, p3, e) = entry_spec(ts, p, acc);
    match entry {
        Err(_) => (Err(()), p3, e),
        Ok(en) => if p < p3 < ts.len() {
            if tag_of(ts, p3) == COMMA {
                map_rest(ts, start, entries.push(en), next_pos(ts, p3), e)
            } else {
                let (ok, p4, e2) = expect_spec(ts, p3, RIGHT_BRACE, "`}`"@, e);
                if ok {
                    (Ok(ExprModel::Mapping(entries.push(en), join_spec(start, ts[p3].span))), p4, e2)
                } else {
                    (Err(()), p4, e2)
                }
            }
        } else {
            (Err(()), p3, e)
        },
    }
}

/// `{ ... }` at `p`.
#[verifier::opaque]
pub open spec fn map_spec(ts: Seq<Token>, p: int, acc: Errs) -> (Result<ExprModel, ()>, int, Errs)
    decreases ts.len() - p, 14int,
{
    if 0 <= p < ts.len() && tag_of(ts, p) != EOF {
        let q = p + 1;
        if q < ts.len() && tag_of(ts, q) == RIGHT_BRACE {
            (Ok(ExprModel::Mapping(Seq::empty(), join_spec(ts[p].span, ts[q].span))), next_pos(ts, q), acc)
        } else {
            map_rest(ts, ts[p].span, Seq::empty(), q, acc)
        }
    } else {
        (Err(()), p, acc)
    }
}

/// A literal, a variable, a call, a parenthesized expression, an array or
/// a map at `p`.
#[verifier::opaque]
pub open spec fn primary_spec(ts: Seq<Token>, p: int, acc: Errs) -> (Result<ExprModel, ()>, int, Errs)
    decreases ts.len() - p, 15int,
{
    if 0 <= p < ts.len() {
        let sp = ts[p].span;
        match ts[p].kind {
            TokenKind::Number(text) => (Ok(ExprModel::Literal(ValueModel::Number(text@), sp)), next_pos(ts, p), acc),
            TokenKind::Str(text) => (Ok(ExprModel::Literal(ValueModel::Text(text@), sp)), next_pos(ts, p), acc),
            TokenKind::True => (Ok(ExprModel::Literal(ValueModel::Boolean(true), sp)), next_pos(ts, p), acc),
            TokenKind::False => (Ok(ExprModel::Literal(ValueModel::Boolean(false), sp)), next_pos(ts, p), acc),
            TokenKind::Null => (Ok(ExprModel::Literal(ValueModel::Null, sp)), next_pos(ts, p), acc),
            TokenKind::Identifier(name) => {
                let q = p + 1;
                if q < ts.len() && tag_of(ts, q) == LEFT_PAREN {
                    let (arguments, q2, e) = list_spec(ts, q, RIGHT_PAREN, "`)`"@, acc);
                    match arguments {
                        Ok((args, close)) => (Ok(ExprModel::Call(name@, args, join_spec(sp, close))), q2, e),
                        Err(_) => (Err(()), q2, e),
                    }
                } else {
                    (Ok(ExprModel::Variable(name@, sp)), next_pos(ts, p), acc)
                }
            },
            TokenKind::LeftParen => {
                let (inner, q, e) = expression_spec(ts, p + 1, acc);
                match inner {
                    Err(_) => (Err(()), q, e),
                    Ok(x) => if 0 <= q < ts.len() {
                        let (ok, q2, e2) = expect_spec(ts, q, RIGHT_PAREN, "`)`"@, e);
                        if ok {
                            (Ok(x), q2, e2)
                        } else {
                            (Err(()), q2, e2)
                        }
                    } else {
                        (Err(()), q, e)
                    },
                }
            },
            TokenKind::LeftBracket => {
                let (elements, q, e) = list_spec(ts, p, RIGHT_BRACKET, "`]`"@, acc);
                match elements {
                    Ok((els, close)) => (Ok(ExprModel::Array(els, join_spec(sp, close))), q, e),
                    Err(_) => (Err(()), q, e),
                }
            },
            TokenKind::LeftBrace => map_spec(ts, p, acc),
            _ => (Err(()), p, acc.push(expected_err(ts, p, "expression"@))),
        }
    } else {
        (Err(()), p, acc)
    }
}

/// A type annotation at `p`.
#[verifier::opaque]
pub open spec fn type_spec(ts: Seq<Token>, p: int, acc: Errs) -> (Result<Type, ()>, int, Errs)
    decreases ts.len() - p,
{
    if 0 <= p < ts.len() {
        match ts[p].kind {
            TokenKind::Identifier(name) => if p + 1 < ts.len() {
                let n = name@;
                let q = p + 1;
                if n == "Int"@ {
                    (Ok(Type::Int), q, acc)
                } else if n == "Float"@ || n == "Number"@ {
                    (Ok(Type::Float), q, acc)
                } else if n == "Bool"@ || n == "Boolean"@ {
                    (Ok(Type::Bool), q, acc)
                } else if n == "String"@ {
                    (Ok(Type::String), q, acc)
                } else if n == "Null"@ {
                    (Ok(Type::Null), q, acc)
                } else if n == "Array"@ {
                    let (ok, q1, e1) = expect_spec(ts, q, LESS, "`<`"@, acc);
                    if !ok {
                        (Err(()), q1, e1)
                    } else {
                        let (element, q2, e2) = type_spec(ts, q1, e1);
                        match element {
                            Err(_) => (Err(()), q2, e2),
                            Ok(t) => if 0 <= q2 < ts.len() {
                                let (ok3, q3, e3) = expect_spec(ts, q2, GREATER, "`>`"@, e2);
                                if ok3 {
                                    (Ok(Type::Array(Box::new(t))), q3, e3)
                                } else {
                                    (Err(()), q3, e3)
                                }
                            } else {
                                (Err(()), q2, e2)
                            },
                        }
                    }
                } else if n == "Map"@ {
                    let (ok, q1, e1) = expect_spec(ts, q, LESS, "`<`"@, acc);
                    if !ok {
                        (Err(()), q1, e1)
                    } else {
                        let (key, q2, e2) = type_spec(ts, q1, e1);
                        match key {
                            Err(_) => (Err(()), q2, e2),
                            Ok(k) => if onward(ts, q1, q2) {
                                let (ok3, q3, e3) = expect_spec(ts, q2, COMMA, "`,`"@, e2);
                                if !ok3 {
                                    (Err(()), q3, e3)
                                } else {
                                    let (value, q4, e4) = type_spec(ts, q3, e3);
                                    match value {
                                        Err(_) => (Err(()), q4, e4),
                                        Ok(v) => if 0 <= q4 < ts.len() {
                                            let (ok5, q5, e5) = expect_spec(ts, q4, GREATER, "`>`"@, e4);
                                            if ok5 {
                                                (Ok(Type::Mapping(Box::new(k), Box::new(v))), q5, e5)
                                            } else {
                                                (Err(()), q5, e5)
                                            }
                                        } else {
                                            (Err(()), q4, e4)
                                        },
                                    }
                                }
                            } else {
                                (Err(()), q2, e2)
                            },
                        }
                    }
                } else {
                    (Err(()), q, acc.push(("unknown type `"@ + n + "`"@, ts[p].span)))
                }
            } else {
                (Err(()), p, acc)
            },
            _ => (Err(()), p, acc.push(expected_err(ts, p, "type"@))),
        }
    } else {
        (Err(()), p, acc)
    }
}

/// An optional `: Type` at `p`.
#[verifier::opaque]
pub open spec fn optional_spec(ts: Seq<Token>, p: int, acc: Errs) -> (Result<Option<Type>, ()>, int, Errs) {
    if 0 <= p < ts.len() && tag_of(ts, p) == COLON {
        let (t, q, e) = type_spec(ts, p + 1, acc);
        match t {
            Ok(t) => (Ok(Some(t)), q, e),
            Err(_) => (Err(()), q, e),
        }
    } else {
        (Ok(None), p, acc)
    }
}

/// Function parameters `name[: Type]` from `p`, the list so far being
/// `params`, up to and past the closing `)`.
#[verifier::opaque]
pub open spec fn params_spec(ts: Seq<Token>, params: Seq<(Seq<char>, Option<Type>)>, p: int, acc: Errs) -> (Result<
    Seq<(Seq<char>, Option<Type>)>,
    (),
>, int, Errs)
    decreases ts.len() - p,
{
    if 0 <= p < ts.len() {
        match ts[p].kind {
            TokenKind::Identifier(name) => if p + 1 < ts.len() {
                let (annotation, q1, e1) = optional_spec(ts, p + 1, acc);
                match annotation {
                    Err(_) => (Err(()), q1, e1),
                    Ok(a) => if onward(ts, p + 1, q1) {
                        let ps = params.push((name@, a));
                        if tag_of(ts, q1) == COMMA {
                            params_spec(ts, ps, next_pos(ts, q1), e1)
                        } else {
                            let (ok, q2, e2) = expect_spec(ts, q1, RIGHT_PAREN, "`)`"@, e1);
                            if ok {
                                (Ok(ps), q2, e2)
                            } else {
                                (Err(()), q2, e2)
                            }
                        }
                    } else {
                        (Err(()), q1, e1)
                    },
                }
            } else {
                (Err(()), p, acc)
            },
            _ => (Err(()), p, acc.push(expected_err(ts, p, "parameter name"@))),
        }
    } else {
        (Err(()), p, acc)
    }
}

/// Whether a token of this kind can begin a statement or close a block.
pub open spec fn resumes_spec(t: u8) -> bool {
    t == LET || t == PRINT || t == ASSERT || t == RETURN || t == FUNCTION || t == IF || t == REPEAT
        || t == WINDOW || t == END || t == OTHERWISE || t == EOF
}

/// The first token from `k` on that can begin a statement or close a block.
pub open spec fn resume_spec(ts: Seq<Token>, k: int) -> int
    decreases ts.len() - k,
{
    if 0 <= k < ts.len() && !resumes_spec(tag_of(ts, k)) {
        resume_spec(ts, next_pos(ts, k))
    } else {
        k
    }
}

/// Statements from `p` up to `end`, `Eof` or (where allowed) `otherwise`,
/// the statements so far being `done`. After a statement fails, parsing
/// resumes at the next token that can begin a statement.
#[verifier::opaque]
pub open spec fn block_rest(ts: Seq<Token>, allow_otherwise: bool, done: Seq<StmtModel>, p: int, acc: Errs) -> (
    Seq<StmtModel>,
    int,
    Errs,
)
    decreases ts.len() - p, 49int,
{
    if 0 <= p < ts.len() && tag_of(ts, p) != END && tag_of(ts, p) != EOF && !(allow_otherwise
        && tag_of(ts, p) == OTHERWISE) {
        let (st, q, e) = statement_spec(ts, p, acc);
        match st {
            Ok(s) => if p < q < ts.len() {
                block_rest(ts, allow_otherwise, done.push(s), q, e)
            } else {
                (done, q, e)
            },
            Err(_) => {
                let k0 = if q > p {
                    q
                } else {
                    next_pos(ts, p)
                };
                let k = resume_spec(ts, k0);
                if p < k < ts.len() {
                    block_rest(ts, allow_otherwise, done, k, e)
                } else {
                    (done, k, e)
                }
            },
        }
    } else {
        (done, p, acc)
    }
}

/// The statements of a block from `p`.
#[verifier::opaque]
pub open spec fn block_spec(ts: Seq<Token>, p: int, allow_otherwise: bool, acc: Errs) -> (Seq<StmtModel>, int, Errs)
    decreases ts.len() - p, 50int,
{
    block_rest(ts, allow_otherwise, Seq::empty(), p, acc)
}

/// `let NAME[: TYPE] be VALUE` at `pos`.
#[verifier::opaque]
pub open spec fn let_spec(ts: Seq<Token>, pos: int, acc: Errs) -> (Result<StmtModel, ()>, int, Errs)
    decreases ts.len() - pos, 47int,
{
    if 0 <= pos && pos + 1 < ts.len() {
        let sp = ts[pos].span;
        let p = pos + 1;
        match ts[p].kind {
            TokenKind::Identifier(name) => if p + 1 < ts.len() {
                let (annotation, p1, e1) = optional_spec(ts, p + 1, acc);
                match annotation {
                    Err(_) => (Err(()), p1, e1),
                    Ok(a) => if onward(ts, p + 1, p1) {
                        let (ok, p2, e2) = expect_spec(ts, p1, BE, "`be`"@, e1);
                        if !ok {
                            (Err(()), p2, e2)
                        } else {
                            let (value, p3, e3) = expression_spec(ts, p2, e2);
                            match value {
                                Ok(v) => (Ok(StmtModel::Let(name@, a, v, join_spec(sp, model_span(v)))), p3, e3),
                                Err(_) => (Err(()), p3, e3),
                            }
                        }
                    } else {
                        (Err(()), p1, e1)
                    },
                }
            } else {
                (Err(()), p, acc)
            },
            _ => (Err(()), p, acc.push(expected_err(ts, p, "variable name"@))),
        }
    } else {
        (Err(()), pos, acc)
    }
}

/// `NAME be VALUE` or `NAME = VALUE` at `pos`.
#[verifier::opaque]
pub open spec fn assign_spec(ts: Seq<Token>, pos: int, acc: Errs) -> (Result<StmtModel, ()>, int, Errs)
    decreases ts.len() - pos, 47int,
{
    if 0 <= pos && pos + 2 < ts.len() {
        let sp = ts[pos].span;
        let (value, p1, e) = expression_spec(ts, pos + 2, acc);
        match value {
            Ok(v) => (Ok(StmtModel::Assign(payload(ts[pos].kind), v, join_spec(sp, model_span(v)))), p1, e),
            Err(_) => (Err(()), p1, e),
        }
    } else {
        (Err(()), pos, acc)
    }
}

/// `print VALUE` or `assert VALUE` at `pos`.
#[verifier::opaque]
pub open spec fn print_spec(ts: Seq<Token>, pos: int, acc: Errs) -> (Result<StmtModel, ()>, int, Errs)
    decreases ts.len() - pos, 47int,
{
    if 0 <= pos && pos + 1 < ts.len() {
        let (value, p1, e) = expression_spec(ts, pos + 1, acc);
        match value {
            Ok(v) => if tag_of(ts, pos) == PRINT {
                (Ok(StmtModel::Print(v)), p1, e)
            } else {
                (Ok(StmtModel::Assert(v)), p1, e)
            },
            Err(_) => (Err(()), p1, e),
        }
    } else {
        (Err(()), pos, acc)
    }
}

/// `return [VALUE]` at `pos`: without a value before `end`, `otherwise`, the
/// end of input or another line.
#[verifier::opaque]
pub open spec fn return_spec(ts: Seq<Token>, pos: int, acc: Errs) -> (Result<StmtModel, ()>, int, Errs)
    decreases ts.len() - pos, 47int,
{
    if 0 <= pos && pos + 1 < ts.len() {
        let sp = ts[pos].span;
        let p = pos + 1;
        let following = tag_of(ts, p);
        if following == END || following == OTHERWISE || following == EOF || ts[p].span.line != sp.line {
            (Ok(StmtModel::Return(None, sp)), p, acc)
        } else {
            let (value, p1, e) = expression_spec(ts, p, acc);
            match value {
                Ok(v) => (Ok(StmtModel::Return(Some(v), join_spec(sp, model_span(v)))), p1, e),
                Err(_) => (Err(()), p1, e),
            }
        }
    } else {
        (Err(()), pos, acc)
    }
}

/// `repeat COUNT times BODY end` at `pos`.
#[verifier::opaque]
pub open spec fn repeat_spec(ts: Seq<Token>, pos: int, acc: Errs) -> (Result<StmtModel, ()>, int, Errs)
    decreases ts.len() - pos, 47int,
{
    if 0 <= pos && pos + 1 < ts.len() {
        let sp = ts[pos].span;
        let p = pos + 1;
        let (iterations, p1, e1) = expression_spec(ts, p, acc);
        match iterations {
            Err(_) => (Err(()), p1, e1),
            Ok(it) => if onward(ts, p, p1) {
                let (ok, p2, e2) = expect_spec(ts, p1, TIMES, "`times`"@, e1);
                if !ok {
                    (Err(()), p2, e2)
                } else {
                    let (body, p3, e3) = block_spec(ts, p2, false, e2);
                    if onward(ts, p2, p3) {
                        let (ok4, p4, e4) = expect_spec(ts, p3, END, "`end`"@, e3);
                        if ok4 {
                            (Ok(StmtModel::RepeatLoop(it, body, join_spec(sp, ts[p3].span))), p4, e4)
                        } else {
                            (Err(()), p4, e4)
                        }
                    } else {
                        (Err(()), p3, e3)
                    }
                }
            } else {
                (Err(()), p1, e1)
            },
        }
    } else {
        (Err(()), pos, acc)
    }
}

/// `window "TITLE" WIDTH, HEIGHT` at `pos`.
#[verifier::opaque]
pub open spec fn window_spec(ts: Seq<Token>, pos: int, acc: Errs) -> (Result<StmtModel, ()>, int, Errs)
    decreases ts.len() - pos, 47int,
{
    if 0 <= pos && pos + 1 < ts.len() {
        let sp = ts[pos].span;
        let p = pos + 1;
        match ts[p].kind {
            TokenKind::Str(title) => if p + 1 < ts.len() {
                let (width, p1, e1) = expression_spec(ts, p + 1, acc);
                match width {
                    Err(_) => (Err(()), p1, e1),
                    Ok(w) => if onward(ts, p + 1, p1) {
                        let (ok, p2, e2) = expect_spec(ts, p1, COMMA, "`,`"@, e1);
                        if !ok {
                            (Err(()), p2, e2)
                        } else {
                            let (height, p3, e3) = expression_spec(ts, p2, e2);
                            match height {
                                Ok(h) => (
                                    Ok(StmtModel::CreateWindow(title@, w, h, join_spec(sp, model_span(h)))),
                                    p3,
                                    e3,
                                ),
                                Err(_) => (Err(()), p3, e3),
                            }
                        }
                    } else {
                        (Err(()), p1, e1)
                    },
                }
            } else {
                (Err(()), p, acc)
            },
            _ => (Err(()), p, acc.push(expected_err(ts, p, "window title"@))),
        }
    } else {
        (Err(()), pos, acc)
    }
}

/// A statement at `pos`, by its first token.
#[verifier::opaque]
pub open spec fn statement_spec(ts: Seq<Token>, pos: int, acc: Errs) -> (Result<StmtModel, ()>, int, Errs)
    decreases ts.len() - pos, 48int,
{
    if 0 <= pos && pos + 1 < ts.len() {
        let t = tag_of(ts, pos);
        if t == LET {
            let_spec(ts, pos, acc)
        } else if t == IDENTIFIER && (tag_of(ts, pos + 1) == BE || tag_of(ts, pos + 1) == EQUAL) {
            assign_spec(ts, pos, acc)
        } else if t == PRINT || t == ASSERT {
            print_spec(ts, pos, acc)
        } else if t == RETURN {
            return_spec(ts, pos, acc)
        } else if t == FUNCTION {
            function_spec(ts, pos, acc)
        } else if t == IF {
            conditional_spec(ts, pos, acc)
        } else if t == REPEAT {
            repeat_spec(ts, pos, acc)
        } else if t == WINDOW {
            window_spec(ts, pos, acc)
        } else {
            (Err(()), pos, acc.push(expected_err(ts, pos, "statement"@)))
        }
    } else if 0 <= pos < ts.len() {
        (Err(()), pos, acc.push(expected_err(ts, pos, "statement"@)))
    } else {
        (Err(()), pos, acc)
    }
}

/// `function NAME(PARAMS)[: TYPE] BODY end` at `pos`.
#[verifier::opaque]
pub open spec fn function_spec(ts: Seq<Token>, pos: int, acc: Errs) -> (Result<StmtModel, ()>, int, Errs)
    decreases ts.len() - pos, 47int,
{
    if 0 <= pos && pos + 1 < ts.len() {
        let sp = ts[pos].span;
        let p = pos + 1;
        match ts[p].kind {
            TokenKind::Identifier(name) => if p + 1 < ts.len() {
                let (ok, q, e1) = expect_spec(ts, p + 1, LEFT_PAREN, "`(`"@, acc);
                if !ok {
                    (Err(()), q, e1)
                } else if 0 <= q < ts.len() {
                    let (params, q1, e2) = if tag_of(ts, q) == RIGHT_PAREN {
                        (Ok(Seq::empty()), next_pos(ts, q), e1)
                    } else {
                        params_spec(ts, Seq::empty(), q, e1)
                    };
                    match params {
                        Err(_) => (Err(()), q1, e2),
                        Ok(ps) => if onward(ts, q, q1) {
                            let (return_type, q3, e3) = optional_spec(ts, q1, e2);
                            match return_type {
                                Err(_) => (Err(()), q3, e3),
                                Ok(rt) => if onward(ts, q1, q3) && q3 > pos {
                                    let (body, q4, e4) = block_spec(ts, q3, false, e3);
                                    if onward(ts, q3, q4) {
                                        let (ok5, q5, e5) = expect_spec(ts, q4, END, "`end`"@, e4);
                                        if ok5 {
                                            (
                                                Ok(StmtModel::Function(name@, ps, rt, body, join_spec(sp, ts[q4].span))),
                                                q5,
                                                e5,
                                            )
                                        } else {
                                            (Err(()), q5, e5)
                                        }
                                    } else {
                                        (Err(()), q4, e4)
                                    }
                                } else {
                                    (Err(()), q3, e3)
                                },
                            }
                        } else {
                            (Err(()), q1, e2)
                        },
                    }
                } else {
                    (Err(()), q, e1)
                }
            } else {
                (Err(()), p, acc)
            },
            _ => (Err(()), p, acc.push(expected_err(ts, p, "function name"@))),
        }
    } else {
        (Err(()), pos, acc)
    }
}

/// `if CONDITION then BODY [otherwise BODY] end` at `pos`.
#[verifier::opaque]
pub open spec fn conditional_spec(ts: Seq<Token>, pos: int, acc: Errs) -> (Result<StmtModel, ()>, int, Errs)
    decreases ts.len() - pos, 47int,
{
    if 0 <= pos && pos + 1 < ts.len() {
        let sp = ts[pos].span;
        let (condition, p1, e1) = expression_spec(ts, pos + 1, acc);
        match condition {
            Err(_) => (Err(()), p1, e1),
            Ok(c) => if onward(ts, pos + 1, p1) {
                let (ok, p2, e2) = expect_spec(ts, p1, THEN, "`then`"@, e1);
                if !ok {
                    (Err(()), p2, e2)
                } else {
                    let (then_branch, p3, e3) = block_spec(ts, p2, true, e2);
                    if onward(ts, p2, p3) {
                        let (otherwise_branch, p4, e4) = if tag_of(ts, p3) == OTHERWISE {
                            let (st, q, e) = block_spec(ts, next_pos(ts, p3), false, e3);
                            (Some(st), q, e)
                        } else {
                            (None, p3, e3)
                        };
                        if 0 <= p4 < ts.len() {
                            let (ok5, p5, e5) = expect_spec(ts, p4, END, "`end`"@, e4);
                            if ok5 {
                                (
                                    Ok(StmtModel::Conditional(c, then_branch, otherwise_branch, join_spec(sp, ts[p4].span))),
                                    p5,
                                    e5,
                                )
                            } else {
                                (Err(()), p5, e5)
                            }
                        } else {
                            (Err(()), p4, e4)
                        }
                    } else {
                        (Err(()), p3, e3)
                    }
                }
            } else {
                (Err(()), p1, e1)
            },
        }
    } else {
        (Err(()), pos, acc)
    }
}

/// A program: `begin`, statements, `end`, then the end of input. The
/// statements as a block, or every error found.
pub open spec fn parse_spec(ts: Seq<Token>) -> Result<StmtModel, Errs> {
    let (p, e0) = if tag_of(ts, 0) == BEGIN {
        (next_pos(ts, 0), Seq::empty())
    } else {
        (0, seq![expected_err(ts, 0, "`begin`"@)])
    };
    let (statements, q, e1) = block_spec(ts, p, false, e0);
    let (ok, q1, e2) = expect_spec(ts, q, END, "`end`"@, e1);
    let errs = if ok {
        expect_spec(ts, q1, EOF, "end of input"@, e2).2
    } else {
        e2
    };
    if errs.len() > 0 {
        Err(errs)
    } else {
        Ok(StmtModel::Block(statements))
    }
}

pub proof fn lemma_binary_node(left: ExprModel, op: Op, right: ExprModel)
    ensures
        binary_model(left, op, right) matches ExprModel::Binary(l, o, r, _) && *l == left && o == op && *r
            == right,
{
}

/// After an operand, the token `+` joins it to the next operand as an
/// addition and `-` as a subtraction; parsing then goes on from the joined
/// node.
pub proof fn lemma_additive_operator(ts: Seq<Token>, left: ExprModel, p: int, acc: Errs)
    requires
        0 <= p < ts.len(),
        multiplicative_spec(ts, p + 1, acc).0 is Ok,
        onward(ts, p + 1, multiplicative_spec(ts, p + 1, acc).1),
    ensures
        ({
            let (right, q, e) = multiplicative_spec(ts, p + 1, acc);
            &&& tag_of(ts, p) == PLUS ==> additive_rest(ts, left, p, acc) == additive_rest(
                ts,
                binary_model(left, Op::Add, right->Ok_0),
                q,
                e,
            )
            &&& tag_of(ts, p) == MINUS ==> additive_rest(ts, left, p, acc) == additive_rest(
                ts,
                binary_model(left, Op::Sub, right->Ok_0),
                q,
                e,
            )
        }),
{
    reveal(additive_rest);
    reveal(multiplicative_spec);
}

/// After an operand, `*` joins it to the next operand as a multiplication
/// and `/` as a division.
pub proof fn lemma_multiplicative_operator(ts: Seq<Token>, left: ExprModel, p: int, acc: Errs)
    requires
        0 <= p < ts.len(),
        unary_spec(ts, p + 1, acc).0 is Ok,
        onward(ts, p + 1, unary_spec(ts, p + 1, acc).1),
    ensures
        ({
            let (right, q, e) = unary_spec(ts, p + 1, acc);
            &&& tag_of(ts, p) == STAR ==> multiplicative_rest(ts, left, p, acc) == multiplicative_rest(
                ts,
                binary_model(left, Op::Mul, right->Ok_0),
                q,
                e,
            )
            &&& tag_of(ts, p) == SLASH ==> multiplicative_rest(ts, left, p, acc) == multiplicative_rest(
                ts,
                binary_model(left, Op::Div, right->Ok_0),
                q,
                e,
            )
        }),
{
    reveal(multiplicative_rest);
    reveal(unary_spec);
}

/// After an operand, `is` and `==` join it to the next operand as an
/// equality test, `and` as a conjunction and `or` as a disjunction.
pub proof fn lemma_logical_operators(ts: Seq<Token>, left: ExprModel, p: int, acc: Errs)
    requires
        0 <= p < ts.len(),
    ensures
        ({
            let (right, q, e) = additive_spec(ts, p + 1, acc);
            (tag_of(ts, p) == IS || tag_of(ts, p) == EQUAL_EQUAL) && right is Ok && onward(ts, p + 1, q)
                ==> equality_rest(ts, left, p, acc) == equality_rest(
                ts,
                binary_model(left, Op::Eq, right->Ok_0),
                q,
                e,
            )
        }),
        ({
            let (right, q, e) = equality_spec(ts, p + 1, acc);
            tag_of(ts, p) == AND && right is Ok && onward(ts, p + 1, q) ==> and_rest(ts, left, p, acc)
                == and_rest(ts, binary_model(left, Op::And, right->Ok_0), q, e)
        }),
        ({
            let (right, q, e) = and_spec(ts, p + 1, acc);
            tag_of(ts, p) == OR && right is Ok && onward(ts, p + 1, q) ==> or_rest(ts, left, p, acc)
                == or_rest(ts, binary_model(left, Op::Or, right->Ok_0), q, e)
        }),
{
    reveal(equality_rest);
    reveal(and_rest);
    reveal(or_rest);
    reveal(additive_spec);
    reveal(equality_spec);
    reveal(and_spec);
}

/// The kind numbers the grammar reads are those of the token kinds.
pub proof fn lemma_operator_tags()
    ensures
        PLUS == tag_spec(TokenKind::Plus),
        MINUS == tag_spec(TokenKind::Minus),
        STAR == tag_spec(TokenKind::Star),
        SLASH == tag_spec(TokenKind::Slash),
        EQUAL_EQUAL == tag_spec(TokenKind::EqualEqual),
        IS == tag_spec(TokenKind::Is),
        AND == tag_spec(TokenKind::And),
        OR == tag_spec(TokenKind::Or),
{
}

/// A `-` before a unary expression negates it.
pub proof fn lemma_negation_parsed(ts: Seq<Token>, p: int, acc: Errs)
    requires
        0 <= p < ts.len(),
        tag_of(ts, p) == MINUS,
        unary_spec(ts, p + 1, acc).0 is Ok,
    ensures
        ({
            let (x, q, e) = unary_spec(ts, p + 1, acc);
            unary_spec(ts, p, acc) == (
                Ok::<ExprModel, ()>(ExprModel::Unary(Op::Neg, Box::new(x->Ok_0), join_spec(ts[p].span, model_span(x->Ok_0)))),
                q,
                e,
            )
        }),
{
    reveal(unary_spec);
}

/// A literal token parses as the literal it carries, and a name not
/// followed by `(` as that variable; each takes just its own token.
pub proof fn lemma_literal_tokens(ts: Seq<Token>, p: int, acc: Errs)
    requires
        0 <= p < ts.len(),
    ensures
        ({
            let sp = ts[p].span;
            let after = next_pos(ts, p);
            &&& ts[p].kind matches TokenKind::Number(t) ==> primary_spec(ts, p, acc) == (
                Ok::<ExprModel, ()>(ExprModel::Literal(ValueModel::Number(t@), sp)),
                after,
                acc,
            )
            &&& ts[p].kind matches TokenKind::Str(t) ==> primary_spec(ts, p, acc) == (
                Ok::<ExprModel, ()>(ExprModel::Literal(ValueModel::Text(t@), sp)),
                after,
                acc,
            )
            &&& ts[p].kind is True ==> primary_spec(ts, p, acc) == (
                Ok::<ExprModel, ()>(ExprModel::Literal(ValueModel::Boolean(true), sp)),
                after,
                acc,
            )
            &&& ts[p].kind is False ==> primary_spec(ts, p, acc) == (
                Ok::<ExprModel, ()>(ExprModel::Literal(ValueModel::Boolean(false), sp)),
                after,
                acc,
            )
            &&& ts[p].kind is Null ==> primary_spec(ts, p, acc) == (
                Ok::<ExprModel, ()>(ExprModel::Literal(ValueModel::Null, sp)),
                after,
                acc,
            )
            &&& (ts[p].kind matches TokenKind::Identifier(n) && !(p + 1 < ts.len() && tag_of(ts, p + 1)
                == LEFT_PAREN)) ==> primary_spec(ts, p, acc) == (
                Ok::<ExprModel, ()>(ExprModel::Variable(payload(ts[p].kind), sp)),
                after,
                acc,
            )
        }),
{
    reveal(primary_spec);
}

} // verus!
