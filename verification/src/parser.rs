//! A recoverable recursive-descent parser with conventional precedence.
use vstd::prelude::*;
use crate::ast::{
    expr_entries_model, expr_model, exprs_model, lemma_model_span, parameters_model, stmt_model,
    stmts_model, Expr, ExprModel, Op, Stmt, StmtModel, Type, Value,
};
use crate::grammar::{
    additive_rest, additive_spec, and_rest, and_spec, block_rest, block_spec, conditional_spec,
    equality_rest, equality_spec, expect_spec, expected_err, expression_spec, function_spec,
    join_spec, kind_text, list_rest, onward, list_spec, map_rest, map_spec, multiplicative_rest,
    multiplicative_spec, next_pos, optional_spec, or_rest, or_spec, params_spec, parse_spec,
    postfix_rest, postfix_spec, primary_spec, resume_spec, resumes_spec, statement_spec, tag_of,
    type_spec, unary_spec, binary_model, entry_spec, let_spec, assign_spec, print_spec, return_spec,
    repeat_spec, window_spec, Errs, AND, ASSERT, BE, BEGIN, COLON, COMMA, END, EOF,
    EQUAL, EQUAL_EQUAL, FUNCTION, GREATER, IDENTIFIER, IF, IS, LEFT_BRACKET, LEFT_PAREN, LESS, LET,
    MINUS, OR, OTHERWISE, PLUS, PRINT, REPEAT, RETURN, RIGHT_BRACE, RIGHT_BRACKET, RIGHT_PAREN,
    SLASH, STAR, THEN, TIMES, WINDOW,
};
use crate::lexer::{payload, tag_spec, Span, Token, TokenKind};
use crate::text::{copy_string, push_str, string_of};

verus! {

/// A syntax error: its message and where it was found.
#[derive(Debug, PartialEq)]
pub struct ParseError {
    pub message: String,
    pub span: Span,
}

/// Parses a token sequence into a program.
pub struct Parser {
    tokens: Vec<Token>,
}


fn tag(k: &TokenKind) -> (r: u8)
    ensures
        r == tag_spec(*k),
{
    match k {
        TokenKind::Begin => 0,
        TokenKind::End => 1,
        TokenKind::Let => 2,
        TokenKind::Be => 3,
        TokenKind::Print => 4,
        TokenKind::Assert => 5,
        TokenKind::If => 6,
        TokenKind::Then => 7,
        TokenKind::Otherwise => 8,
        TokenKind::Repeat => 9,
        TokenKind::Times => 10,
        TokenKind::Function => 11,
        TokenKind::Return => 12,
        TokenKind::Window => 13,
        TokenKind::True => 14,
        TokenKind::False => 15,
        TokenKind::Null => 16,
        TokenKind::And => 17,
        TokenKind::Or => 18,
        TokenKind::Is => 19,
        TokenKind::Identifier(_) => 20,
        TokenKind::Number(_) => 21,
        TokenKind::Str(_) => 22,
        TokenKind::Plus => 23,
        TokenKind::Minus => 24,
        TokenKind::Star => 25,
        TokenKind::Slash => 26,
        TokenKind::EqualEqual => 27,
        TokenKind::Equal => 28,
        TokenKind::LeftParen => 29,
        TokenKind::RightParen => 30,
        TokenKind::LeftBracket => 31,
        TokenKind::RightBracket => 32,
        TokenKind::LeftBrace => 33,
        TokenKind::RightBrace => 34,
        TokenKind::Comma => 35,
        TokenKind::Colon => 36,
        TokenKind::Less => 37,
        TokenKind::Greater => 38,
        TokenKind::Eof => 39,
    }
}

/// The name of a token kind in messages.
fn kind_name(k: &TokenKind) -> (r: String)
    ensures
        r@ == kind_text(*k),
{
    let name = match k {
        TokenKind::Begin => "Begin",
        TokenKind::End => "End",
        TokenKind::Let => "Let",
        TokenKind::Be => "Be",
        TokenKind::Print => "Print",
        TokenKind::Assert => "Assert",
        TokenKind::If => "If",
        TokenKind::Then => "Then",
        TokenKind::Otherwise => "Otherwise",
        TokenKind::Repeat => "Repeat",
        TokenKind::Times => "Times",
        TokenKind::Function => "Function",
        TokenKind::Return => "Return",
        TokenKind::Window => "Window",
        TokenKind::True => "True",
        TokenKind::False => "False",
        TokenKind::Null => "Null",
        TokenKind::And => "And",
        TokenKind::Or => "Or",
        TokenKind::Is => "Is",
        TokenKind::Identifier(_) => "Identifier",
        TokenKind::Number(_) => "Number",
        TokenKind::Str(_) => "Str",
        TokenKind::Plus => "Plus",
        TokenKind::Minus => "Minus",
        TokenKind::Star => "Star",
        TokenKind::Slash => "Slash",
        TokenKind::EqualEqual => "EqualEqual",
        TokenKind::Equal => "Equal",
        TokenKind::LeftParen => "LeftParen",
        TokenKind::RightParen => "RightParen",
        TokenKind::LeftBracket => "LeftBracket",
        TokenKind::RightBracket => "RightBracket",
        TokenKind::LeftBrace => "LeftBrace",
        TokenKind::RightBrace => "RightBrace",
        TokenKind::Comma => "Comma",
        TokenKind::Colon => "Colon",
        TokenKind::Less => "Less",
        TokenKind::Greater => "Greater",
        TokenKind::Eof => "Eof",
    };
    string_of(name)
}

/// `i` is the position of the first `Eof` token.
pub open spec fn first_eof(ts: Seq<Token>, i: int) -> bool {
    &&& 0 <= i < ts.len()
    &&& ts[i].kind is Eof
    &&& forall|j: int| 0 <= j < i ==> !(#[trigger] ts[j].kind is Eof)
}

/// A span from the start of `a` to the end of `b`.
fn join(a: Span, b: Span) -> (r: Span)
    ensures
        r == join_spec(a, b),
{
    Span { line: a.line, column: a.column, start: a.start, end: b.end }
}

/// Syntax errors as message characters and spans.
pub open spec fn errs_view(es: Seq<ParseError>) -> Errs {
    es.map_values(|e: ParseError| (e.message@, e.span))
}

pub open spec fn expr_result(r: Result<Expr, ()>) -> Result<ExprModel, ()> {
    match r {
        Ok(e) => Ok(expr_model(e)),
        Err(_) => Err(()),
    }
}

pub open spec fn stmt_result(r: Result<Stmt, ()>) -> Result<StmtModel, ()> {
    match r {
        Ok(s) => Ok(stmt_model(s)),
        Err(_) => Err(()),
    }
}

/// An expression parse ended as the grammar says, with the errors `after`.
pub open spec fn expr_done(
    r: (Result<Expr, ()>, usize),
    s: (Result<ExprModel, ()>, int, Errs),
    after: Seq<ParseError>,
) -> bool {
    expr_result(r.0) == s.0 && r.1 as int == s.1 && errs_view(after) == s.2
}

pub open spec fn stmt_done(
    r: (Result<Stmt, ()>, usize),
    s: (Result<StmtModel, ()>, int, Errs),
    after: Seq<ParseError>,
) -> bool {
    stmt_result(r.0) == s.0 && r.1 as int == s.1 && errs_view(after) == s.2
}

pub open spec fn parse_result(r: Result<Stmt, Vec<ParseError>>) -> Result<StmtModel, Errs> {
    match r {
        Ok(s) => Ok(stmt_model(s)),
        Err(es) => Err(errs_view(es@)),
    }
}

fn report(errors: &mut Vec<ParseError>, message: String, span: Span)
    ensures
        errs_view(final(errors)@) == errs_view(old(errors)@).push((message@, span)),
{
    let ghost m = message@;
    errors.push(ParseError { message, span });
    proof {
        assert(errs_view(errors@) =~= errs_view(old(errors)@).push((m, span)));
    }
}

impl Parser {
    /// The tokens the parser reads.
    pub closed spec fn tokens(&self) -> Seq<Token> {
        self.tokens@
    }

    /// The parser's tokens end with exactly one `Eof`.
    pub closed spec fn wf(&self) -> bool {
        &&& self.tokens@.len() > 0
        &&& self.tokens@.last().kind is Eof
        &&& forall|i: int| 0 <= i < self.tokens@.len() - 1 ==> !(#[trigger] self.tokens@[i].kind is Eof)
    }

    /// A parser over `tokens`; an `Eof` token is added where the sequence
    /// does not end with one, and tokens after the first `Eof` are dropped.
    pub fn new(tokens: Vec<Token>) -> (r: Self)
        ensures
            r.wf(),
            forall|i: int| #[trigger] first_eof(tokens@, i) ==> r.tokens() == tokens@.take(i + 1),
            (forall|j: int| 0 <= j < tokens@.len() ==> !(#[trigger] tokens@[j].kind is Eof))
                ==> r.tokens().drop_last() == tokens@,
    {
        let ghost input = tokens@;
        let mut ts = tokens;
        let mut i: usize = 0;
        while i < ts.len() && !matches!(ts[i].kind, TokenKind::Eof)
            invariant
                i <= input.len(),
                ts@ == input,
                forall|j: int| 0 <= j < i ==> !(#[trigger] input[j].kind is Eof),
            decreases ts.len() - i,
        {
            i += 1;
        }
        if i < ts.len() {
            ts.truncate(i + 1);
            proof {
                assert(ts@ =~= input.take(i + 1));
                assert forall|k: int| #[trigger] first_eof(input, k) implies k == i by {
                    if k < i {
                        assert(!(input[k].kind is Eof));
                    } else if k > i {
                        assert(!(input[i as int].kind is Eof));
                    }
                }
                assert(input[i as int].kind is Eof);
            }
            return Parser { tokens: ts };
        }
        let end = if ts.len() > 0 {
            ts[ts.len() - 1].span.end
        } else {
            0
        };
        let ghost before = ts@;
        ts.push(Token { kind: TokenKind::Eof, span: Span { line: 1, column: 1, start: end, end } });
        proof {
            assert(forall|j: int| 0 <= j < before.len() ==> ts@[j] == before[j]);
            assert(ts@.drop_last() =~= input);
            assert forall|k: int| #[trigger] first_eof(input, k) implies false by {
                assert(!(input[k].kind is Eof));
            }
        }
        Parser { tokens: ts }
    }

    spec fn valid(&self, pos: usize) -> bool {
        pos < self.tokens@.len()
    }

    /// A token other than `Eof` is followed by another.
    proof fn lemma_not_last(&self, pos: int)
        requires
            self.wf(),
            0 <= pos < self.tokens@.len(),
            tag_spec(self.tokens@[pos].kind) != EOF,
        ensures
            pos + 1 < self.tokens@.len(),
    {
        if pos == self.tokens@.len() - 1 {
            assert(self.tokens@.last() == self.tokens@[pos]);
        }
    }

    fn tag_at(&self, pos: usize) -> (r: u8)
        requires
            self.valid(pos),
        ensures
            r == tag_spec(self.tokens@[pos as int].kind),
            r == tag_of(self.tokens@, pos as int),
    {
        tag(&self.tokens[pos].kind)
    }

    fn span_at(&self, pos: usize) -> (r: Span)
        requires
            self.valid(pos),
        ensures
            r == self.tokens@[pos as int].span,
    {
        self.tokens[pos].span
    }

    /// The position after the token at `pos`, which stays put at `Eof`.
    fn next(&self, pos: usize) -> (r: usize)
        requires
            self.wf(),
            self.valid(pos),
        ensures
            self.valid(r),
            r >= pos,
            r as int == next_pos(self.tokens@, pos as int),
            tag_spec(self.tokens@[pos as int].kind) != EOF ==> r == pos + 1,
    {
        if matches!(self.tokens[pos].kind, TokenKind::Eof) {
            pos
        } else {
            let n = self.tokens.len();
            proof {
                assert(tag_spec(self.tokens@[pos as int].kind) != EOF);
                self.lemma_not_last(pos as int);
            }
            pos + 1
        }
    }

    /// Records "expected WHAT, found KIND" at `pos`.
    fn expected(&self, pos: usize, what: &str, errors: &mut Vec<ParseError>)
        requires
            self.valid(pos),
        ensures
            errs_view(final(errors)@) == errs_view(old(errors)@).push(
                expected_err(self.tokens@, pos as int, what@),
            ),
    {
        let mut message = string_of("expected ");
        push_str(&mut message, what);
        push_str(&mut message, ", found ");
        let found = kind_name(&self.tokens[pos].kind);
        push_str(&mut message, found.as_str());
        report(errors, message, self.tokens[pos].span);
    }
}

impl Parser {
    /// Expects a token of the given kind at `pos`; records an error otherwise.
    fn expect(&self, pos: usize, t: u8, what: &str, errors: &mut Vec<ParseError>) -> (r: (bool, usize))
        requires
            self.wf(),
            self.valid(pos),
        ensures
            self.valid(r.1),
            r.1 >= pos,
            r.0 ==> r.1 > pos || t == EOF,
            ({
                let s = expect_spec(self.tokens@, pos as int, t, what@, errs_view(old(errors)@));
                &&& r.0 == s.0
                &&& r.1 as int == s.1
                &&& errs_view(final(errors)@) == s.2
            }),
    {
        if self.tag_at(pos) == t {
            (true, self.next(pos))
        } else {
            self.expected(pos, what, errors);
            (false, pos)
        }
    }

    fn name_at(&self, pos: usize) -> (r: Option<String>)
        requires
            self.valid(pos),
        ensures
            r is Some ==> tag_spec(self.tokens@[pos as int].kind) == IDENTIFIER,
            match r {
                Some(n) => self.tokens@[pos as int].kind is Identifier && n@ == payload(
                    self.tokens@[pos as int].kind,
                ),
                None => !(self.tokens@[pos as int].kind is Identifier),
            },
    {
        match &self.tokens[pos].kind {
            TokenKind::Identifier(name) => Some(copy_string(name)),
            _ => None,
        }
    }

    #[verifier::spinoff_prover]
    fn expression(&self, pos: usize, errors: &mut Vec<ParseError>) -> (r: (Result<Expr, ()>, usize))
        requires
            self.wf(),
            self.valid(pos),
        ensures
            self.valid(r.1),
            r.1 >= pos,
            expr_done(r, expression_spec(self.tokens@, pos as int, errs_view(old(errors)@)), final(errors)@),
        decreases self.tokens@.len() - pos, 9nat,
    {
        proof {
            reveal(expression_spec);
        }
        self.or_expr(pos, errors)
    }

    #[verifier::spinoff_prover]
    fn or_expr(&self, pos: usize, errors: &mut Vec<ParseError>) -> (r: (Result<Expr, ()>, usize))
        requires
            self.wf(),
            self.valid(pos),
        ensures
            self.valid(r.1),
            r.1 >= pos,
            expr_done(r, or_spec(self.tokens@, pos as int, errs_view(old(errors)@)), final(errors)@),
        decreases self.tokens@.len() - pos, 8nat,
    {
        proof {
            reveal(or_spec);
            reveal(or_rest);
        }
        let ghost ts = self.tokens@;
        let (first, mut p) = self.and_expr(pos, errors);
        let mut left = match first {
            Ok(e) => e,
            Err(_) => return (Err(()), p),
        };
        while self.tag_at(p) == OR
            invariant
                self.wf(),
                self.valid(p),
                p >= pos,
                ts == self.tokens@,
                or_spec(ts, pos as int, errs_view(old(errors)@)) == or_rest(
                    ts,
                    expr_model(left),
                    p as int,
                    errs_view(errors@),
                ),
            decreases self.tokens@.len() - p,
        {
            proof {
                reveal(or_rest);
            }
            let n = self.next(p);
            let (right, q) = self.and_expr(n, errors);
            p = q;
            match right {
                Ok(r) => {
                    proof {
                        lemma_model_span(left);
                        lemma_model_span(r);
                    }
                    let sp = join(left.span(), r.span());
                    left = Expr::Binary { left: Box::new(left), op: Op::Or, right: Box::new(r), span: sp };
                },
                Err(_) => return (Err(()), p),
            }
        }
        (Ok(left), p)
    }

    #[verifier::spinoff_prover]
    fn and_expr(&self, pos: usize, errors: &mut Vec<ParseError>) -> (r: (Result<Expr, ()>, usize))
        requires
            self.wf(),
            self.valid(pos),
        ensures
            self.valid(r.1),
            r.1 >= pos,
            expr_done(r, and_spec(self.tokens@, pos as int, errs_view(old(errors)@)), final(errors)@),
        decreases self.tokens@.len() - pos, 7nat,
    {
        proof {
            reveal(and_spec);
            reveal(and_rest);
        }
        let ghost ts = self.tokens@;
        let (first, mut p) = self.equality(pos, errors);
        let mut left = match first {
            Ok(e) => e,
            Err(_) => return (Err(()), p),
        };
        while self.tag_at(p) == AND
            invariant
                self.wf(),
                self.valid(p),
                p >= pos,
                ts == self.tokens@,
                and_spec(ts, pos as int, errs_view(old(errors)@)) == and_rest(
                    ts,
                    expr_model(left),
                    p as int,
                    errs_view(errors@),
                ),
            decreases self.tokens@.len() - p,
        {
            proof {
                reveal(and_rest);
            }
            let n = self.next(p);
            let (right, q) = self.equality(n, errors);
            p = q;
            match right {
                Ok(r) => {
                    proof {
                        lemma_model_span(left);
                        lemma_model_span(r);
                    }
                    let sp = join(left.span(), r.span());
                    left = Expr::Binary { left: Box::new(left), op: Op::And, right: Box::new(r), span: sp };
                },
                Err(_) => return (Err(()), p),
            }
        }
        (Ok(left), p)
    }

    #[verifier::spinoff_prover]
    fn equality(&self, pos: usize, errors: &mut Vec<ParseError>) -> (r: (Result<Expr, ()>, usize))
        requires
            self.wf(),
            self.valid(pos),
        ensures
            self.valid(r.1),
            r.1 >= pos,
            expr_done(r, equality_spec(self.tokens@, pos as int, errs_view(old(errors)@)), final(errors)@),
        decreases self.tokens@.len() - pos, 6nat,
    {
        proof {
            reveal(equality_spec);
            reveal(equality_rest);
        }
        let ghost ts = self.tokens@;
        let (first, mut p) = self.additive(pos, errors);
        let mut left = match first {
            Ok(e) => e,
            Err(_) => return (Err(()), p),
        };
        while self.tag_at(p) == IS || self.tag_at(p) == EQUAL_EQUAL
            invariant
                self.wf(),
                self.valid(p),
                p >= pos,
                ts == self.tokens@,
                equality_spec(ts, pos as int, errs_view(old(errors)@)) == equality_rest(
                    ts,
                    expr_model(left),
                    p as int,
                    errs_view(errors@),
                ),
            decreases self.tokens@.len() - p,
        {
            proof {
                reveal(equality_rest);
            }
            let n = self.next(p);
            let (right, q) = self.additive(n, errors);
            p = q;
            match right {
                Ok(r) => {
                    proof {
                        lemma_model_span(left);
                        lemma_model_span(r);
                    }
                    let sp = join(left.span(), r.span());
                    left = Expr::Binary { left: Box::new(left), op: Op::Eq, right: Box::new(r), span: sp };
                },
                Err(_) => return (Err(()), p),
            }
        }
        (Ok(left), p)
    }

    #[verifier::spinoff_prover]
    fn additive(&self, pos: usize, errors: &mut Vec<ParseError>) -> (r: (Result<Expr, ()>, usize))
        requires
            self.wf(),
            self.valid(pos),
        ensures
            self.valid(r.1),
            r.1 >= pos,
            expr_done(r, additive_spec(self.tokens@, pos as int, errs_view(old(errors)@)), final(errors)@),
        decreases self.tokens@.len() - pos, 5nat,
    {
        proof {
            reveal(additive_spec);
            reveal(additive_rest);
        }
        let ghost ts = self.tokens@;
        let (first, mut p) = self.multiplicative(pos, errors);
        let mut left = match first {
            Ok(e) => e,
            Err(_) => return (Err(()), p),
        };
        while self.tag_at(p) == PLUS || self.tag_at(p) == MINUS
            invariant
                self.wf(),
                self.valid(p),
                p >= pos,
                ts == self.tokens@,
                additive_spec(ts, pos as int, errs_view(old(errors)@)) == additive_rest(
                    ts,
                    expr_model(left),
                    p as int,
                    errs_view(errors@),
                ),
            decreases self.tokens@.len() - p,
        {
            proof {
                reveal(additive_rest);
            }
            let op = if self.tag_at(p) == PLUS { Op::Add } else { Op::Sub };
            let n = self.next(p);
            let (right, q) = self.multiplicative(n, errors);
            p = q;
            match right {
                Ok(r) => {
                    proof {
                        lemma_model_span(left);
                        lemma_model_span(r);
                    }
                    let sp = join(left.span(), r.span());
                    left = Expr::Binary { left: Box::new(left), op, right: Box::new(r), span: sp };
                },
                Err(_) => return (Err(()), p),
            }
        }
        (Ok(left), p)
    }

    #[verifier::spinoff_prover]
    fn multiplicative(&self, pos: usize, errors: &mut Vec<ParseError>) -> (r: (Result<Expr, ()>, usize))
        requires
            self.wf(),
            self.valid(pos),
        ensures
            self.valid(r.1),
            r.1 >= pos,
            expr_done(r, multiplicative_spec(self.tokens@, pos as int, errs_view(old(errors)@)), final(errors)@),
        decreases self.tokens@.len() - pos, 4nat,
    {
        proof {
            reveal(multiplicative_spec);
            reveal(multiplicative_rest);
        }
        let ghost ts = self.tokens@;
        let (first, mut p) = self.unary(pos, errors);
        let mut left = match first {
            Ok(e) => e,
            Err(_) => return (Err(()), p),
        };
        while self.tag_at(p) == STAR || self.tag_at(p) == SLASH
            invariant
                self.wf(),
                self.valid(p),
                p >= pos,
                ts == self.tokens@,
                multiplicative_spec(ts, pos as int, errs_view(old(errors)@)) == multiplicative_rest(
                    ts,
                    expr_model(left),
                    p as int,
                    errs_view(errors@),
                ),
            decreases self.tokens@.len() - p,
        {
            proof {
                reveal(multiplicative_rest);
            }
            let op = if self.tag_at(p) == STAR { Op::Mul } else { Op::Div };
            let n = self.next(p);
            let (right, q) = self.unary(n, errors);
            p = q;
            match right {
                Ok(r) => {
                    proof {
                        lemma_model_span(left);
                        lemma_model_span(r);
                    }
                    let sp = join(left.span(), r.span());
                    left = Expr::Binary { left: Box::new(left), op, right: Box::new(r), span: sp };
                },
                Err(_) => return (Err(()), p),
            }
        }
        (Ok(left), p)
    }

    #[verifier::spinoff_prover]
    fn unary(&self, pos: usize, errors: &mut Vec<ParseError>) -> (r: (Result<Expr, ()>, usize))
        requires
            self.wf(),
            self.valid(pos),
        ensures
            self.valid(r.1),
            r.1 >= pos,
            expr_done(r, unary_spec(self.tokens@, pos as int, errs_view(old(errors)@)), final(errors)@),
        decreases self.tokens@.len() - pos, 3nat,
    {
        proof {
            reveal(unary_spec);
        }
        if self.tag_at(pos) == MINUS {
            let start = self.span_at(pos);
            let n = self.next(pos);
            let (operand, p) = self.unary(n, errors);
            match operand {
                Ok(e) => {
                    proof {
                        lemma_model_span(e);
                    }
                    let sp = join(start, e.span());
                    (Ok(Expr::Unary { op: Op::Neg, expr: Box::new(e), span: sp }), p)
                },
                Err(_) => (Err(()), p),
            }
        } else {
            self.postfix(pos, errors)
        }
    }

    #[verifier::spinoff_prover]
    fn postfix(&self, pos: usize, errors: &mut Vec<ParseError>) -> (r: (Result<Expr, ()>, usize))
        requires
            self.wf(),
            self.valid(pos),
        ensures
            self.valid(r.1),
            r.1 >= pos,
            expr_done(r, postfix_spec(self.tokens@, pos as int, errs_view(old(errors)@)), final(errors)@),
        decreases self.tokens@.len() - pos, 2nat,
    {
        proof {
            reveal(postfix_spec);
            reveal(postfix_rest);
        }
        let ghost ts = self.tokens@;
        let (first, mut p) = self.primary(pos, errors);
        let mut target = match first {
            Ok(e) => e,
            Err(_) => return (Err(()), p),
        };
        while self.tag_at(p) == LEFT_BRACKET
            invariant
                self.wf(),
                self.valid(p),
                p >= pos,
                ts == self.tokens@,
                postfix_spec(ts, pos as int, errs_view(old(errors)@)) == postfix_rest(
                    ts,
                    expr_model(target),
                    p as int,
                    errs_view(errors@),
                ),
            decreases self.tokens@.len() - p,
        {
            proof {
                reveal(postfix_rest);
            }
            let n = self.next(p);
            let (index, q) = self.expression(n, errors);
            let index = match index {
                Ok(e) => e,
                Err(_) => return (Err(()), q),
            };
            let close = self.span_at(q);
            let (ok, q2) = self.expect(q, RIGHT_BRACKET, "`]`", errors);
            if !ok {
                return (Err(()), q2);
            }
            p = q2;
            proof {
                lemma_model_span(target);
            }
            let sp = join(target.span(), close);
            target = Expr::Index { target: Box::new(target), index: Box::new(index), span: sp };
        }
        (Ok(target), p)
    }

    /// Comma-separated expressions after the opening token at `open`, up to
    /// the closing token `close`, which is consumed.
    #[verifier::spinoff_prover]
    fn expression_list(&self, open: usize, close: u8, what: &str, errors: &mut Vec<ParseError>) -> (r: (
        Result<(Vec<Expr>, Span), ()>,
        usize,
    ))
        requires
            self.wf(),
            self.valid(open),
            tag_spec(self.tokens@[open as int].kind) != EOF,
        ensures
            self.valid(r.1),
            r.1 >= open,
            ({
                let s = list_spec(self.tokens@, open as int, close, what@, errs_view(old(errors)@));
                &&& r.1 as int == s.1
                &&& errs_view(final(errors)@) == s.2
                &&& match r.0 {
                    Ok(x) => s.0 == Ok::<(Seq<ExprModel>, Span), ()>((exprs_model(x.0@), x.1)),
                    Err(_) => s.0 is Err,
                }
            }),
        decreases self.tokens@.len() - open, 0nat,
    {
        proof {
            reveal(list_spec);
            reveal(list_rest);
        }
        let ghost ts = self.tokens@;
        let mut items: Vec<Expr> = Vec::new();
        proof {
            self.lemma_not_last(open as int);
        }
        let pos = self.next(open);
        if self.tag_at(pos) == close {
            return (Ok((items, self.span_at(pos))), self.next(pos));
        }
        let mut p = pos;
        loop
            invariant
                self.wf(),
                self.valid(p),
                p > open,
                ts == self.tokens@,
                list_spec(ts, open as int, close, what@, errs_view(old(errors)@)) == list_rest(
                    ts,
                    close,
                    what@,
                    exprs_model(items@),
                    p as int,
                    errs_view(errors@),
                ),
            decreases self.tokens@.len() - p,
        {
            proof {
                reveal(list_rest);
            }
            let (item, q) = self.expression(p, errors);
            match item {
                Ok(e) => {
                    let ghost before = items@;
                    items.push(e);
                    proof {
                        assert(items@.drop_last() =~= before);
                    }
                },
                Err(_) => return (Err(()), q),
            }
            if self.tag_at(q) == COMMA {
                let q2 = self.next(q);
                if q2 <= p {
                    return (Err(()), q2);
                }
                p = q2;
            } else {
                let close_span = self.span_at(q);
                let (ok, q2) = self.expect(q, close, what, errors);
                if ok {
                    return (Ok((items, close_span)), q2);
                }
                return (Err(()), q2);
            }
        }
    }

    #[verifier::spinoff_prover]
    fn primary(&self, pos: usize, errors: &mut Vec<ParseError>) -> (r: (Result<Expr, ()>, usize))
        requires
            self.wf(),
            self.valid(pos),
        ensures
            self.valid(r.1),
            r.1 >= pos,
            expr_done(r, primary_spec(self.tokens@, pos as int, errs_view(old(errors)@)), final(errors)@),
        decreases self.tokens@.len() - pos, 1nat,
    {
        proof {
            reveal(primary_spec);
        }
        let sp = self.span_at(pos);
        match &self.tokens[pos].kind {
            TokenKind::Number(text) => (Ok(Expr::Literal(Value::Number(copy_string(text)), sp)), self.next(pos)),
            TokenKind::Str(text) => (Ok(Expr::Literal(Value::String(copy_string(text)), sp)), self.next(pos)),
            TokenKind::True => (Ok(Expr::Literal(Value::Boolean(true), sp)), self.next(pos)),
            TokenKind::False => (Ok(Expr::Literal(Value::Boolean(false), sp)), self.next(pos)),
            TokenKind::Null => (Ok(Expr::Literal(Value::Null, sp)), self.next(pos)),
            TokenKind::Identifier(name) => {
                proof {
                    self.lemma_not_last(pos as int);
                }
                let p = self.next(pos);
                if self.tag_at(p) == LEFT_PAREN {
                    let (arguments, q) = self.expression_list(p, RIGHT_PAREN, "`)`", errors);
                    match arguments {
                        Ok((arguments, close)) => (
                            Ok(Expr::Call { name: copy_string(name), arguments, span: join(sp, close) }),
                            q,
                        ),
                        Err(_) => (Err(()), q),
                    }
                } else {
                    (Ok(Expr::Variable(copy_string(name), sp)), p)
                }
            },
            TokenKind::LeftParen => {
                let n = self.next(pos);
                let (inner, p) = self.expression(n, errors);
                let inner = match inner {
                    Ok(e) => e,
                    Err(_) => return (Err(()), p),
                };
                let (ok, q) = self.expect(p, RIGHT_PAREN, "`)`", errors);
                if ok {
                    (Ok(inner), q)
                } else {
                    (Err(()), q)
                }
            },
            TokenKind::LeftBracket => {
                let (elements, q) = self.expression_list(pos, RIGHT_BRACKET, "`]`", errors);
                match elements {
                    Ok((elements, close)) => (Ok(Expr::Array(elements, join(sp, close))), q),
                    Err(_) => (Err(()), q),
                }
            },
            TokenKind::LeftBrace => self.map_literal(pos, errors),
            _ => {
                self.expected(pos, "expression", errors);
                (Err(()), pos)
            },
        }
    }

    #[verifier::spinoff_prover]
    fn map_literal(&self, pos: usize, errors: &mut Vec<ParseError>) -> (r: (Result<Expr, ()>, usize))
        requires
            self.wf(),
            self.valid(pos),
            tag_spec(self.tokens@[pos as int].kind) != EOF,
        ensures
            self.valid(r.1),
            r.1 >= pos,
            expr_done(r, map_spec(self.tokens@, pos as int, errs_view(old(errors)@)), final(errors)@),
        decreases self.tokens@.len() - pos, 0nat,
    {
        proof {
            reveal(map_spec);
            reveal(map_rest);
        }
        let ghost ts = self.tokens@;
        let sp = self.span_at(pos);
        let mut entries: Vec<(String, Expr)> = Vec::new();
        proof {
            self.lemma_not_last(pos as int);
        }
        let mut p = self.next(pos);
        if self.tag_at(p) == RIGHT_BRACE {
            let close = self.span_at(p);
            proof {
                assert(expr_entries_model(entries@) =~= Seq::<(Seq<char>, ExprModel)>::empty());
            }
            return (Ok(Expr::Mapping(entries, join(sp, close))), self.next(p));
        }
        loop
            invariant
                self.wf(),
                self.valid(p),
                p > pos,
                ts == self.tokens@,
                sp == ts[pos as int].span,
                map_spec(ts, pos as int, errs_view(old(errors)@)) == map_rest(
                    ts,
                    sp,
                    expr_entries_model(entries@),
                    p as int,
                    errs_view(errors@),
                ),
            decreases self.tokens@.len() - p,
        {
            proof {
                reveal(map_rest);
            }
            let ghost acc0 = errs_view(errors@);
            let ghost before = entries@;
            let (entry, p3) = self.map_entry(p, errors);
            let ghost en_model: (Seq<char>, ExprModel);
            match entry {
                Ok((key, v)) => {
                    proof {
                        en_model = (key@, expr_model(v));
                    }
                    entries.push((key, v));
                    proof {
                        assert(entries@.drop_last() =~= before);
                        assert(expr_entries_model(entries@) == expr_entries_model(before).push(en_model));
                    }
                },
                Err(_) => return (Err(()), p3),
            }
            proof {
                assert(entry_spec(ts, p as int, acc0).0 == Ok::<(Seq<char>, ExprModel), ()>(en_model));
                assert(p < p3 < ts.len());
            }
            if self.tag_at(p3) == COMMA {
                p = self.next(p3);
            } else {
                let close = self.span_at(p3);
                let (ok, p4) = self.expect(p3, RIGHT_BRACE, "`}`", errors);
                if ok {
                    let r = Expr::Mapping(entries, join(sp, close));
                    proof {
                        assert(expr_model(r) == ExprModel::Mapping(expr_entries_model(before).push(en_model), join_spec(sp, ts[p3 as int].span)));
                    }
                    return (Ok(r), p4);
                }
                return (Err(()), p4);
            }
        }
    }

    /// One map entry `"key": value` at `pos`.
    #[verifier::spinoff_prover]
    fn map_entry(&self, pos: usize, errors: &mut Vec<ParseError>) -> (r: (Result<(String, Expr), ()>, usize))
        requires
            self.wf(),
            self.valid(pos),
        ensures
            self.valid(r.1),
            r.1 >= pos,
            r.0 is Ok ==> r.1 > pos,
            ({
                let s = entry_spec(self.tokens@, pos as int, errs_view(old(errors)@));
                &&& r.1 as int == s.1
                &&& errs_view(final(errors)@) == s.2
                &&& match r.0 {
                    Ok(en) => s.0 == Ok::<(Seq<char>, ExprModel), ()>((en.0@, expr_model(en.1))),
                    Err(_) => s.0 is Err,
                }
            }),
        decreases self.tokens@.len() - pos, 0nat,
    {
        proof {
            reveal(entry_spec);
        }
        let key = match &self.tokens[pos].kind {
            TokenKind::Str(k) => copy_string(k),
            _ => {
                self.expected(pos, "string key", errors);
                return (Err(()), pos);
            },
        };
        proof {
            self.lemma_not_last(pos as int);
        }
        let p1 = self.next(pos);
        let (ok, p2) = self.expect(p1, COLON, "`:`", errors);
        if !ok {
            return (Err(()), p2);
        }
        let (value, p3) = self.expression(p2, errors);
        match value {
            Ok(v) => (Ok((key, v)), p3),
            Err(_) => (Err(()), p3),
        }
    }
}

/// Whether a token of this kind can begin a statement or close a block.
fn resumes(t: u8) -> (r: bool)
    ensures
        r == resumes_spec(t),
        !r ==> t != EOF,
{
    t == LET || t == PRINT || t == ASSERT || t == RETURN || t == FUNCTION || t == IF || t == REPEAT
        || t == WINDOW || t == END || t == OTHERWISE || t == EOF
}

impl Parser {
    #[verifier::spinoff_prover]
    fn type_annotation(&self, pos: usize, errors: &mut Vec<ParseError>) -> (r: (Result<Type, ()>, usize))
        requires
            self.wf(),
            self.valid(pos),
        ensures
            self.valid(r.1),
            r.1 >= pos,
            ({
                let s = type_spec(self.tokens@, pos as int, errs_view(old(errors)@));
                &&& r.0 == s.0
                &&& r.1 as int == s.1
                &&& errs_view(final(errors)@) == s.2
            }),
        decreases self.tokens@.len() - pos,
    {
        proof {
            reveal(type_spec);
        }
        let name = match self.name_at(pos) {
            Some(n) => n,
            None => {
                self.expected(pos, "type", errors);
                return (Err(()), pos);
            },
        };
        proof {
            self.lemma_not_last(pos as int);
        }
        let p = self.next(pos);
        if crate::text::string_is(&name, "Int") {
            (Ok(Type::Int), p)
        } else if crate::text::string_is(&name, "Float") || crate::text::string_is(&name, "Number") {
            (Ok(Type::Float), p)
        } else if crate::text::string_is(&name, "Bool") || crate::text::string_is(&name, "Boolean") {
            (Ok(Type::Bool), p)
        } else if crate::text::string_is(&name, "String") {
            (Ok(Type::String), p)
        } else if crate::text::string_is(&name, "Null") {
            (Ok(Type::Null), p)
        } else if crate::text::string_is(&name, "Array") {
            let (ok, p1) = self.expect(p, LESS, "`<`", errors);
            if !ok {
                return (Err(()), p1);
            }
            let (element, p2) = self.type_annotation(p1, errors);
            let element = match element {
                Ok(t) => t,
                Err(_) => return (Err(()), p2),
            };
            let (ok, p3) = self.expect(p2, GREATER, "`>`", errors);
            if ok {
                (Ok(Type::Array(Box::new(element))), p3)
            } else {
                (Err(()), p3)
            }
        } else if crate::text::string_is(&name, "Map") {
            let (ok, p1) = self.expect(p, LESS, "`<`", errors);
            if !ok {
                return (Err(()), p1);
            }
            let (key, p2) = self.type_annotation(p1, errors);
            let key = match key {
                Ok(t) => t,
                Err(_) => return (Err(()), p2),
            };
            let (ok, p3) = self.expect(p2, COMMA, "`,`", errors);
            if !ok {
                return (Err(()), p3);
            }
            let (value, p4) = self.type_annotation(p3, errors);
            let value = match value {
                Ok(t) => t,
                Err(_) => return (Err(()), p4),
            };
            let (ok, p5) = self.expect(p4, GREATER, "`>`", errors);
            if ok {
                (Ok(Type::Mapping(Box::new(key), Box::new(value))), p5)
            } else {
                (Err(()), p5)
            }
        } else {
            let mut message = string_of("unknown type `");
            push_str(&mut message, name.as_str());
            push_str(&mut message, "`");
            report(errors, message, self.span_at(pos));
            (Err(()), p)
        }
    }

    /// An optional `: Type` annotation at `pos`.
    #[verifier::spinoff_prover]
    fn optional_annotation(&self, pos: usize, errors: &mut Vec<ParseError>) -> (r: (Result<Option<Type>, ()>, usize))
        requires
            self.wf(),
            self.valid(pos),
        ensures
            self.valid(r.1),
            r.1 >= pos,
            ({
                let s = optional_spec(self.tokens@, pos as int, errs_view(old(errors)@));
                &&& r.0 == s.0
                &&& r.1 as int == s.1
                &&& errs_view(final(errors)@) == s.2
            }),
    {
        proof {
            reveal(optional_spec);
        }
        if self.tag_at(pos) == COLON {
            let n = self.next(pos);
            let (t, p) = self.type_annotation(n, errors);
            match t {
                Ok(t) => (Ok(Some(t)), p),
                Err(_) => (Err(()), p),
            }
        } else {
            (Ok(None), pos)
        }
    }

    /// Parameters from `pos` up to and past the closing `)`.
    #[verifier::spinoff_prover]
    fn parameters(&self, pos: usize, errors: &mut Vec<ParseError>) -> (r: (
        Result<Vec<(String, Option<Type>)>, ()>,
        usize,
    ))
        requires
            self.wf(),
            self.valid(pos),
        ensures
            self.valid(r.1),
            r.1 >= pos,
            ({
                let s = params_spec(self.tokens@, Seq::empty(), pos as int, errs_view(old(errors)@));
                &&& r.1 as int == s.1
                &&& errs_view(final(errors)@) == s.2
                &&& match r.0 {
                    Ok(ps) => s.0 == Ok::<Seq<(Seq<char>, Option<Type>)>, ()>(parameters_model(ps@)),
                    Err(_) => s.0 is Err,
                }
            }),
    {
        proof {
            reveal(params_spec);
        }
        let ghost ts = self.tokens@;
        let mut parameters: Vec<(String, Option<Type>)> = Vec::new();
        let mut q = pos;
        proof {
            assert(parameters_model(parameters@) =~= Seq::<(Seq<char>, Option<Type>)>::empty());
        }
        loop
            invariant
                self.wf(),
                self.valid(q),
                q >= pos,
                ts == self.tokens@,
                params_spec(ts, Seq::empty(), pos as int, errs_view(old(errors)@)) == params_spec(
                    ts,
                    parameters_model(parameters@),
                    q as int,
                    errs_view(errors@),
                ),
            decreases self.tokens@.len() - q,
        {
            proof {
                reveal(params_spec);
            }
            let parameter = match self.name_at(q) {
                Some(n) => n,
                None => {
                    self.expected(q, "parameter name", errors);
                    return (Err(()), q);
                },
            };
            proof {
                self.lemma_not_last(q as int);
            }
            let n = self.next(q);
            let (annotation, q1) = self.optional_annotation(n, errors);
            let annotation = match annotation {
                Ok(a) => a,
                Err(_) => return (Err(()), q1),
            };
            let ghost before = parameters@;
            parameters.push((parameter, annotation));
            proof {
                assert(parameters_model(parameters@) =~= parameters_model(before).push(
                    (parameters@.last().0@, parameters@.last().1),
                ));
            }
            if self.tag_at(q1) == COMMA {
                q = self.next(q1);
            } else {
                let (ok, q2) = self.expect(q1, RIGHT_PAREN, "`)`", errors);
                if !ok {
                    return (Err(()), q2);
                }
                return (Ok(parameters), q2);
            }
        }
    }

    /// A statement at `pos`; on success at least one token is consumed.
    #[verifier::spinoff_prover]
    fn statement(&self, pos: usize, errors: &mut Vec<ParseError>) -> (r: (Result<Stmt, ()>, usize))
        requires
            self.wf(),
            self.valid(pos),
        ensures
            self.valid(r.1),
            r.1 >= pos,
            r.0 is Ok ==> r.1 > pos,
            stmt_done(r, statement_spec(self.tokens@, pos as int, errs_view(old(errors)@)), final(errors)@),
        decreases self.tokens@.len() - pos, 20nat,
    {
        proof {
            reveal(statement_spec);
        }
        let t = self.tag_at(pos);
        if t == EOF {
            self.expected(pos, "statement", errors);
            return (Err(()), pos);
        }
        proof {
            self.lemma_not_last(pos as int);
        }
        let p = self.next(pos);
        if t == LET {
            self.let_statement(pos, errors)
        } else if t == IDENTIFIER && (self.tag_at(p) == BE || self.tag_at(p) == EQUAL) {
            self.assign_statement(pos, errors)
        } else if t == PRINT || t == ASSERT {
            self.print_statement(pos, errors)
        } else if t == RETURN {
            self.return_statement(pos, errors)
        } else if t == FUNCTION {
            self.function(pos, errors)
        } else if t == IF {
            self.conditional(pos, errors)
        } else if t == REPEAT {
            self.repeat_statement(pos, errors)
        } else if t == WINDOW {
            self.window_statement(pos, errors)
        } else {
            self.expected(pos, "statement", errors);
            (Err(()), pos)
        }
    }

    #[verifier::spinoff_prover]
    fn let_statement(&self, pos: usize, errors: &mut Vec<ParseError>) -> (r: (Result<Stmt, ()>, usize))
        requires
            self.wf(),
            self.valid(pos),
            tag_spec(self.tokens@[pos as int].kind) == LET,
        ensures
            self.valid(r.1),
            r.1 >= pos,
            r.0 is Ok ==> r.1 > pos,
            stmt_done(r, let_spec(self.tokens@, pos as int, errs_view(old(errors)@)), final(errors)@),
        decreases self.tokens@.len() - pos, 19nat,
    {
        proof {
            reveal(let_spec);
        }
        let sp = self.span_at(pos);
        proof {
            self.lemma_not_last(pos as int);
        }
        let p = self.next(pos);
        let name = match self.name_at(p) {
            Some(n) => n,
            None => {
                self.expected(p, "variable name", errors);
                return (Err(()), p);
            },
        };
        proof {
            self.lemma_not_last(p as int);
        }
        let n = self.next(p);
        let (annotation, p1) = self.optional_annotation(n, errors);
        let annotation = match annotation {
            Ok(a) => a,
            Err(_) => return (Err(()), p1),
        };
        let (ok, p2) = self.expect(p1, BE, "`be`", errors);
        if !ok {
            return (Err(()), p2);
        }
        let (value, p3) = self.expression(p2, errors);
        match value {
            Ok(v) => {
                proof {
                    lemma_model_span(v);
                }
                let span = join(sp, v.span());
                (Ok(Stmt::Let { name, annotation, value: v, span }), p3)
            },
            Err(_) => (Err(()), p3),
        }
    }

    #[verifier::spinoff_prover]
    fn assign_statement(&self, pos: usize, errors: &mut Vec<ParseError>) -> (r: (Result<Stmt, ()>, usize))
        requires
            self.wf(),
            self.valid(pos),
            tag_spec(self.tokens@[pos as int].kind) == IDENTIFIER,
            pos + 1 < self.tokens@.len(),
            tag_spec(self.tokens@[pos + 1].kind) == BE || tag_spec(self.tokens@[pos + 1].kind) == EQUAL,
        ensures
            self.valid(r.1),
            r.1 >= pos,
            r.0 is Ok ==> r.1 > pos,
            stmt_done(r, assign_spec(self.tokens@, pos as int, errs_view(old(errors)@)), final(errors)@),
        decreases self.tokens@.len() - pos, 19nat,
    {
        proof {
            reveal(assign_spec);
        }
        let sp = self.span_at(pos);
        let p = self.next(pos);
        proof {
            self.lemma_not_last(p as int);
        }
        let name = match self.name_at(pos) {
            Some(n) => n,
            None => return (Err(()), p),
        };
        let n = self.next(p);
        let (value, p1) = self.expression(n, errors);
        match value {
            Ok(v) => {
                proof {
                    lemma_model_span(v);
                }
                let span = join(sp, v.span());
                (Ok(Stmt::Assign { name, value: v, span }), p1)
            },
            Err(_) => (Err(()), p1),
        }
    }

    #[verifier::spinoff_prover]
    fn print_statement(&self, pos: usize, errors: &mut Vec<ParseError>) -> (r: (Result<Stmt, ()>, usize))
        requires
            self.wf(),
            self.valid(pos),
            tag_spec(self.tokens@[pos as int].kind) == PRINT || tag_spec(self.tokens@[pos as int].kind) == ASSERT,
        ensures
            self.valid(r.1),
            r.1 >= pos,
            r.0 is Ok ==> r.1 > pos,
            stmt_done(r, print_spec(self.tokens@, pos as int, errs_view(old(errors)@)), final(errors)@),
        decreases self.tokens@.len() - pos, 19nat,
    {
        proof {
            reveal(print_spec);
        }
        let t = self.tag_at(pos);
        proof {
            self.lemma_not_last(pos as int);
        }
        let p = self.next(pos);
        let (value, p1) = self.expression(p, errors);
        match value {
            Ok(v) => if t == PRINT {
                (Ok(Stmt::Print(v)), p1)
            } else {
                (Ok(Stmt::Assert(v)), p1)
            },
            Err(_) => (Err(()), p1),
        }
    }

    #[verifier::spinoff_prover]
    fn return_statement(&self, pos: usize, errors: &mut Vec<ParseError>) -> (r: (Result<Stmt, ()>, usize))
        requires
            self.wf(),
            self.valid(pos),
            tag_spec(self.tokens@[pos as int].kind) == RETURN,
        ensures
            self.valid(r.1),
            r.1 >= pos,
            r.0 is Ok ==> r.1 > pos,
            stmt_done(r, return_spec(self.tokens@, pos as int, errs_view(old(errors)@)), final(errors)@),
        decreases self.tokens@.len() - pos, 19nat,
    {
        proof {
            reveal(return_spec);
        }
        let sp = self.span_at(pos);
        proof {
            self.lemma_not_last(pos as int);
        }
        let p = self.next(pos);
        let following = self.tag_at(p);
        let same_line = self.span_at(p).line == sp.line;
        if following == END || following == OTHERWISE || following == EOF || !same_line {
            (Ok(Stmt::Return { value: None, span: sp }), p)
        } else {
            let (value, p1) = self.expression(p, errors);
            match value {
                Ok(v) => {
                    proof {
                        lemma_model_span(v);
                    }
                    let span = join(sp, v.span());
                    (Ok(Stmt::Return { value: Some(v), span }), p1)
                },
                Err(_) => (Err(()), p1),
            }
        }
    }

    #[verifier::spinoff_prover]
    fn repeat_statement(&self, pos: usize, errors: &mut Vec<ParseError>) -> (r: (Result<Stmt, ()>, usize))
        requires
            self.wf(),
            self.valid(pos),
            tag_spec(self.tokens@[pos as int].kind) == REPEAT,
        ensures
            self.valid(r.1),
            r.1 >= pos,
            r.0 is Ok ==> r.1 > pos,
            stmt_done(r, repeat_spec(self.tokens@, pos as int, errs_view(old(errors)@)), final(errors)@),
        decreases self.tokens@.len() - pos, 19nat,
    {
        proof {
            reveal(repeat_spec);
        }
        let sp = self.span_at(pos);
        proof {
            self.lemma_not_last(pos as int);
        }
        let p = self.next(pos);
        let (iterations, p1) = self.expression(p, errors);
        let iterations = match iterations {
            Ok(e) => e,
            Err(_) => return (Err(()), p1),
        };
        let (ok, p2) = self.expect(p1, TIMES, "`times`", errors);
        if !ok {
            return (Err(()), p2);
        }
        let (body, p3) = self.block(p2, false, errors);
        let end_span = self.span_at(p3);
        let (ok, p4) = self.expect(p3, END, "`end`", errors);
        if ok {
            (Ok(Stmt::RepeatLoop { iterations, body, span: join(sp, end_span) }), p4)
        } else {
            (Err(()), p4)
        }
    }

    #[verifier::spinoff_prover]
    fn window_statement(&self, pos: usize, errors: &mut Vec<ParseError>) -> (r: (Result<Stmt, ()>, usize))
        requires
            self.wf(),
            self.valid(pos),
            tag_spec(self.tokens@[pos as int].kind) == WINDOW,
        ensures
            self.valid(r.1),
            r.1 >= pos,
            r.0 is Ok ==> r.1 > pos,
            stmt_done(r, window_spec(self.tokens@, pos as int, errs_view(old(errors)@)), final(errors)@),
        decreases self.tokens@.len() - pos, 19nat,
    {
        proof {
            reveal(window_spec);
        }
        let sp = self.span_at(pos);
        proof {
            self.lemma_not_last(pos as int);
        }
        let p = self.next(pos);
        let title = match &self.tokens[p].kind {
            TokenKind::Str(text) => copy_string(text),
            _ => {
                self.expected(p, "window title", errors);
                return (Err(()), p);
            },
        };
        proof {
            self.lemma_not_last(p as int);
        }
        let n = self.next(p);
        let (width, p1) = self.expression(n, errors);
        let width = match width {
            Ok(e) => e,
            Err(_) => return (Err(()), p1),
        };
        let (ok, p2) = self.expect(p1, COMMA, "`,`", errors);
        if !ok {
            return (Err(()), p2);
        }
        let (height, p3) = self.expression(p2, errors);
        match height {
            Ok(h) => {
                proof {
                    lemma_model_span(h);
                }
                let span = join(sp, h.span());
                (Ok(Stmt::CreateWindow { title, width, height: h, span }), p3)
            },
            Err(_) => (Err(()), p3),
        }
    }

    /// `function NAME(PARAMS)[: TYPE] BODY end` at `pos`.
    #[verifier::spinoff_prover]
    fn function(&self, pos: usize, errors: &mut Vec<ParseError>) -> (r: (Result<Stmt, ()>, usize))
        requires
            self.wf(),
            self.valid(pos),
            tag_spec(self.tokens@[pos as int].kind) == FUNCTION,
        ensures
            self.valid(r.1),
            r.1 >= pos,
            r.0 is Ok ==> r.1 > pos,
            stmt_done(r, function_spec(self.tokens@, pos as int, errs_view(old(errors)@)), final(errors)@),
        decreases self.tokens@.len() - pos, 19nat,
    {
        proof {
            reveal(function_spec);
        }
        let sp = self.span_at(pos);
        proof {
            self.lemma_not_last(pos as int);
        }
        let p = self.next(pos);
        let name = match self.name_at(p) {
            Some(n) => n,
            None => {
                self.expected(p, "function name", errors);
                return (Err(()), p);
            },
        };
        proof {
            self.lemma_not_last(p as int);
        }
        let n = self.next(p);
        let (ok, q) = self.expect(n, LEFT_PAREN, "`(`", errors);
        if !ok {
            return (Err(()), q);
        }
        let (parameters, q1) = if self.tag_at(q) == RIGHT_PAREN {
            let none: Vec<(String, Option<Type>)> = Vec::new();
            proof {
                assert(parameters_model(none@) =~= Seq::<(Seq<char>, Option<Type>)>::empty());
            }
            (Ok(none), self.next(q))
        } else {
            self.parameters(q, errors)
        };
        let parameters = match parameters {
            Ok(ps) => ps,
            Err(_) => return (Err(()), q1),
        };
        let (return_type, q3) = self.optional_annotation(q1, errors);
        let return_type = match return_type {
            Ok(a) => a,
            Err(_) => return (Err(()), q3),
        };
        let (body, q4) = self.block(q3, false, errors);
        let end_span = self.span_at(q4);
        let (ok, q5) = self.expect(q4, END, "`end`", errors);
        if ok {
            (Ok(Stmt::Function { name, parameters, return_type, body, span: join(sp, end_span) }), q5)
        } else {
            (Err(()), q5)
        }
    }

    /// `if COND then BODY [otherwise BODY] end` at `pos`.
    #[verifier::spinoff_prover]
    fn conditional(&self, pos: usize, errors: &mut Vec<ParseError>) -> (r: (Result<Stmt, ()>, usize))
        requires
            self.wf(),
            self.valid(pos),
            tag_spec(self.tokens@[pos as int].kind) == IF,
        ensures
            self.valid(r.1),
            r.1 >= pos,
            r.0 is Ok ==> r.1 > pos,
            stmt_done(r, conditional_spec(self.tokens@, pos as int, errs_view(old(errors)@)), final(errors)@),
        decreases self.tokens@.len() - pos, 19nat,
    {
        proof {
            reveal(conditional_spec);
        }
        let sp = self.span_at(pos);
        proof {
            self.lemma_not_last(pos as int);
        }
        let n = self.next(pos);
        let (condition, p1) = self.expression(n, errors);
        let condition = match condition {
            Ok(e) => e,
            Err(_) => return (Err(()), p1),
        };
        let (ok, p2) = self.expect(p1, THEN, "`then`", errors);
        if !ok {
            return (Err(()), p2);
        }
        let (then_branch, p3) = self.block(p2, true, errors);
        let mut p4 = p3;
        let mut otherwise_branch: Option<Vec<Stmt>> = None;
        if self.tag_at(p3) == OTHERWISE {
            let n3 = self.next(p3);
            let (statements, q) = self.block(n3, false, errors);
            otherwise_branch = Some(statements);
            p4 = q;
        }
        let end_span = self.span_at(p4);
        let (ok, p5) = self.expect(p4, END, "`end`", errors);
        if ok {
            (
                Ok(Stmt::Conditional { condition, then_branch, otherwise_branch, span: join(sp, end_span) }),
                p5,
            )
        } else {
            (Err(()), p5)
        }
    }

    /// Statements from `pos` up to `end`, `Eof` or (where allowed)
    /// `otherwise`, which is not consumed. After an error it resumes at the
    /// next token that can begin a statement.
    #[verifier::spinoff_prover]
    fn block(&self, pos: usize, allow_otherwise: bool, errors: &mut Vec<ParseError>) -> (r: (Vec<Stmt>, usize))
        requires
            self.wf(),
            self.valid(pos),
        ensures
            self.valid(r.1),
            r.1 >= pos,
            ({
                let s = block_spec(self.tokens@, pos as int, allow_otherwise, errs_view(old(errors)@));
                &&& stmts_model(r.0@) == s.0
                &&& r.1 as int == s.1
                &&& errs_view(final(errors)@) == s.2
            }),
        decreases self.tokens@.len() - pos, 21nat,
    {
        proof {
            reveal(block_spec);
            reveal(block_rest);
        }
        let ghost ts = self.tokens@;
        let mut statements: Vec<Stmt> = Vec::new();
        let mut p = pos;
        proof {
            assert(stmts_model(statements@) =~= Seq::<StmtModel>::empty());
        }
        while self.tag_at(p) != END && self.tag_at(p) != EOF && !(allow_otherwise && self.tag_at(p) == OTHERWISE)
            invariant
                self.wf(),
                self.valid(p),
                p >= pos,
                ts == self.tokens@,
                block_spec(ts, pos as int, allow_otherwise, errs_view(old(errors)@)) == block_rest(
                    ts,
                    allow_otherwise,
                    stmts_model(statements@),
                    p as int,
                    errs_view(errors@),
                ),
            decreases self.tokens@.len() - p,
        {
            proof {
                reveal(block_rest);
            }
            let (statement, q) = self.statement(p, errors);
            match statement {
                Ok(s) => {
                    let ghost before = statements@;
                    statements.push(s);
                    proof {
                        assert(statements@.drop_last() =~= before);
                    }
                    p = q;
                },
                Err(_) => {
                    let mut k = if q > p { q } else { self.next(p) };
                    let ghost k0 = k;
                    while !resumes(self.tag_at(k))
                        invariant
                            self.wf(),
                            self.valid(k),
                            k > p,
                            ts == self.tokens@,
                            resume_spec(ts, k as int) == resume_spec(ts, k0 as int),
                        decreases self.tokens@.len() - k,
                    {
                        k = self.next(k);
                    }
                    p = k;
                },
            }
        }
        (statements, p)
    }

    /// Parses `begin STATEMENTS end` followed by the end of input: the
    /// statements as a block, or every syntax error found, as `parse_spec`
    /// describes them.
    #[verifier::spinoff_prover]
    pub fn parse_program(&self) -> (r: Result<Stmt, Vec<ParseError>>)
        requires
            self.wf(),
        ensures
            parse_result(r) == parse_spec(self.tokens()),
            r matches Ok(s) ==> s is Block,
            r matches Err(es) ==> es@.len() > 0,
    {
        proof {
            reveal(block_spec);
        }
        let mut errors: Vec<ParseError> = Vec::new();
        let mut p: usize = 0;
        proof {
            assert(errs_view(errors@) =~= Seq::<(Seq<char>, Span)>::empty());
        }
        if self.tag_at(0) == BEGIN {
            p = self.next(0);
        } else {
            self.expected(0, "`begin`", &mut errors);
            proof {
                assert(errs_view(errors@) =~= seq![expected_err(self.tokens@, 0, "`begin`"@)]);
            }
        }
        let (statements, q) = self.block(p, false, &mut errors);
        let (ok, q1) = self.expect(q, END, "`end`", &mut errors);
        if ok {
            let _ = self.expect(q1, EOF, "end of input", &mut errors);
        }
        if errors.len() > 0 {
            Err(errors)
        } else {
            Ok(Stmt::Block(statements))
        }
    }
}

} // verus!
