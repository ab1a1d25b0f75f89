//! The checking pipeline: lexing, parsing and static analysis of one source
//! file, with every failure rendered as diagnostics.
use vstd::prelude::*;
use crate::ast::{stmt_model, Stmt, StmtModel};
use crate::diagnostics::{diagnostic_text, Diagnostic, Level};
use crate::grammar::parse_spec;
use crate::lexer::{lex_errors_view, lex_spec, tokens_view, well_formed_tokens, Lexer, LexError, Span, Token};
use crate::parser::{first_eof, ParseError, Parser};
use crate::semantic::{analyze_spec, errors_model, AnalyzerModel, SemanticAnalyzer, SemanticError};
use crate::text::{copy_string, push_str, utf8_length};

verus! {

/// The release this toolchain reports.
pub const VERSION: &'static str = "0.4.5-beta.3";

/// A fresh analyzer: one empty scope, no functions, outside any function.
pub open spec fn fresh_analyzer() -> AnalyzerModel {
    AnalyzerModel {
        scopes: seq![Seq::empty()],
        functions: Seq::empty(),
        in_function: false,
        return_type: None,
    }
}

/// Error diagnostics with one code, rendered and joined by newlines.
pub open spec fn diagnostics_text(
    code: Seq<char>,
    errs: Seq<(Seq<char>, Span)>,
    source: Seq<char>,
    filename: Seq<char>,
) -> Seq<char>
    decreases errs.len(),
{
    if errs.len() == 0 {
        Seq::empty()
    } else {
        let last = diagnostic_text(Level::Error, code, errs.last().0, errs.last().1, source, filename);
        if errs.len() == 1 {
            last
        } else {
            diagnostics_text(code, errs.drop_last(), source, filename) + "\n"@ + last
        }
    }
}

pub open spec fn pairs_model(es: Seq<(String, Span)>) -> Seq<(Seq<char>, Span)> {
    es.map_values(|e: (String, Span)| (e.0@, e.1))
}

/// Renders errors as diagnostics with `code`, one after another.
pub fn render_all(code: &'static str, errs: &Vec<(String, Span)>, source: &str, filename: &str) -> (r:
    String)
    ensures
        r@ == diagnostics_text(code@, pairs_model(errs@), source@, filename@),
{
    let ghost m = pairs_model(errs@);
    let mut out = String::new();
    let mut i: usize = 0;
    while i < errs.len()
        invariant
            i <= errs@.len(),
            m == pairs_model(errs@),
            out@ == diagnostics_text(code@, m.take(i as int), source@, filename@),
        decreases errs@.len() - i,
    {
        proof {
            assert(m.take(i + 1).drop_last() =~= m.take(i as int));
            assert(m.take(i + 1).last() == m[i as int]);
        }
        let d = Diagnostic::error(code, copy_string(&errs[i].0), errs[i].1);
        let text = d.render(source, filename);
        if i > 0 {
            push_str(&mut out, "\n");
        }
        push_str(&mut out, text.as_str());
        i += 1;
    }
    proof {
        assert(m.take(errs@.len() as int) =~= m);
    }
    out
}

fn lex_pairs(es: &Vec<LexError>) -> (r: Vec<(String, Span)>)
    ensures
        pairs_model(r@) == es@.map_values(|e: LexError| (e.message@, e.span)),
{
    let mut out: Vec<(String, Span)> = Vec::new();
    let mut i: usize = 0;
    while i < es.len()
        invariant
            i <= es@.len(),
            pairs_model(out@) =~= es@.take(i as int).map_values(|e: LexError| (e.message@, e.span)),
        decreases es@.len() - i,
    {
        let ghost prev = out@;
        out.push((copy_string(&es[i].message), es[i].span));
        proof {
            assert(es@.take(i + 1) =~= es@.take(i as int).push(es@[i as int]));
            assert(pairs_model(out@) =~= pairs_model(prev).push((es@[i as int].message@, es@[i as int].span)));
        }
        i += 1;
    }
    assert(es@.take(es@.len() as int) =~= es@);
    out
}

fn parse_pairs(es: &Vec<ParseError>) -> (r: Vec<(String, Span)>)
    ensures
        pairs_model(r@) == es@.map_values(|e: ParseError| (e.message@, e.span)),
{
    let mut out: Vec<(String, Span)> = Vec::new();
    let mut i: usize = 0;
    while i < es.len()
        invariant
            i <= es@.len(),
            pairs_model(out@) =~= es@.take(i as int).map_values(|e: ParseError| (e.message@, e.span)),
        decreases es@.len() - i,
    {
        let ghost prev = out@;
        out.push((copy_string(&es[i].message), es[i].span));
        proof {
            assert(es@.take(i + 1) =~= es@.take(i as int).push(es@[i as int]));
            assert(pairs_model(out@) =~= pairs_model(prev).push((es@[i as int].message@, es@[i as int].span)));
        }
        i += 1;
    }
    assert(es@.take(es@.len() as int) =~= es@);
    out
}

fn semantic_pairs(es: &Vec<SemanticError>) -> (r: Vec<(String, Span)>)
    ensures
        pairs_model(r@) == errors_model(es@),
{
    let mut out: Vec<(String, Span)> = Vec::new();
    let mut i: usize = 0;
    while i < es.len()
        invariant
            i <= es@.len(),
            pairs_model(out@) =~= errors_model(es@.take(i as int)),
        decreases es@.len() - i,
    {
        let ghost prev = out@;
        out.push((copy_string(&es[i].message), es[i].span));
        proof {
            assert(es@.take(i + 1) =~= es@.take(i as int).push(es@[i as int]));
            assert(pairs_model(out@) =~= pairs_model(prev).push((es@[i as int].message@, es@[i as int].span)));
        }
        i += 1;
    }
    assert(es@.take(es@.len() as int) =~= es@);
    out
}

/// What checking does once the source has lexed cleanly and `parsed` is
/// what the grammar gives for its tokens: syntax errors as `E2001`
/// diagnostics; otherwise the program, where its analysis finds nothing,
/// or the analysis errors as `E3001` diagnostics.
pub open spec fn checked(
    r: Result<Stmt, String>,
    parsed: Result<StmtModel, Seq<(Seq<char>, Span)>>,
    source: Seq<char>,
    filename: Seq<char>,
) -> bool {
    match parsed {
        Err(errs) => r matches Err(e) && e@ == diagnostics_text("E2001"@, errs, source, filename),
        Ok(m) => exists|s: Stmt|
            #[trigger] stmt_model(s) == m && s is Block && if analyze_spec(fresh_analyzer(), s).1.len() == 0 {
                r == Ok::<Stmt, String>(s)
            } else {
                r matches Err(e) && e@ == diagnostics_text(
                    "E3001"@,
                    analyze_spec(fresh_analyzer(), s).1,
                    source,
                    filename,
                )
            },
    }
}

/// Checks one source file: lexes, parses and analyzes it. On success the
/// program is returned; otherwise the errors of the first stage that failed,
/// rendered as diagnostics (`E1001` lexical, `E2001` syntax, `E3001`
/// semantic) and joined by newlines.
pub fn compile(source: &str, filename: &str) -> (r: Result<Stmt, String>)
    ensures
        lex_spec(source@).1.len() > 0 ==> (r matches Err(e) && e@ == diagnostics_text(
            "E1001"@,
            lex_spec(source@).1,
            source@,
            filename@,
        )),
        r matches Ok(s) ==> lex_spec(source@).1.len() == 0 && s is Block && analyze_spec(
            fresh_analyzer(),
            s,
        ).1.len() == 0,
        lex_spec(source@).1.len() == 0 ==> exists|ts: Seq<Token>|
            #[trigger] tokens_view(ts) == lex_spec(source@).0 && well_formed_tokens(ts, utf8_length(source@))
                && checked(r, parse_spec(ts), source@, filename@),
{
    let lexer = Lexer::new(source);
    let tokens = match lexer.tokenize() {
        Ok(ts) => ts,
        Err(es) => {
            let pairs = lex_pairs(&es);
            let e = render_all("E1001", &pairs, source, filename);
            assert(pairs_model(pairs@) == lex_errors_view(es@));
            return Err(e);
        },
    };
    let ghost ts = tokens@;
    proof {
        assert(first_eof(ts, ts.len() - 1));
    }
    let parser = Parser::new(tokens);
    let parsed = parser.parse_program();
    let ghost p = parse_spec(ts);
    assert(parser.tokens() == ts);
    let ast = match parsed {
        Ok(s) => s,
        Err(es) => {
            let pairs = parse_pairs(&es);
            let e = render_all("E2001", &pairs, source, filename);
            assert(e@ == diagnostics_text("E2001"@, pairs_model(pairs@), source@, filename@));
            assert(checked(Err(e), p, source@, filename@));
            return Err(e);
        },
    };
    let mut sem = SemanticAnalyzer::new();
    match sem.analyze(&ast) {
        Ok(()) => {
            let r = Ok(ast);
            assert(checked(r, p, source@, filename@));
            r
        },
        Err(es) => {
            let pairs = semantic_pairs(&es);
            let e = render_all("E3001", &pairs, source, filename);
            assert(e@ == diagnostics_text("E3001"@, analyze_spec(fresh_analyzer(), ast).1, source@, filename@));
            let r = Err(e);
            assert(checked(r, p, source@, filename@));
            r
        },
    }
}

} // verus!
