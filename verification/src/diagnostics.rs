//! Structured source diagnostics and their human-readable rendering.
use vstd::prelude::*;
use crate::lexer::Span;
use crate::text::{char_width, chars_of, contains, contains_spec, decimal, lines_spec, push_repeat, push_str, repeat_spec, split_lines, string_from_chars, string_of, usize_to_string, utf8_length};

verus! {

#[derive(Debug, Clone, Copy, PartialEq, Eq)]
pub enum Level {
    Error,
}

/// A diagnostic: its level, a stable error code, a message and where it applies.
#[derive(Debug, Clone)]
pub struct Diagnostic {
    pub level: Level,
    pub code: &'static str,
    pub message: String,
    pub span: Span,
}

pub open spec fn saturating_sub(a: nat, b: nat) -> nat {
    if a >= b {
        (a - b) as nat
    } else {
        0
    }
}

pub open spec fn max_nat(a: nat, b: nat) -> nat {
    if a >= b {
        a
    } else {
        b
    }
}

pub open spec fn min_nat(a: nat, b: nat) -> nat {
    if a <= b {
        a
    } else {
        b
    }
}

/// The source line shown for a diagnostic on 1-based line `n` (empty when
/// there is no such line).
pub open spec fn source_line(source: Seq<char>, n: nat) -> Seq<char> {
    let k = saturating_sub(n, 1);
    if k < lines_spec(source).len() {
        lines_spec(source)[k as int]
    } else {
        Seq::empty()
    }
}

/// The marker line under the source line: spaces up to the column, then one
/// caret per byte of the span, at least one, and no more than the line has
/// bytes from that column on (but at least one).
pub open spec fn marker(span: Span, line: Seq<char>) -> Seq<char> {
    let width = saturating_sub(span.column as nat, 1);
    let length = max_nat(saturating_sub(span.end as nat, span.start as nat), 1);
    let available = max_nat(saturating_sub(utf8_length(line), width), 1);
    repeat_spec(' ', width) + repeat_spec('^', min_nat(length, available))
}

/// The hint appended for well-known messages.
pub open spec fn suggestion(message: Seq<char>) -> Seq<char> {
    if contains_spec(message, "used before initialization"@) {
        "\nhelp: declare the variable with `let name be value` before using it"@
    } else if contains_spec(message, "type mismatch"@) {
        "\nhelp: make the expression's type match the declared annotation"@
    } else if contains_spec(message, "expected expression"@) {
        "\nhelp: check the previous statement and keep one expression per line"@
    } else {
        Seq::empty()
    }
}

pub open spec fn level_name(level: Level) -> Seq<char> {
    match level {
        Level::Error => "error"@,
    }
}

/// The rendered diagnostic:
/// `error[CODE]: MESSAGE`, a blank line, ` --> FILE:LINE:COLUMN`, `  |`,
/// `LINE | SOURCE LINE`, `  | MARKER` and the hint, if any.
pub open spec fn diagnostic_text(
    level: Level,
    code: Seq<char>,
    message: Seq<char>,
    span: Span,
    source: Seq<char>,
    filename: Seq<char>,
) -> Seq<char> {
    let line = source_line(source, span.line as nat);
    level_name(level) + "["@ + code + "]: "@ + message + "\n\n --> "@ + filename + ":"@
        + decimal(span.line as nat) + ":"@ + decimal(span.column as nat) + "\n  |\n"@
        + decimal(span.line as nat) + " | "@ + line + "\n  | "@ + marker(span, line)
        + suggestion(message) + "\n"@
}

/// The rendering of a diagnostic against its source and file name.
pub open spec fn render_spec(d: Diagnostic, source: Seq<char>, filename: Seq<char>) -> Seq<char> {
    diagnostic_text(d.level, d.code@, d.message@, d.span, source, filename)
}

/// The number of bytes of the characters in UTF-8.
fn byte_length(cs: &Vec<char>) -> (n: u128)
    ensures
        n == utf8_length(cs@),
        n <= 4 * cs@.len(),
{
    let mut total: u128 = 0;
    let mut i: usize = 0;
    while i < cs.len()
        invariant
            i <= cs@.len(),
            total == utf8_length(cs@.take(i as int)),
            total <= 4 * i,
        decreases cs.len() - i,
    {
        proof {
            assert(cs@.take(i + 1).drop_last() =~= cs@.take(i as int));
        }
        total = total + char_width(cs[i]) as u128;
        i += 1;
    }
    proof {
        assert(cs@.take(cs@.len() as int) =~= cs@);
    }
    total
}

/// The line shown for 1-based line `n`.
fn select_line(source: &str, n: usize) -> (r: Vec<char>)
    ensures
        r@ == source_line(source@, n as nat),
{
    let cs = chars_of(source);
    let mut lines = split_lines(cs.as_slice());
    let k: usize = if n >= 1 { n - 1 } else { 0 };
    proof {
        let ls = lines@.map_values(|l: Vec<char>| l@);
        if k < lines@.len() {
            assert(ls[k as int] == lines@[k as int]@);
        }
    }
    if k < lines.len() {
        lines.swap_remove(k)
    } else {
        Vec::new()
    }
}

fn marker_text(span: Span, line: &Vec<char>) -> (r: String)
    ensures
        r@ == marker(span, line@),
{
    let width: usize = if span.column >= 1 { span.column - 1 } else { 0 };
    let diff: usize = if span.end >= span.start { span.end - span.start } else { 0 };
    let length: usize = if diff >= 1 { diff } else { 1 };
    let bytes = byte_length(line);
    let rest: u128 = if bytes >= width as u128 { bytes - width as u128 } else { 0 };
    let available: u128 = if rest >= 1 { rest } else { 1 };
    let carets: usize = if (length as u128) <= available { length } else { available as usize };
    let mut out = String::new();
    push_repeat(&mut out, ' ', width);
    push_repeat(&mut out, '^', carets);
    out
}

fn suggestion_text(message: &str) -> (r: String)
    ensures
        r@ == suggestion(message@),
{
    if contains(message, "used before initialization") {
        string_of("\nhelp: declare the variable with `let name be value` before using it")
    } else if contains(message, "type mismatch") {
        string_of("\nhelp: make the expression's type match the declared annotation")
    } else if contains(message, "expected expression") {
        string_of("\nhelp: check the previous statement and keep one expression per line")
    } else {
        String::new()
    }
}

impl Diagnostic {
    /// An error diagnostic.
    pub fn error(code: &'static str, message: String, span: Span) -> (d: Self)
        ensures
            d.level == Level::Error,
            d.code == code,
            d.message == message,
            d.span == span,
    {
        Self { level: Level::Error, code, message, span }
    }

    /// Renders the diagnostic against the source it refers to.
    pub fn render(&self, source: &str, filename: &str) -> (r: String)
        ensures
            r@ == render_spec(*self, source@, filename@),
    {
        let line = select_line(source, self.span.line);
        let mark = marker_text(self.span, &line);
        let hint = suggestion_text(self.message.as_str());
        let line_number = usize_to_string(self.span.line);
        let column_number = usize_to_string(self.span.column);
        let line_text = string_from_chars(line.as_slice());
        let mut out = string_of(match self.level {
            Level::Error => "error",
        });
        push_str(&mut out, "[");
        push_str(&mut out, self.code);
        push_str(&mut out, "]: ");
        push_str(&mut out, self.message.as_str());
        push_str(&mut out, "\n\n --> ");
        push_str(&mut out, filename);
        push_str(&mut out, ":");
        push_str(&mut out, line_number.as_str());
        push_str(&mut out, ":");
        push_str(&mut out, column_number.as_str());
        push_str(&mut out, "\n  |\n");
        push_str(&mut out, line_number.as_str());
        push_str(&mut out, " | ");
        push_str(&mut out, line_text.as_str());
        push_str(&mut out, "\n  | ");
        push_str(&mut out, mark.as_str());
        push_str(&mut out, hint.as_str());
        push_str(&mut out, "\n");
        out
    }
}

} // verus!
