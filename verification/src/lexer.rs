//! Tokens with source spans, and the lexer that produces them.
use vstd::prelude::*;
use crate::text::{char_width, chars_of, is_space, push_char, space, string_of, utf8_length, utf8_width};

verus! {

/// A region of source text: 1-based line and column of its first character,
/// and its byte offsets `start..end`.
#[derive(Debug, Clone, Copy, PartialEq, Eq)]
pub struct Span {
    pub line: usize,
    pub column: usize,
    pub start: usize,
    pub end: usize,
}

#[derive(Debug, PartialEq)]
pub enum TokenKind {
    Begin,
    End,
    Let,
    Be,
    Print,
    Assert,
    If,
    Then,
    Otherwise,
    Repeat,
    Times,
    Function,
    Return,
    Window,
    True,
    False,
    Null,
    And,
    Or,
    Is,
    Identifier(String),
    Number(String),
    Str(String),
    Plus,
    Minus,
    Star,
    Slash,
    EqualEqual,
    Equal,
    LeftParen,
    RightParen,
    LeftBracket,
    RightBracket,
    LeftBrace,
    RightBrace,
    Comma,
    Colon,
    Less,
    Greater,
    Eof,
}

#[derive(Debug, PartialEq)]
pub struct Token {
    pub kind: TokenKind,
    pub span: Span,
}

/// A lexical error: its message and where it was found.
#[derive(Debug, PartialEq)]
pub struct LexError {
    pub message: String,
    pub span: Span,
}

/// Splits source text into tokens.
pub struct Lexer {
    chars: Vec<char>,
}

pub open spec fn is_ascii_digit(c: char) -> bool {
    '0' <= c && c <= '9'
}

pub open spec fn is_ident_start(c: char) -> bool {
    ('a' <= c && c <= 'z') || ('A' <= c && c <= 'Z') || c == '_'
}

pub open spec fn is_ident_char(c: char) -> bool {
    is_ident_start(c) || is_ascii_digit(c)
}

/// A span is well formed within a text of `bytes` bytes.
pub open spec fn span_within(s: Span, bytes: nat) -> bool {
    s.line >= 1 && s.column >= 1 && s.start <= s.end && s.end <= bytes
}

/// The tokens lie in order within the text and end with `Eof`.
pub open spec fn well_formed_tokens(ts: Seq<Token>, bytes: nat) -> bool {
    &&& ts.len() > 0
    &&& ts.last().kind is Eof
    &&& forall|i: int| 0 <= i < ts.len() ==> span_within(#[trigger] ts[i].span, bytes)
    &&& forall|i: int| 0 <= i < ts.len() - 1 ==> #[trigger] ts[i].span.end <= ts[i + 1].span.start
    &&& forall|i: int| 0 <= i < ts.len() - 1 ==> !(#[trigger] ts[i].kind is Eof)
}

/// A number for each kind of token, payload aside.
pub open spec fn tag_spec(k: TokenKind) -> u8 {
    match k {
        TokenKind::Begin => 0,
        TokenKind::End => 1,
        TokenKind::Let => 2,
        TokenKind::Be => 3,
        TokenKind::Print => 4,
        TokenKind::Assert => 5,
        TokenKind::If => 6,
        TokenKind::Then => 7,
        TokenKind::Otherwise => 8,
        TokenKind::Repeat => 9,
        TokenKind::Times => 10,
        TokenKind::Function => 11,
        TokenKind::Return => 12,
        TokenKind::Window => 13,
        TokenKind::True => 14,
        TokenKind::False => 15,
        TokenKind::Null => 16,
        TokenKind::And => 17,
        TokenKind::Or => 18,
        TokenKind::Is => 19,
        TokenKind::Identifier(_) => 20,
        TokenKind::Number(_) => 21,
        TokenKind::Str(_) => 22,
        TokenKind::Plus => 23,
        TokenKind::Minus => 24,
        TokenKind::Star => 25,
        TokenKind::Slash => 26,
        TokenKind::EqualEqual => 27,
        TokenKind::Equal => 28,
        TokenKind::LeftParen => 29,
        TokenKind::RightParen => 30,
        TokenKind::LeftBracket => 31,
        TokenKind::RightBracket => 32,
        TokenKind::LeftBrace => 33,
        TokenKind::RightBrace => 34,
        TokenKind::Comma => 35,
        TokenKind::Colon => 36,
        TokenKind::Less => 37,
        TokenKind::Greater => 38,
        TokenKind::Eof => 39,
    }
}

/// The text a token carries: the name, digits or string contents, or
/// nothing.
pub open spec fn payload(k: TokenKind) -> Seq<char> {
    match k {
        TokenKind::Identifier(s) => s@,
        TokenKind::Number(s) => s@,
        TokenKind::Str(s) => s@,
        _ => Seq::empty(),
    }
}

/// A token as its kind number, its text and its span.
pub open spec fn token_view(t: Token) -> (u8, Seq<char>, Span) {
    (tag_spec(t.kind), payload(t.kind), t.span)
}

pub open spec fn tokens_view(ts: Seq<Token>) -> Seq<(u8, Seq<char>, Span)> {
    ts.map_values(|t: Token| token_view(t))
}

pub open spec fn lex_errors_view(es: Seq<LexError>) -> Seq<(Seq<char>, Span)> {
    es.map_values(|e: LexError| (e.message@, e.span))
}

/// A place in the source: character index, byte offset, line and column.
pub struct Place {
    pub index: nat,
    pub byte: nat,
    pub line: nat,
    pub column: nat,
}

pub open spec fn start_place() -> Place {
    Place { index: 0, byte: 0, line: 1, column: 1 }
}

/// The place after the character at `p`: a newline starts the next line.
pub open spec fn step(cs: Seq<char>, p: Place) -> Place {
    let ch = cs[p.index as int];
    Place {
        index: p.index + 1,
        byte: p.byte + utf8_width(ch),
        line: if ch == '\n' { p.line + 1 } else { p.line },
        column: if ch == '\n' { 1 } else { p.column + 1 },
    }
}

/// The span from `p` to `q`.
pub open spec fn span_of(p: Place, q: Place) -> Span {
    Span { line: p.line as usize, column: p.column as usize, start: p.byte as usize, end: q.byte as usize }
}

/// The end of a comment: the next newline, or the end of the text.
pub open spec fn comment_end(cs: Seq<char>, p: Place) -> Place
    decreases cs.len() - p.index,
{
    if p.index < cs.len() && cs[p.index as int] != '\n' {
        comment_end(cs, step(cs, p))
    } else {
        p
    }
}

/// The end of a run of ASCII digits.
pub open spec fn digits_end(cs: Seq<char>, p: Place) -> Place
    decreases cs.len() - p.index,
{
    if p.index < cs.len() && is_ascii_digit(cs[p.index as int]) {
        digits_end(cs, step(cs, p))
    } else {
        p
    }
}

/// The end of a number: digits, then a point and more digits when a digit
/// follows the point.
pub open spec fn number_end(cs: Seq<char>, p: Place) -> Place {
    let q = digits_end(cs, p);
    if q.index + 1 < cs.len() && cs[q.index as int] == '.' && is_ascii_digit(cs[q.index + 1int]) {
        digits_end(cs, step(cs, q))
    } else {
        q
    }
}

/// The end of a run of identifier characters.
pub open spec fn word_end(cs: Seq<char>, p: Place) -> Place
    decreases cs.len() - p.index,
{
    if p.index < cs.len() && is_ident_char(cs[p.index as int]) {
        word_end(cs, step(cs, p))
    } else {
        p
    }
}

/// The kind number of a keyword.
pub open spec fn keyword_tag(w: Seq<char>) -> Option<u8> {
    if w == "begin"@ {
        Some(0)
    } else if w == "end"@ {
        Some(1)
    } else if w == "let"@ {
        Some(2)
    } else if w == "be"@ {
        Some(3)
    } else if w == "print"@ {
        Some(4)
    } else if w == "assert"@ {
        Some(5)
    } else if w == "if"@ {
        Some(6)
    } else if w == "then"@ {
        Some(7)
    } else if w == "otherwise"@ {
        Some(8)
    } else if w == "repeat"@ {
        Some(9)
    } else if w == "times"@ {
        Some(10)
    } else if w == "function"@ {
        Some(11)
    } else if w == "return"@ {
        Some(12)
    } else if w == "window"@ {
        Some(13)
    } else if w == "true"@ {
        Some(14)
    } else if w == "false"@ {
        Some(15)
    } else if w == "null"@ {
        Some(16)
    } else if w == "and"@ {
        Some(17)
    } else if w == "or"@ {
        Some(18)
    } else if w == "is"@ {
        Some(19)
    } else {
        None
    }
}

/// The kind number of a one-character operator or delimiter.
pub open spec fn symbol_tag(ch: char) -> Option<u8> {
    if ch == '=' {
        Some(28)
    } else if ch == '+' {
        Some(23)
    } else if ch == '-' {
        Some(24)
    } else if ch == '*' {
        Some(25)
    } else if ch == '/' {
        Some(26)
    } else if ch == '(' {
        Some(29)
    } else if ch == ')' {
        Some(30)
    } else if ch == '[' {
        Some(31)
    } else if ch == ']' {
        Some(32)
    } else if ch == '{' {
        Some(33)
    } else if ch == '}' {
        Some(34)
    } else if ch == ',' {
        Some(35)
    } else if ch == ':' {
        Some(36)
    } else if ch == '<' {
        Some(37)
    } else if ch == '>' {
        Some(38)
    } else {
        None
    }
}

/// The rest of a string literal from `q`: its contents so far, the errors so
/// far, where it ends and whether a closing quote was found. `\n`, `\t`,
/// `\"` and `\\` are escapes; another escape is an error and is dropped.
pub open spec fn string_scan(
    cs: Seq<char>,
    q: Place,
    text: Seq<char>,
    errs: Seq<(Seq<char>, Span)>,
) -> (Seq<char>, Seq<(Seq<char>, Span)>, Place, bool)
    decreases cs.len() - q.index,
{
    if q.index >= cs.len() {
        (text, errs, q, false)
    } else {
        let d = cs[q.index as int];
        if d == '"' {
            (text, errs, step(cs, q), true)
        } else if d == '\\' && q.index + 1 < cs.len() {
            let e = cs[q.index + 1int];
            let r = step(cs, step(cs, q));
            if e == 'n' {
                string_scan(cs, r, text.push('\n'), errs)
            } else if e == 't' {
                string_scan(cs, r, text.push('\t'), errs)
            } else if e == '"' {
                string_scan(cs, r, text.push('"'), errs)
            } else if e == '\\' {
                string_scan(cs, r, text.push('\\'), errs)
            } else {
                string_scan(
                    cs,
                    r,
                    text,
                    errs.push(("unknown escape sequence in string literal"@, span_of(q, r))),
                )
            }
        } else {
            string_scan(cs, step(cs, q), text.push(d), errs)
        }
    }
}

pub proof fn lemma_runs(cs: Seq<char>, p: Place)
    requires
        p.index <= cs.len(),
    ensures
        p.index <= comment_end(cs, p).index <= cs.len(),
        p.index <= digits_end(cs, p).index <= cs.len(),
        p.index <= word_end(cs, p).index <= cs.len(),
        p.index <= number_end(cs, p).index <= cs.len(),
        p.index < cs.len() && cs[p.index as int] != '\n' ==> comment_end(cs, p).index > p.index,
        p.index < cs.len() && is_ascii_digit(cs[p.index as int]) ==> number_end(cs, p).index > p.index,
        p.index < cs.len() && is_ident_char(cs[p.index as int]) ==> word_end(cs, p).index > p.index,
        string_scan(cs, p, Seq::empty(), Seq::empty()).2.index >= p.index,
        string_scan(cs, p, Seq::empty(), Seq::empty()).2.index <= cs.len(),
    decreases cs.len() - p.index,
{
    lemma_string_scan_ends(cs, p, Seq::empty(), Seq::empty());
    if p.index < cs.len() {
        lemma_runs(cs, step(cs, p));
        let q = digits_end(cs, p);
        if q.index + 1 < cs.len() && cs[q.index as int] == '.' && is_ascii_digit(cs[q.index + 1int]) {
            lemma_runs(cs, step(cs, q));
        }
    }
}

proof fn lemma_string_scan_ends(cs: Seq<char>, q: Place, text: Seq<char>, errs: Seq<(Seq<char>, Span)>)
    requires
        q.index <= cs.len(),
    ensures
        q.index <= string_scan(cs, q, text, errs).2.index <= cs.len(),
    decreases cs.len() - q.index,
{
    if q.index < cs.len() {
        let d = cs[q.index as int];
        if d == '"' {
        } else if d == '\\' && q.index + 1 < cs.len() {
            let e = cs[q.index + 1int];
            let r = step(cs, step(cs, q));
            lemma_string_scan_ends(cs, r, text.push('\n'), errs);
            lemma_string_scan_ends(cs, r, text.push('\t'), errs);
            lemma_string_scan_ends(cs, r, text.push('"'), errs);
            lemma_string_scan_ends(cs, r, text.push('\\'), errs);
            lemma_string_scan_ends(
                cs,
                r,
                text,
                errs.push(("unknown escape sequence in string literal"@, span_of(q, r))),
            );
        } else {
            lemma_string_scan_ends(cs, step(cs, q), text.push(d), errs);
        }
    }
}

/// Lexing from `p`: the tokens, ending with `Eof`, and the errors, each in
/// the order of the text. White space and `#` comments separate tokens.
pub open spec fn lex_from(cs: Seq<char>, p: Place) -> (Seq<(u8, Seq<char>, Span)>, Seq<(Seq<char>, Span)>)
    decreases cs.len() - p.index,
{
    if p.index >= cs.len() {
        (seq![(39u8, Seq::empty(), span_of(p, p))], Seq::empty())
    } else {
        proof {
            lemma_runs(cs, p);
            lemma_runs(cs, step(cs, p));
        }
        let ch = cs[p.index as int];
        if is_space(ch) {
            lex_from(cs, step(cs, p))
        } else if ch == '#' {
            lex_from(cs, comment_end(cs, p))
        } else if is_ascii_digit(ch) {
            let q = number_end(cs, p);
            let rest = lex_from(cs, q);
            (seq![(21u8, cs.subrange(p.index as int, q.index as int), span_of(p, q))] + rest.0, rest.1)
        } else if is_ident_start(ch) {
            let q = word_end(cs, p);
            let w = cs.subrange(p.index as int, q.index as int);
            let rest = lex_from(cs, q);
            let tok = match keyword_tag(w) {
                Some(t) => (t, Seq::empty(), span_of(p, q)),
                None => (20u8, w, span_of(p, q)),
            };
            (seq![tok] + rest.0, rest.1)
        } else if ch == '"' {
            let scanned = string_scan(cs, step(cs, p), Seq::empty(), Seq::empty());
            let q = scanned.2;
            let rest = lex_from(cs, q);
            if scanned.3 {
                (seq![(22u8, scanned.0, span_of(p, q))] + rest.0, scanned.1 + rest.1)
            } else {
                (rest.0, scanned.1.push(("unterminated string literal"@, span_of(p, q))) + rest.1)
            }
        } else {
            let q = step(cs, p);
            if ch == '=' && q.index < cs.len() && cs[q.index as int] == '=' {
                proof {
                    lemma_runs(cs, step(cs, q));
                }
                let r = step(cs, q);
                let rest = lex_from(cs, r);
                (seq![(27u8, Seq::empty(), span_of(p, r))] + rest.0, rest.1)
            } else {
                let rest = lex_from(cs, q);
                match symbol_tag(ch) {
                    Some(t) => (seq![(t, Seq::empty(), span_of(p, q))] + rest.0, rest.1),
                    None => (
                        rest.0,
                        seq![("unexpected character `"@ + seq![ch] + "`"@, span_of(p, q))] + rest.1,
                    ),
                }
            }
        }
    }
}

/// Lexing a whole text.
pub open spec fn lex_spec(cs: Seq<char>) -> (Seq<(u8, Seq<char>, Span)>, Seq<(Seq<char>, Span)>) {
    lex_from(cs, start_place())
}

/// The position of the scanner: character index, byte offset, line, column.
struct Cursor {
    index: usize,
    byte: usize,
    line: usize,
    column: usize,
}

impl Lexer {
    /// The characters of the source.
    pub closed spec fn source(&self) -> Seq<char> {
        self.chars@
    }

    pub fn new(source: &str) -> (r: Self)
        ensures
            r.source() == source@,
            r.wf(),
    {
        Lexer { chars: chars_of(source) }
    }

    /// The source is a text that fits in memory.
    pub closed spec fn wf(&self) -> bool {
        utf8_length(self.chars@) <= isize::MAX
    }
}

/// The keyword spelled by `word`, if any.
fn keyword(word: &Vec<char>) -> (r: Option<TokenKind>)
    ensures
        r matches Some(k) ==> !(k is Identifier) && !(k is Number) && !(k is Str) && !(k is Eof)
            && keyword_tag(word@) == Some(tag_spec(k)) && payload(k) == Seq::<char>::empty(),
        r is None ==> keyword_tag(word@) is None,
{
    let w = crate::text::string_from_chars(word.as_slice());
    if crate::text::string_is(&w, "begin") {
        Some(TokenKind::Begin)
    } else if crate::text::string_is(&w, "end") {
        Some(TokenKind::End)
    } else if crate::text::string_is(&w, "let") {
        Some(TokenKind::Let)
    } else if crate::text::string_is(&w, "be") {
        Some(TokenKind::Be)
    } else if crate::text::string_is(&w, "print") {
        Some(TokenKind::Print)
    } else if crate::text::string_is(&w, "assert") {
        Some(TokenKind::Assert)
    } else if crate::text::string_is(&w, "if") {
        Some(TokenKind::If)
    } else if crate::text::string_is(&w, "then") {
        Some(TokenKind::Then)
    } else if crate::text::string_is(&w, "otherwise") {
        Some(TokenKind::Otherwise)
    } else if crate::text::string_is(&w, "repeat") {
        Some(TokenKind::Repeat)
    } else if crate::text::string_is(&w, "times") {
        Some(TokenKind::Times)
    } else if crate::text::string_is(&w, "function") {
        Some(TokenKind::Function)
    } else if crate::text::string_is(&w, "return") {
        Some(TokenKind::Return)
    } else if crate::text::string_is(&w, "window") {
        Some(TokenKind::Window)
    } else if crate::text::string_is(&w, "true") {
        Some(TokenKind::True)
    } else if crate::text::string_is(&w, "false") {
        Some(TokenKind::False)
    } else if crate::text::string_is(&w, "null") {
        Some(TokenKind::Null)
    } else if crate::text::string_is(&w, "and") {
        Some(TokenKind::And)
    } else if crate::text::string_is(&w, "or") {
        Some(TokenKind::Or)
    } else if crate::text::string_is(&w, "is") {
        Some(TokenKind::Is)
    } else {
        None
    }
}


proof fn lemma_utf8_length_prefix(cs: Seq<char>, i: int)
    requires
        0 <= i < cs.len(),
    ensures
        utf8_length(cs.take(i + 1)) == utf8_length(cs.take(i)) + utf8_width(cs[i]),
        utf8_length(cs.take(i + 1)) <= utf8_length(cs),
{
    assert(cs.take(i + 1).drop_last() =~= cs.take(i));
    lemma_utf8_length_monotone(cs, i + 1);
}

proof fn lemma_utf8_length_monotone(cs: Seq<char>, i: int)
    requires
        0 <= i <= cs.len(),
    ensures
        utf8_length(cs.take(i)) <= utf8_length(cs),
    decreases cs.len(),
{
    if i < cs.len() {
        lemma_utf8_length_monotone(cs.drop_last(), i);
        assert(cs.drop_last().take(i) =~= cs.take(i));
    } else {
        assert(cs.take(i) =~= cs);
    }
}

impl Lexer {
    /// The cursor is at a character boundary, with line and column counted.
    spec fn at(&self, c: Cursor) -> bool {
        &&& c.index <= self.chars@.len()
        &&& c.byte == utf8_length(self.chars@.take(c.index as int))
        &&& c.line >= 1
        &&& c.column >= 1
        &&& c.line + c.column <= c.byte + 2
    }

    /// Moves past one character.
    fn advance(&self, c: Cursor) -> (r: Cursor)
        requires
            self.wf(),
            self.at(c),
            c.index < self.chars.len(),
        ensures
            self.at(r),
            r.index == c.index + 1,
            r.byte > c.byte,
            place(r) == step(self.chars@, place(c)),
    {
        proof {
            lemma_utf8_length_prefix(self.chars@, c.index as int);
        }
        let ch = self.chars[c.index];
        let w = char_width(ch);
        if ch == '\n' {
            Cursor { index: c.index + 1, byte: c.byte + w, line: c.line + 1, column: 1 }
        } else {
            Cursor { index: c.index + 1, byte: c.byte + w, line: c.line, column: c.column + 1 }
        }
    }

    fn span_from(&self, start: &Cursor, end: &Cursor) -> (s: Span)
        ensures
            s == span_of(place(*start), place(*end)),
            s.line == start.line,
            s.column == start.column,
            s.start == start.byte,
            s.end == end.byte,
    {
        Span { line: start.line, column: start.column, start: start.byte, end: end.byte }
    }

    /// Skips a comment, up to the next newline.
    fn skip_comment(&self, c: Cursor) -> (r: Cursor)
        requires
            self.wf(),
            self.at(c),
        ensures
            self.at(r),
            c.byte <= r.byte,
            place(r) == comment_end(self.chars@, place(c)),
    {
        let mut d = c;
        while d.index < self.chars.len() && self.chars[d.index] != '\n'
            invariant
                self.wf(),
                self.at(d),
                c.byte <= d.byte,
                comment_end(self.chars@, place(d)) == comment_end(self.chars@, place(c)),
            decreases self.chars@.len() - d.index,
        {
            d = self.advance(d);
        }
        d
    }

    /// Scans a run of digits, appending them to `text`.
    fn scan_digits(&self, c: Cursor, text: &mut String) -> (r: Cursor)
        requires
            self.wf(),
            self.at(c),
        ensures
            self.at(r),
            c.byte <= r.byte,
            c.index <= r.index,
            place(r) == digits_end(self.chars@, place(c)),
            final(text)@ == old(text)@ + self.chars@.subrange(c.index as int, r.index as int),
    {
        let mut d = c;
        while d.index < self.chars.len() && '0' <= self.chars[d.index] && self.chars[d.index] <= '9'
            invariant
                self.wf(),
                self.at(d),
                c.byte <= d.byte,
                c.index <= d.index,
                digits_end(self.chars@, place(d)) == digits_end(self.chars@, place(c)),
                text@ == old(text)@ + self.chars@.subrange(c.index as int, d.index as int),
            decreases self.chars@.len() - d.index,
        {
            let ghost before = text@;
            push_char(text, self.chars[d.index]);
            proof {
                assert(self.chars@.subrange(c.index as int, d.index + 1) =~= self.chars@.subrange(
                    c.index as int,
                    d.index as int,
                ).push(self.chars@[d.index as int]));
            }
            d = self.advance(d);
        }
        d
    }

    /// Scans a number literal starting at a digit.
    fn scan_number(&self, c: Cursor) -> (r: (String, Cursor))
        requires
            self.wf(),
            self.at(c),
        ensures
            self.at(r.1),
            c.byte <= r.1.byte,
            place(r.1) == number_end(self.chars@, place(c)),
            r.0@ == self.chars@.subrange(c.index as int, r.1.index as int),
    {
        let mut text = String::new();
        let d = self.scan_digits(c, &mut text);
        if d.index < self.chars.len() && d.index + 1 < self.chars.len() && self.chars[d.index] == '.'
            && '0' <= self.chars[d.index + 1] && self.chars[d.index + 1] <= '9' {
            push_char(&mut text, '.');
            let e = self.advance(d);
            let f = self.scan_digits(e, &mut text);
            proof {
                assert(self.chars@.subrange(c.index as int, f.index as int) =~= self.chars@.subrange(
                    c.index as int,
                    d.index as int,
                ).push('.') + self.chars@.subrange(e.index as int, f.index as int));
            }
            (text, f)
        } else {
            proof {
                assert(Seq::<char>::empty() + self.chars@.subrange(c.index as int, d.index as int)
                    =~= self.chars@.subrange(c.index as int, d.index as int));
            }
            (text, d)
        }
    }

    /// Scans a word of identifier characters.
    fn scan_word(&self, c: Cursor) -> (r: (Vec<char>, Cursor))
        requires
            self.wf(),
            self.at(c),
        ensures
            self.at(r.1),
            c.byte <= r.1.byte,
            place(r.1) == word_end(self.chars@, place(c)),
            r.0@ == self.chars@.subrange(c.index as int, r.1.index as int),
    {
        let mut word: Vec<char> = Vec::new();
        let mut d = c;
        while d.index < self.chars.len() && (('a' <= self.chars[d.index] && self.chars[d.index] <= 'z')
            || ('A' <= self.chars[d.index] && self.chars[d.index] <= 'Z') || ('0' <= self.chars[d.index]
            && self.chars[d.index] <= '9') || self.chars[d.index] == '_')
            invariant
                self.wf(),
                self.at(d),
                c.byte <= d.byte,
                c.index <= d.index,
                word_end(self.chars@, place(d)) == word_end(self.chars@, place(c)),
                word@ =~= self.chars@.subrange(c.index as int, d.index as int),
            decreases self.chars@.len() - d.index,
        {
            word.push(self.chars[d.index]);
            d = self.advance(d);
        }
        (word, d)
    }

    /// Scans the rest of a string literal after its opening quote. Escape
    /// errors are appended to `errors`; returns the contents, the end and
    /// whether the closing quote was found.
    fn scan_string(&self, c: Cursor, errors: &mut Vec<LexError>) -> (r: (String, Cursor, bool))
        requires
            self.wf(),
            self.at(c),
        ensures
            self.at(r.1),
            c.byte <= r.1.byte,
            ({
                let s = string_scan(self.chars@, place(c), Seq::empty(), Seq::empty());
                &&& s.0 == r.0@
                &&& lex_errors_view(final(errors)@) == lex_errors_view(old(errors)@) + s.1
                &&& s.2 == place(r.1)
                &&& s.3 == r.2
            }),
    {
        let ghost res = string_scan(self.chars@, place(c), Seq::empty(), Seq::empty());
        let ghost base = lex_errors_view(errors@);
        let mut text = String::new();
        let mut closed = false;
        let mut d = c;
        proof {
            assert(lex_errors_view(errors@).skip(base.len() as int) =~= Seq::<(Seq<char>, Span)>::empty());
            assert(lex_errors_view(errors@).subrange(0, base.len() as int) =~= base);
            assert(text@ =~= Seq::<char>::empty());
        }
        while d.index < self.chars.len() && !closed
            invariant
                self.wf(),
                self.at(d),
                c.byte <= d.byte,
                base == lex_errors_view(old(errors)@),
                lex_errors_view(errors@).len() >= base.len(),
                lex_errors_view(errors@).subrange(0, base.len() as int) == base,
                !closed ==> string_scan(
                    self.chars@,
                    place(d),
                    text@,
                    lex_errors_view(errors@).skip(base.len() as int),
                ) == res,
                closed ==> res == (text@, lex_errors_view(errors@).skip(base.len() as int), place(d), true),
            decreases self.chars@.len() - d.index,
        {
            let ghost errs = lex_errors_view(errors@).skip(base.len() as int);
            let ghost t0 = text@;
            let ghost e0 = errors@;
            let ch = self.chars[d.index];
            if ch == '"' {
                closed = true;
                d = self.advance(d);
            } else if ch == '\\' && d.index + 1 < self.chars.len() {
                let e = self.chars[d.index + 1];
                let escape_start = Cursor { index: d.index, byte: d.byte, line: d.line, column: d.column };
                d = self.advance(d);
                d = self.advance(d);
                if e == 'n' {
                    push_char(&mut text, '\n');
                } else if e == 't' {
                    push_char(&mut text, '\t');
                } else if e == '"' {
                    push_char(&mut text, '"');
                } else if e == '\\' {
                    push_char(&mut text, '\\');
                } else {
                    let sp = self.span_from(&escape_start, &d);
                    errors.push(LexError { message: string_of("unknown escape sequence in string literal"), span: sp });
                    proof {
                        assert(lex_errors_view(errors@) =~= lex_errors_view(e0).push(
                            ("unknown escape sequence in string literal"@, sp),
                        ));
                        assert(lex_errors_view(errors@).skip(base.len() as int) =~= errs.push(
                            ("unknown escape sequence in string literal"@, sp),
                        ));
                        assert(lex_errors_view(errors@).subrange(0, base.len() as int) =~= base);
                    }
                }
            } else {
                push_char(&mut text, ch);
                d = self.advance(d);
            }
        }
        (text, d, closed)
    }
}

/// The token of a one-character operator or delimiter.
fn symbol(ch: char) -> (r: Option<TokenKind>)
    ensures
        r matches Some(k) ==> symbol_tag(ch) == Some(tag_spec(k)) && payload(k) == Seq::<char>::empty()
            && !(k is Eof),
        r is None ==> symbol_tag(ch) is None,
{
    if ch == '=' {
        Some(TokenKind::Equal)
    } else if ch == '+' {
        Some(TokenKind::Plus)
    } else if ch == '-' {
        Some(TokenKind::Minus)
    } else if ch == '*' {
        Some(TokenKind::Star)
    } else if ch == '/' {
        Some(TokenKind::Slash)
    } else if ch == '(' {
        Some(TokenKind::LeftParen)
    } else if ch == ')' {
        Some(TokenKind::RightParen)
    } else if ch == '[' {
        Some(TokenKind::LeftBracket)
    } else if ch == ']' {
        Some(TokenKind::RightBracket)
    } else if ch == '{' {
        Some(TokenKind::LeftBrace)
    } else if ch == '}' {
        Some(TokenKind::RightBrace)
    } else if ch == ',' {
        Some(TokenKind::Comma)
    } else if ch == ':' {
        Some(TokenKind::Colon)
    } else if ch == '<' {
        Some(TokenKind::Less)
    } else if ch == '>' {
        Some(TokenKind::Greater)
    } else {
        None
    }
}

/// The place a cursor stands at.
spec fn place(c: Cursor) -> Place {
    Place { index: c.index as nat, byte: c.byte as nat, line: c.line as nat, column: c.column as nat }
}

impl Lexer {
    /// Splits the source into tokens that end with `Eof`, or fails with
    /// every lexical error found (an unknown character, an unterminated
    /// string or an unknown escape), as `lex_spec` describes them.
    pub fn tokenize(&self) -> (r: Result<Vec<Token>, Vec<LexError>>)
        requires
            self.wf(),
        ensures
            r matches Ok(ts) ==> well_formed_tokens(ts@, utf8_length(self.source()))
                && tokens_view(ts@) == lex_spec(self.source()).0
                && lex_spec(self.source()).1.len() == 0,
            r matches Err(es) ==> es@.len() > 0 && lex_errors_view(es@) == lex_spec(self.source()).1,
    {
        let ghost total = utf8_length(self.chars@);
        let ghost cs = self.chars@;
        let ghost full = lex_spec(cs);
        let mut tokens: Vec<Token> = Vec::new();
        let mut errors: Vec<LexError> = Vec::new();
        let mut c = Cursor { index: 0, byte: 0, line: 1, column: 1 };
        proof {
            assert(self.chars@.take(0) =~= Seq::<char>::empty());
            assert(tokens_view(tokens@) + full.0 =~= full.0);
            assert(lex_errors_view(errors@) + full.1 =~= full.1);
        }
        while c.index < self.chars.len()
            invariant
                self.wf(),
                self.at(c),
                cs == self.chars@,
                full == lex_spec(cs),
                total == utf8_length(self.chars@),
                forall|i: int| 0 <= i < tokens@.len() ==> span_within(#[trigger] tokens@[i].span, c.byte as nat),
                forall|i: int| 0 <= i < tokens@.len() - 1 ==> #[trigger] tokens@[i].span.end <= tokens@[i + 1].span.start,
                forall|i: int| 0 <= i < tokens@.len() ==> !(#[trigger] tokens@[i].kind is Eof),
                full.0 == tokens_view(tokens@) + lex_from(cs, place(c)).0,
                full.1 == lex_errors_view(errors@) + lex_from(cs, place(c)).1,
            decreases self.chars@.len() - c.index,
        {
            proof {
                lemma_utf8_length_monotone(self.chars@, c.index as int);
                lemma_runs(cs, place(c));
                lemma_runs(cs, step(cs, place(c)));
            }
            let ch = self.chars[c.index];
            let start = Cursor { index: c.index, byte: c.byte, line: c.line, column: c.column };
            let ghost p = place(c);
            let ghost rest_before = lex_from(cs, p);
            if space(ch) {
                c = self.advance(c);
                continue;
            }
            if ch == '#' {
                c = self.skip_comment(c);
                continue;
            }
            let ghost before = tokens@;
            let ghost errors_before = errors@;
            if '0' <= ch && ch <= '9' {
                let (text, d) = self.scan_number(c);
                let sp = self.span_from(&start, &d);
                let ghost tok = (21u8, text@, sp);
                c = d;
                tokens.push(Token { kind: TokenKind::Number(text), span: sp });
                proof {
                    assert(rest_before == (seq![tok] + lex_from(cs, place(c)).0, lex_from(cs, place(c)).1));
                    assert(tokens_view(tokens@) =~= tokens_view(before).push(tok));
                    assert(full.0 =~= tokens_view(tokens@) + lex_from(cs, place(c)).0);
                }
            } else if ('a' <= ch && ch <= 'z') || ('A' <= ch && ch <= 'Z') || ch == '_' {
                let (word, d) = self.scan_word(c);
                let sp = self.span_from(&start, &d);
                c = d;
                let kind = match keyword(&word) {
                    Some(k) => k,
                    None => TokenKind::Identifier(crate::text::string_from_chars(word.as_slice())),
                };
                let ghost tok = token_view(Token { kind, span: sp });
                tokens.push(Token { kind, span: sp });
                proof {
                    assert(rest_before == (seq![tok] + lex_from(cs, place(c)).0, lex_from(cs, place(c)).1));
                    assert(tokens_view(tokens@) =~= tokens_view(before).push(tok));
                    assert(full.0 =~= tokens_view(tokens@) + lex_from(cs, place(c)).0);
                }
            } else if ch == '"' {
                let d = self.advance(c);
                let (text, e, closed) = self.scan_string(d, &mut errors);
                let ghost scanned = string_scan(cs, place(d), Seq::empty(), Seq::empty());
                c = e;
                let sp = self.span_from(&start, &c);
                if closed {
                    let ghost tok = (22u8, text@, sp);
                    tokens.push(Token { kind: TokenKind::Str(text), span: sp });
                    proof {
                        assert(rest_before == (seq![tok] + lex_from(cs, place(c)).0, scanned.1 + lex_from(cs, place(c)).1));
                        assert(tokens_view(tokens@) =~= tokens_view(before).push(tok));
                        assert(full.0 =~= tokens_view(tokens@) + lex_from(cs, place(c)).0);
                        assert(full.1 =~= lex_errors_view(errors@) + lex_from(cs, place(c)).1);
                    }
                } else {
                    let ghost e1 = errors@;
                    errors.push(LexError { message: string_of("unterminated string literal"), span: sp });
                    proof {
                        assert(lex_errors_view(errors@) =~= lex_errors_view(e1).push(("unterminated string literal"@, sp)));
                        assert(rest_before == (lex_from(cs, place(c)).0, scanned.1.push(("unterminated string literal"@, sp)) + lex_from(cs, place(c)).1));
                        assert(full.1 =~= lex_errors_view(errors@) + lex_from(cs, place(c)).1);
                    }
                }
            } else {
                c = self.advance(c);
                let ghost q = place(c);
                if ch == '=' && c.index < self.chars.len() && self.chars[c.index] == '=' {
                    proof {
                        lemma_runs(cs, step(cs, q));
                    }
                    c = self.advance(c);
                    let sp = self.span_from(&start, &c);
                    let ghost tok = (27u8, Seq::<char>::empty(), sp);
                    tokens.push(Token { kind: TokenKind::EqualEqual, span: sp });
                    proof {
                        assert(rest_before == (seq![tok] + lex_from(cs, place(c)).0, lex_from(cs, place(c)).1));
                        assert(tokens_view(tokens@) =~= tokens_view(before).push(tok));
                        assert(full.0 =~= tokens_view(tokens@) + lex_from(cs, place(c)).0);
                    }
                } else {
                    let sp = self.span_from(&start, &c);
                    let kind = symbol(ch);
                    match kind {
                        Some(k) => {
                            let ghost tok = token_view(Token { kind: k, span: sp });
                            tokens.push(Token { kind: k, span: sp });
                            proof {
                                assert(rest_before == (seq![tok] + lex_from(cs, place(c)).0, lex_from(cs, place(c)).1));
                                assert(tokens_view(tokens@) =~= tokens_view(before).push(tok));
                                assert(full.0 =~= tokens_view(tokens@) + lex_from(cs, place(c)).0);
                            }
                        },
                        None => {
                            let mut message = string_of("unexpected character `");
                            push_char(&mut message, ch);
                            crate::text::push_str(&mut message, "`");
                            let ghost e1 = errors@;
                            let ghost err = ("unexpected character `"@ + seq![ch] + "`"@, sp);
                            proof {
                                assert(message@ =~= "unexpected character `"@ + seq![ch] + "`"@);
                            }
                            errors.push(LexError { message, span: sp });
                            proof {
                                assert(lex_errors_view(errors@) =~= lex_errors_view(e1).push(err));
                                assert(rest_before == (lex_from(cs, place(c)).0, seq![err] + lex_from(cs, place(c)).1));
                                assert(full.1 =~= lex_errors_view(errors@) + lex_from(cs, place(c)).1);
                            }
                        },
                    }
                }
            }
            proof {
                assert(forall|i: int| 0 <= i < before.len() ==> tokens@[i] == before[i]);
            }
        }
        let sp = Span { line: c.line, column: c.column, start: c.byte, end: c.byte };
        let ghost before = tokens@;
        tokens.push(Token { kind: TokenKind::Eof, span: sp });
        proof {
            assert(c.index == self.chars@.len());
            assert(self.chars@.take(c.index as int) =~= self.chars@);
            assert(forall|i: int| 0 <= i < before.len() ==> tokens@[i] == before[i]);
            assert(tokens_view(tokens@) =~= tokens_view(before).push((39u8, Seq::<char>::empty(), sp)));
            assert(sp == span_of(place(c), place(c)));
            assert(lex_errors_view(errors@) + Seq::<(Seq<char>, Span)>::empty() =~= lex_errors_view(errors@));
        }
        if errors.len() > 0 {
            Err(errors)
        } else {
            Ok(tokens)
        }
    }
}

/// No two operator or delimiter characters lex to the same kind of token.
pub proof fn lemma_symbols_distinct(c1: char, c2: char)
    ensures
        symbol_tag(c1) is Some && symbol_tag(c1) == symbol_tag(c2) ==> c1 == c2,
{
}

/// Outside strings and comments, an arithmetic operator character lexes as
/// its own token: `+` as `Plus`, `-` as `Minus`, `*` as `Star` and `/` as
/// `Slash`, with no text and spanning that one character; lexing goes on
/// after it.
pub proof fn lemma_arithmetic_tokens(cs: Seq<char>, p: Place)
    requires
        p.index < cs.len(),
    ensures
        ({
            let c = cs[p.index as int];
            let q = step(cs, p);
            let tok = |k: TokenKind| (tag_spec(k), Seq::<char>::empty(), span_of(p, q));
            &&& c == '+' ==> lex_from(cs, p) == (seq![tok(TokenKind::Plus)] + lex_from(cs, q).0, lex_from(cs, q).1)
            &&& c == '-' ==> lex_from(cs, p) == (seq![tok(TokenKind::Minus)] + lex_from(cs, q).0, lex_from(cs, q).1)
            &&& c == '*' ==> lex_from(cs, p) == (seq![tok(TokenKind::Star)] + lex_from(cs, q).0, lex_from(cs, q).1)
            &&& c == '/' ==> lex_from(cs, p) == (seq![tok(TokenKind::Slash)] + lex_from(cs, q).0, lex_from(cs, q).1)
        }),
{
}

/// `=` lexes as `Equal`, and `==` as one `EqualEqual` token spanning both
/// characters.
pub proof fn lemma_equals_tokens(cs: Seq<char>, p: Place)
    requires
        p.index < cs.len(),
        cs[p.index as int] == '=',
    ensures
        ({
            let q = step(cs, p);
            if q.index < cs.len() && cs[q.index as int] == '=' {
                let r = step(cs, q);
                lex_from(cs, p) == (
                    seq![(tag_spec(TokenKind::EqualEqual), Seq::<char>::empty(), span_of(p, r))] + lex_from(cs, r).0,
                    lex_from(cs, r).1,
                )
            } else {
                lex_from(cs, p) == (
                    seq![(tag_spec(TokenKind::Equal), Seq::<char>::empty(), span_of(p, q))] + lex_from(cs, q).0,
                    lex_from(cs, q).1,
                )
            }
        }),
{
}

/// Each keyword lexes to its own kind of token, and only that word does:
/// `print` to `Print`, `is` to `Is`, and so on for every keyword.
pub proof fn lemma_keywords(w: Seq<char>)
    ensures
        (keyword_tag(w) == Some(tag_spec(TokenKind::Begin))) <==> w == "begin"@,
        (keyword_tag(w) == Some(tag_spec(TokenKind::End))) <==> w == "end"@,
        (keyword_tag(w) == Some(tag_spec(TokenKind::Let))) <==> w == "let"@,
        (keyword_tag(w) == Some(tag_spec(TokenKind::Be))) <==> w == "be"@,
        (keyword_tag(w) == Some(tag_spec(TokenKind::Print))) <==> w == "print"@,
        (keyword_tag(w) == Some(tag_spec(TokenKind::Assert))) <==> w == "assert"@,
        (keyword_tag(w) == Some(tag_spec(TokenKind::If))) <==> w == "if"@,
        (keyword_tag(w) == Some(tag_spec(TokenKind::Then))) <==> w == "then"@,
        (keyword_tag(w) == Some(tag_spec(TokenKind::Otherwise))) <==> w == "otherwise"@,
        (keyword_tag(w) == Some(tag_spec(TokenKind::Repeat))) <==> w == "repeat"@,
        (keyword_tag(w) == Some(tag_spec(TokenKind::Times))) <==> w == "times"@,
        (keyword_tag(w) == Some(tag_spec(TokenKind::Function))) <==> w == "function"@,
        (keyword_tag(w) == Some(tag_spec(TokenKind::Return))) <==> w == "return"@,
        (keyword_tag(w) == Some(tag_spec(TokenKind::Window))) <==> w == "window"@,
        (keyword_tag(w) == Some(tag_spec(TokenKind::True))) <==> w == "true"@,
        (keyword_tag(w) == Some(tag_spec(TokenKind::False))) <==> w == "false"@,
        (keyword_tag(w) == Some(tag_spec(TokenKind::Null))) <==> w == "null"@,
        (keyword_tag(w) == Some(tag_spec(TokenKind::And))) <==> w == "and"@,
        (keyword_tag(w) == Some(tag_spec(TokenKind::Or))) <==> w == "or"@,
        (keyword_tag(w) == Some(tag_spec(TokenKind::Is))) <==> w == "is"@,
{
    reveal_strlit("begin");
    reveal_strlit("end");
    reveal_strlit("let");
    reveal_strlit("be");
    reveal_strlit("print");
    reveal_strlit("assert");
    reveal_strlit("if");
    reveal_strlit("then");
    reveal_strlit("otherwise");
    reveal_strlit("repeat");
    reveal_strlit("times");
    reveal_strlit("function");
    reveal_strlit("return");
    reveal_strlit("window");
    reveal_strlit("true");
    reveal_strlit("false");
    reveal_strlit("null");
    reveal_strlit("and");
    reveal_strlit("or");
    reveal_strlit("is");
    assert("begin"@.len() == 5);
    assert("end"@.len() == 3);
    assert("let"@.len() == 3);
    assert("be"@.len() == 2);
    assert("print"@.len() == 5);
    assert("assert"@.len() == 6);
    assert("if"@.len() == 2);
    assert("then"@.len() == 4);
    assert("otherwise"@.len() == 9);
    assert("repeat"@.len() == 6);
    assert("times"@.len() == 5);
    assert("function"@.len() == 8);
    assert("return"@.len() == 6);
    assert("window"@.len() == 6);
    assert("true"@.len() == 4);
    assert("false"@.len() == 5);
    assert("null"@.len() == 4);
    assert("and"@.len() == 3);
    assert("or"@.len() == 2);
    assert("is"@.len() == 2);
    assert("begin"@[0] != "print"@[0]);
    assert("begin"@[0] != "times"@[0]);
    assert("begin"@[0] != "false"@[0]);
    assert("end"@[0] != "let"@[0]);
    assert("end"@[0] != "and"@[0]);
    assert("let"@[0] != "and"@[0]);
    assert("be"@[0] != "if"@[0]);
    assert("be"@[0] != "or"@[0]);
    assert("be"@[0] != "is"@[0]);
    assert("print"@[0] != "times"@[0]);
    assert("print"@[0] != "false"@[0]);
    assert("assert"@[0] != "repeat"@[0]);
    assert("assert"@[0] != "return"@[0]);
    assert("assert"@[0] != "window"@[0]);
    assert("if"@[0] != "or"@[0]);
    assert("if"@[1] != "is"@[1]);
    assert("then"@[1] != "true"@[1]);
    assert("then"@[0] != "null"@[0]);
    assert("repeat"@[2] != "return"@[2]);
    assert("repeat"@[0] != "window"@[0]);
    assert("times"@[0] != "false"@[0]);
    assert("return"@[0] != "window"@[0]);
    assert("true"@[0] != "null"@[0]);
    assert("or"@[0] != "is"@[0]);
}

} // verus!
