//! Character-level helpers shared by the compiler stages.
use vstd::prelude::*;

verus! {

/// The character of a decimal digit `d < 10`.
pub open spec fn digit_char(d: nat) -> char {
    if d == 0 { '0' }
    else if d == 1 { '1' }
    else if d == 2 { '2' }
    else if d == 3 { '3' }
    else if d == 4 { '4' }
    else if d == 5 { '5' }
    else if d == 6 { '6' }
    else if d == 7 { '7' }
    else if d == 8 { '8' }
    else { '9' }
}

/// The decimal rendering of a natural number, without sign or leading zeros.
pub open spec fn decimal(n: nat) -> Seq<char>
    decreases n,
{
    if n < 10 {
        seq![digit_char(n)]
    } else {
        decimal(n / 10).push(digit_char(n % 10))
    }
}

pub fn digit(d: usize) -> (c: char)
    requires
        d < 10,
    ensures
        c == digit_char(d as nat),
{
    match d {
        0 => '0',
        1 => '1',
        2 => '2',
        3 => '3',
        4 => '4',
        5 => '5',
        6 => '6',
        7 => '7',
        8 => '8',
        _ => '9',
    }
}

/// Renders `n` in decimal, as `format!("{n}")` does.
pub fn usize_to_string(n: usize) -> (s: String)
    ensures
        s@ == decimal(n as nat),
    decreases n,
{
    if n < 10 {
        let mut s = String::new();
        push_char(&mut s, digit(n));
        assert(s@ =~= seq![digit_char(n as nat)]);
        s
    } else {
        let mut s = usize_to_string(n / 10);
        push_char(&mut s, digit(n % 10));
        s
    }
}

/// `String::push`: appends one character.
#[verifier::external_body]
pub(crate) fn push_char(s: &mut String, c: char)
    ensures
        final(s)@ == old(s)@.push(c),
{
    s.push(c);
}

/// `String::push_str`: appends the characters of `t`.
pub fn push_str(s: &mut String, t: &str)
    ensures
        final(s)@ == old(s)@ + t@,
{
    s.append(t);
}

/// A new `String` holding the characters of `t`.
pub fn string_of(t: &str) -> (s: String)
    ensures
        s@ == t@,
{
    String::from_str(t)
}

/// `str::len`: the number of bytes of `t` in UTF-8. A `str` is one
/// allocation, and no allocation exceeds `isize::MAX` bytes; the contract
/// states that bound too.
#[verifier::external_body]
fn byte_length(t: &str) -> (n: usize)
    ensures
        n == utf8_length(t@),
        n <= isize::MAX,
{
    t.len()
}

/// The characters of `t` in a vector; their UTF-8 length fits in an
/// `isize`.
pub(crate) fn chars_of(t: &str) -> (v: Vec<char>)
    ensures
        v@ == t@,
        utf8_length(v@) <= isize::MAX,
{
    let _ = byte_length(t);
    let mut v: Vec<char> = Vec::new();
    for c in it: t.chars()
        invariant
            v@ == it.seq().take(it.index() as int),
    {
        v.push(c);
    }
    v
}

/// A new `String` holding the characters of `v`.
pub fn string_from_chars(v: &[char]) -> (s: String)
    ensures
        s@ == v@,
{
    let mut s = String::new();
    push_chars(&mut s, v);
    s
}

/// Appends the characters of `v` to `s`.
pub fn push_chars(s: &mut String, v: &[char])
    ensures
        final(s)@ == old(s)@ + v@,
{
    let mut i: usize = 0;
    while i < v.len()
        invariant
            i <= v@.len(),
            s@ =~= old(s)@ + v@.take(i as int),
        decreases v@.len() - i,
    {
        push_char(s, v[i]);
        i += 1;
    }
    assert(v@.take(v@.len() as int) =~= v@);
}

/// Whether two character sequences are equal.
pub fn chars_equal(a: &[char], b: &[char]) -> (r: bool)
    ensures
        r == (a@ == b@),
{
    if a.len() != b.len() {
        return false;
    }
    let mut i: usize = 0;
    while i < a.len()
        invariant
            i <= a@.len(),
            a@.len() == b@.len(),
            forall|j: int| 0 <= j < i ==> a@[j] == b@[j],
        decreases a@.len() - i,
    {
        if a[i] != b[i] {
            assert(a@[i as int] != b@[i as int]);
            return false;
        }
        i += 1;
    }
    assert(a@ =~= b@);
    true
}

/// Whether the characters of `a` are exactly those of `w`.
pub fn chars_are(a: &[char], w: &str) -> (r: bool)
    ensures
        r == (a@ == w@),
{
    let ws = chars_of(w);
    chars_equal(a, ws.as_slice())
}

/// A copy of `s` with the same characters.
pub fn copy_string(s: &String) -> (r: String)
    ensures
        r@ == s@,
        r == *s,
{
    s.clone()
}

/// Whether two strings hold the same characters.
pub fn same_string(a: &String, b: &String) -> (r: bool)
    ensures
        r == (a@ == b@),
{
    *a == *b
}

/// Whether `a` holds exactly the characters of `b`.
pub fn string_is(a: &String, b: &str) -> (r: bool)
    ensures
        r == (a@ == b@),
{
    let s = string_of(b);
    *a == s
}

/// The number of bytes that `c` takes in UTF-8.
pub open spec fn utf8_width(c: char) -> nat {
    if (c as u32) < 0x80 {
        1
    } else if (c as u32) < 0x800 {
        2
    } else if (c as u32) < 0x10000 {
        3
    } else {
        4
    }
}

/// The number of bytes that `cs` takes in UTF-8.
pub open spec fn utf8_length(cs: Seq<char>) -> nat
    decreases cs.len(),
{
    if cs.len() == 0 {
        0
    } else {
        utf8_length(cs.drop_last()) + utf8_width(cs.last())
    }
}

/// `char::len_utf8`.
pub fn char_width(c: char) -> (n: usize)
    ensures
        n == utf8_width(c),
{
    let v = c as u32;
    if v < 0x80 {
        1
    } else if v < 0x800 {
        2
    } else if v < 0x10000 {
        3
    } else {
        4
    }
}

/// Unicode White_Space, the set that `char::is_whitespace` tests.
pub open spec fn is_space(c: char) -> bool {
    let v = c as u32;
    (0x09 <= v && v <= 0x0d) || v == 0x20 || v == 0x85 || v == 0xa0 || v == 0x1680
        || (0x2000 <= v && v <= 0x200a) || v == 0x2028 || v == 0x2029 || v == 0x202f
        || v == 0x205f || v == 0x3000
}

/// `char::is_whitespace`.
pub fn space(c: char) -> (r: bool)
    ensures
        r == is_space(c),
{
    let v = c as u32;
    (0x09 <= v && v <= 0x0d) || v == 0x20 || v == 0x85 || v == 0xa0 || v == 0x1680
        || (0x2000 <= v && v <= 0x200a) || v == 0x2028 || v == 0x2029 || v == 0x202f
        || v == 0x205f || v == 0x3000
}


/// The length of the longest prefix of `s` without a newline.
pub open spec fn newline_index(s: Seq<char>) -> nat
    decreases s.len(),
{
    if s.len() == 0 || s[0] == '\n' {
        0
    } else {
        1 + newline_index(s.drop_first())
    }
}

/// `s` without one trailing carriage return.
pub open spec fn strip_cr(s: Seq<char>) -> Seq<char> {
    if s.len() > 0 && s.last() == '\r' {
        s.drop_last()
    } else {
        s
    }
}

/// The lines of `s` as `str::lines` gives them: split after each newline,
/// a `\r` before the newline removed, no empty line after a final newline.
pub open spec fn lines_spec(s: Seq<char>) -> Seq<Seq<char>>
    decreases s.len(),
{
    if s.len() == 0 {
        Seq::empty()
    } else {
        let i = newline_index(s);
        proof {
            lemma_newline_index(s);
        }
        if i == s.len() {
            seq![s]
        } else {
            seq![strip_cr(s.take(i as int))] + lines_spec(s.skip((i + 1) as int))
        }
    }
}

pub proof fn lemma_newline_index(s: Seq<char>)
    ensures
        newline_index(s) <= s.len(),
        forall|j: int| 0 <= j < newline_index(s) ==> s[j] != '\n',
        newline_index(s) < s.len() ==> s[newline_index(s) as int] == '\n',
    decreases s.len(),
{
    if s.len() > 0 && s[0] != '\n' {
        lemma_newline_index(s.drop_first());
        assert forall|j: int| 0 <= j < newline_index(s) implies s[j] != '\n' by {
            if j > 0 {
                assert(s[j] == s.drop_first()[j - 1]);
            }
        }
    }
}

/// The lines of a text, as `str::lines` splits them.
pub fn split_lines(cs: &[char]) -> (r: Vec<Vec<char>>)
    ensures
        r@.map_values(|l: Vec<char>| l@) == lines_spec(cs@),
{
    let mut out: Vec<Vec<char>> = Vec::new();
    let mut start: usize = 0;
    let mut current: Vec<char> = Vec::new();
    let mut i: usize = 0;
    proof {
        assert(cs@.skip(0) =~= cs@);
    }
    while i < cs.len()
        invariant
            start <= i <= cs@.len(),
            current@ =~= cs@.subrange(start as int, i as int),
            forall|j: int| start <= j < i ==> cs@[j] != '\n',
            out@.map_values(|l: Vec<char>| l@) + lines_spec(cs@.skip(start as int)) == lines_spec(cs@),
        decreases cs.len() - i,
    {
        if cs[i] == '\n' {
            let ghost rest = cs@.skip(start as int);
            proof {
                lemma_newline_index(rest);
                assert(forall|j: int| 0 <= j < i - start ==> rest[j] == cs@[start + j]);
                assert(rest[i - start] == '\n');
                lemma_first_newline(rest, (i - start) as nat);
                assert(rest.take((i - start) as int) =~= current@);
                assert(rest.skip(i - start + 1) =~= cs@.skip(i + 1));
            }
            let mut line = Vec::new();
            std::mem::swap(&mut line, &mut current);
            if line.len() > 0 && line[line.len() - 1] == '\r' {
                line.pop();
            }
            let ghost before = out@;
            out.push(line);
            proof {
                assert(out@.map_values(|l: Vec<char>| l@) =~= before.map_values(|l: Vec<char>| l@).push(strip_cr(rest.take((i - start) as int))));
                assert(before.map_values(|l: Vec<char>| l@) + lines_spec(rest) =~= out@.map_values(|l: Vec<char>| l@) + lines_spec(cs@.skip(i + 1)));
            }
            start = i + 1;
        } else {
            current.push(cs[i]);
        }
        i += 1;
    }
    let ghost rest = cs@.skip(start as int);
    if start < cs.len() {
        proof {
            lemma_newline_index(rest);
            lemma_no_newline(rest);
            assert(rest =~= current@);
        }
        let ghost before = out@;
        out.push(current);
        proof {
            assert(out@.map_values(|l: Vec<char>| l@) =~= before.map_values(|l: Vec<char>| l@) + lines_spec(rest));
        }
    } else {
        proof {
            assert(rest.len() == 0);
            assert(out@.map_values(|l: Vec<char>| l@) =~= out@.map_values(|l: Vec<char>| l@) + lines_spec(rest));
        }
    }
    out
}

proof fn lemma_first_newline(s: Seq<char>, i: nat)
    requires
        i < s.len(),
        s[i as int] == '\n',
        forall|j: int| 0 <= j < i ==> s[j] != '\n',
    ensures
        newline_index(s) == i,
    decreases i,
{
    if i > 0 {
        assert forall|j: int| 0 <= j < i - 1 implies s.drop_first()[j] != '\n' by {
            assert(s.drop_first()[j] == s[j + 1]);
        }
        lemma_first_newline(s.drop_first(), (i - 1) as nat);
    }
}

proof fn lemma_no_newline(s: Seq<char>)
    requires
        forall|j: int| 0 <= j < s.len() ==> s[j] != '\n',
    ensures
        newline_index(s) == s.len(),
    decreases s.len(),
{
    if s.len() > 0 {
        assert forall|j: int| 0 <= j < s.len() - 1 implies s.drop_first()[j] != '\n' by {
            assert(s.drop_first()[j] == s[j + 1]);
        }
        lemma_no_newline(s.drop_first());
    }
}

/// A line without newline and without a final carriage return, followed by a
/// newline, is the first line of the text.
pub proof fn lemma_lines_cons(l: Seq<char>, rest: Seq<char>)
    requires
        forall|j: int| 0 <= j < l.len() ==> l[j] != '\n',
        l.len() == 0 || l.last() != '\r',
    ensures
        lines_spec(l + seq!['\n'] + rest) == seq![l] + lines_spec(rest),
{
    let s = l + seq!['\n'] + rest;
    assert(s[l.len() as int] == '\n');
    assert forall|j: int| 0 <= j < l.len() implies s[j] != '\n' by {
        assert(s[j] == l[j]);
    }
    lemma_first_newline(s, l.len());
    assert(s.take(l.len() as int) =~= l);
    assert(s.skip((l.len() + 1) as int) =~= rest);
}

/// No line of a text holds a newline.
pub proof fn lemma_lines_no_newline(s: Seq<char>)
    ensures
        forall|k: int, j: int|
            0 <= k < lines_spec(s).len() && 0 <= j < lines_spec(s)[k].len()
                ==> lines_spec(s)[k][j] != '\n',
    decreases s.len(),
{
    if s.len() > 0 {
        let i = newline_index(s);
        lemma_newline_index(s);
        if i < s.len() {
            let rest = s.skip((i + 1) as int);
            lemma_lines_no_newline(rest);
            let first = strip_cr(s.take(i as int));
            assert forall|k: int, j: int|
                0 <= k < lines_spec(s).len() && 0 <= j < lines_spec(s)[k].len()
                    implies lines_spec(s)[k][j] != '\n' by {
                if k == 0 {
                    assert(lines_spec(s)[0] == first);
                    assert(first[j] == s[j]);
                } else {
                    assert(lines_spec(s)[k] == lines_spec(rest)[k - 1]);
                }
            }
        }
    }
}

/// Whether `t` occurs in `s` as a contiguous part.
pub open spec fn contains_spec(s: Seq<char>, t: Seq<char>) -> bool {
    exists|i: int| 0 <= i && i + t.len() <= s.len() && #[trigger] s.subrange(i, i + t.len()) == t
}

/// `str::contains` for a string pattern.
pub fn contains(s: &str, t: &str) -> (r: bool)
    ensures
        r == contains_spec(s@, t@),
{
    let a = chars_of(s);
    let b = chars_of(t);
    if b.len() > a.len() {
        return false;
    }
    let mut i: usize = 0;
    let last = a.len() - b.len();
    while i <= last
        invariant
            a@ == s@,
            b@ == t@,
            b@.len() <= a@.len(),
            last == a@.len() - b@.len(),
            i <= last + 1,
            forall|k: int| 0 <= k < i ==> #[trigger] a@.subrange(k, k + b@.len()) != b@,
        decreases a.len() - i,
    {
        let mut j: usize = 0;
        let mut same = true;
        while j < b.len()
            invariant
                i + b@.len() <= a@.len(),
                a@.len() == a.len(),
                b@.len() == b.len(),
                j <= b@.len(),
                same == (forall|q: int| 0 <= q < j ==> a@[i + q] == b@[q]),
            decreases b.len() - j,
        {
            if a[i + j] != b[j] {
                same = false;
            }
            j += 1;
        }
        if same {
            assert(a@.subrange(i as int, i + b@.len()) =~= b@);
            return true;
        }
        assert(exists|q: int| 0 <= q < b@.len() && a@[i + q] != b@[q]);
        let ghost q = choose|q: int| 0 <= q < b@.len() && a@[i + q] != b@[q];
        assert(a@.subrange(i as int, i + b@.len())[q] != b@[q]);
        i += 1;
    }
    assert forall|k: int| 0 <= k && k + b@.len() <= a@.len() implies #[trigger] a@.subrange(k, k + b@.len()) != b@ by {
        assert(k < i);
    }
    false
}

/// `n` copies of `c`.
pub open spec fn repeat_spec(c: char, n: nat) -> Seq<char> {
    Seq::new(n, |i: int| c)
}

/// Appends `n` copies of `c`.
pub fn push_repeat(s: &mut String, c: char, n: usize)
    ensures
        final(s)@ == old(s)@ + repeat_spec(c, n as nat),
{
    let mut i: usize = 0;
    while i < n
        invariant
            i <= n,
            s@ =~= old(s)@ + repeat_spec(c, i as nat),
        decreases n - i,
    {
        push_char(s, c);
        i += 1;
    }
}

} // verus!
