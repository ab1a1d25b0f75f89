//! The source formatter: one statement per line, four spaces per block level.
use vstd::prelude::*;
use crate::text::{
    chars_of, is_space, lemma_lines_cons, lemma_lines_no_newline, lines_spec, space, split_lines,
    string_from_chars,
};

verus! {

/// The number of leading white-space characters.
pub open spec fn leading_spaces(s: Seq<char>) -> nat
    decreases s.len(),
{
    if s.len() > 0 && is_space(s[0]) {
        1 + leading_spaces(s.drop_first())
    } else {
        0
    }
}

/// The number of trailing white-space characters.
pub open spec fn trailing_spaces(s: Seq<char>) -> nat
    decreases s.len(),
{
    if s.len() > 0 && is_space(s.last()) {
        1 + trailing_spaces(s.drop_last())
    } else {
        0
    }
}

/// `str::trim`: `s` without leading and trailing white space.
pub open spec fn trim_spec(s: Seq<char>) -> Seq<char> {
    let a = leading_spaces(s);
    if a == s.len() {
        Seq::empty()
    } else {
        s.subrange(a as int, s.len() - trailing_spaces(s))
    }
}

/// The length of the longest prefix without white space.
pub open spec fn word_length(s: Seq<char>) -> nat
    decreases s.len(),
{
    if s.len() > 0 && !is_space(s[0]) {
        1 + word_length(s.drop_first())
    } else {
        0
    }
}

/// The first word of a trimmed line.
pub open spec fn first_word(t: Seq<char>) -> Seq<char> {
    t.take(word_length(t) as int)
}

/// A line whose first word closes a block.
pub open spec fn closes(w: Seq<char>) -> bool {
    w == "end"@ || w == "otherwise"@
}

/// A line whose first word opens a block.
pub open spec fn opens(w: Seq<char>) -> bool {
    w == "begin"@ || w == "function"@ || w == "if"@ || w == "otherwise"@ || w == "repeat"@
}

pub open spec fn indentation(level: nat) -> Seq<char> {
    Seq::new(4 * level, |i: int| ' ')
}

/// One line of formatting: the lines so far and the indentation level,
/// after `line`. A blank line is kept only after a line that is not blank.
pub open spec fn format_step(state: (Seq<Seq<char>>, nat), line: Seq<char>) -> (Seq<Seq<char>>, nat) {
    let (out, level) = state;
    let t = trim_spec(line);
    if t.len() == 0 {
        if out.len() > 0 && out.last().len() > 0 {
            (out.push(Seq::empty()), level)
        } else {
            (out, level)
        }
    } else {
        let w = first_word(t);
        let l1 = if closes(w) {
            if level > 0 { (level - 1) as nat } else { 0 }
        } else {
            level
        };
        (out.push(indentation(l1) + t), if opens(w) { l1 + 1 } else { l1 })
    }
}

/// Formatting a sequence of lines.
pub open spec fn format_lines(ls: Seq<Seq<char>>) -> (Seq<Seq<char>>, nat)
    decreases ls.len(),
{
    if ls.len() == 0 {
        (Seq::empty(), 0)
    } else {
        format_step(format_lines(ls.drop_last()), ls.last())
    }
}

/// Lines joined by newlines.
pub open spec fn join_lines(ls: Seq<Seq<char>>) -> Seq<char>
    decreases ls.len(),
{
    if ls.len() == 0 {
        Seq::empty()
    } else if ls.len() == 1 {
        ls[0]
    } else {
        join_lines(ls.drop_last()) + seq!['\n'] + ls.last()
    }
}

/// The formatted text: each line trimmed and indented four spaces per open
/// block (`begin`, `function`, `if`, `otherwise`, `repeat` open one; `end`
/// and `otherwise` close one), runs of blank lines reduced to one, leading
/// blank lines dropped, and a final newline.
pub open spec fn format_spec(source: Seq<char>) -> Seq<char> {
    join_lines(format_lines(lines_spec(source)).0) + seq!['\n']
}


proof fn lemma_leading(s: Seq<char>, k: nat)
    requires
        k <= s.len(),
        forall|j: int| 0 <= j < k ==> is_space(s[j]),
        k == s.len() || !is_space(s[k as int]),
    ensures
        leading_spaces(s) == k,
    decreases k,
{
    if k > 0 {
        assert forall|j: int| 0 <= j < k - 1 implies is_space(s.drop_first()[j]) by {
            assert(s.drop_first()[j] == s[j + 1]);
        }
        if k < s.len() {
            assert(s.drop_first()[k - 1] == s[k as int]);
        }
        lemma_leading(s.drop_first(), (k - 1) as nat);
    }
}

proof fn lemma_trailing(s: Seq<char>, k: nat)
    requires
        k <= s.len(),
        forall|j: int| s.len() - k <= j < s.len() ==> is_space(s[j]),
        k == s.len() || !is_space(s[s.len() - k - 1]),
    ensures
        trailing_spaces(s) == k,
    decreases k,
{
    if k > 0 {
        assert forall|j: int| s.drop_last().len() - (k - 1) <= j < s.drop_last().len() implies is_space(s.drop_last()[j]) by {
            assert(s.drop_last()[j] == s[j]);
        }
        if k < s.len() {
            assert(s.drop_last()[s.drop_last().len() - (k - 1) - 1] == s[s.len() - k - 1]);
        }
        lemma_trailing(s.drop_last(), (k - 1) as nat);
    }
}

proof fn lemma_word(s: Seq<char>, k: nat)
    requires
        k <= s.len(),
        forall|j: int| 0 <= j < k ==> !is_space(s[j]),
        k == s.len() || is_space(s[k as int]),
    ensures
        word_length(s) == k,
    decreases k,
{
    if k > 0 {
        assert forall|j: int| 0 <= j < k - 1 implies !is_space(s.drop_first()[j]) by {
            assert(s.drop_first()[j] == s[j + 1]);
        }
        if k < s.len() {
            assert(s.drop_first()[k - 1] == s[k as int]);
        }
        lemma_word(s.drop_first(), (k - 1) as nat);
    }
}

proof fn lemma_leading_props(s: Seq<char>)
    ensures
        leading_spaces(s) <= s.len(),
        forall|j: int| 0 <= j < leading_spaces(s) ==> is_space(s[j]),
        leading_spaces(s) < s.len() ==> !is_space(s[leading_spaces(s) as int]),
    decreases s.len(),
{
    if s.len() > 0 && is_space(s[0]) {
        lemma_leading_props(s.drop_first());
        assert forall|j: int| 0 <= j < leading_spaces(s) implies is_space(s[j]) by {
            if j > 0 {
                assert(s[j] == s.drop_first()[j - 1]);
            }
        }
        if leading_spaces(s) < s.len() {
            assert(s[leading_spaces(s) as int] == s.drop_first()[leading_spaces(s.drop_first()) as int]);
        }
    }
}

proof fn lemma_trailing_props(s: Seq<char>)
    ensures
        trailing_spaces(s) <= s.len(),
        forall|j: int| s.len() - trailing_spaces(s) <= j < s.len() ==> is_space(s[j]),
        trailing_spaces(s) < s.len() ==> !is_space(s[s.len() - trailing_spaces(s) - 1]),
    decreases s.len(),
{
    if s.len() > 0 && is_space(s.last()) {
        lemma_trailing_props(s.drop_last());
        assert forall|j: int| s.len() - trailing_spaces(s) <= j < s.len() implies is_space(s[j]) by {
            if j < s.len() - 1 {
                assert(s[j] == s.drop_last()[j]);
            }
        }
        if trailing_spaces(s) < s.len() {
            assert(s[s.len() - trailing_spaces(s) - 1] == s.drop_last()[s.drop_last().len() - trailing_spaces(s.drop_last()) - 1]);
        }
    }
}

/// A trimmed line that is not empty starts and ends with a character that
/// is not white space.
proof fn lemma_trim_ends(x: Seq<char>)
    requires
        trim_spec(x).len() > 0,
    ensures
        !is_space(trim_spec(x)[0]),
        !is_space(trim_spec(x).last()),
        forall|j: int| 0 <= j < trim_spec(x).len() ==> trim_spec(x)[j] == x[leading_spaces(x) + j],
        leading_spaces(x) + trim_spec(x).len() <= x.len(),
{
    lemma_leading_props(x);
    lemma_trailing_props(x);
    let a = leading_spaces(x);
    let b = trailing_spaces(x);
    assert(a < x.len());
    assert(trim_spec(x)[0] == x[a as int]);
    assert(b < x.len());
    assert(trim_spec(x).last() == x[x.len() - b - 1]);
}

/// Indenting a trimmed line and trimming it again gives the trimmed line.
proof fn lemma_trim_indented(x: Seq<char>, n: nat)
    requires
        trim_spec(x).len() > 0,
    ensures
        trim_spec(indentation(n) + trim_spec(x)) == trim_spec(x),
{
    let t = trim_spec(x);
    lemma_trim_ends(x);
    let y = indentation(n) + t;
    assert forall|j: int| 0 <= j < 4 * n implies is_space(y[j]) by {
        assert(y[j] == ' ');
    }
    assert(y[(4 * n) as int] == t[0]);
    lemma_leading(y, 4 * n);
    assert(y.last() == t.last());
    assert(trailing_spaces(y) == 0);
    assert(y.subrange((4 * n) as int, y.len() as int) =~= t);
}

/// Formatting formatted lines again changes nothing, neither the lines nor
/// the final indentation level.
proof fn lemma_format_lines_stable(ls: Seq<Seq<char>>)
    ensures
        format_lines(format_lines(ls).0) == format_lines(ls),
    decreases ls.len(),
{
    if ls.len() > 0 {
        let prev = ls.drop_last();
        lemma_format_lines_stable(prev);
        let (o, lvl) = format_lines(prev);
        let x = ls.last();
        let t = trim_spec(x);
        let (o2, l2) = format_lines(ls);
        if t.len() == 0 {
            if o.len() > 0 && o.last().len() > 0 {
                assert(o2.drop_last() =~= o);
                assert(trim_spec(o2.last()) =~= Seq::<char>::empty());
            } else {
                assert(o2 == o);
            }
        } else {
            let w = first_word(t);
            let l1 = if closes(w) {
                if lvl > 0 { (lvl - 1) as nat } else { 0 }
            } else {
                lvl
            };
            lemma_trim_indented(x, l1);
            assert(o2.drop_last() =~= o);
            assert(o2.last() == indentation(l1) + t);
        }
    }
}

/// Every formatted line is free of newlines and is empty or ends with a
/// character that is not white space.
proof fn lemma_format_lines_clean(ls: Seq<Seq<char>>)
    requires
        forall|k: int, j: int| 0 <= k < ls.len() && 0 <= j < ls[k].len() ==> ls[k][j] != '\n',
    ensures
        forall|k: int, j: int|
            0 <= k < format_lines(ls).0.len() && 0 <= j < format_lines(ls).0[k].len()
                ==> format_lines(ls).0[k][j] != '\n',
        forall|k: int|
            0 <= k < format_lines(ls).0.len() && format_lines(ls).0[k].len() > 0
                ==> !is_space(format_lines(ls).0[k].last()),
    decreases ls.len(),
{
    if ls.len() > 0 {
        let prev = ls.drop_last();
        lemma_format_lines_clean(prev);
        let (o, lvl) = format_lines(prev);
        let x = ls.last();
        let t = trim_spec(x);
        let o2 = format_lines(ls).0;
        if t.len() > 0 {
            let w = first_word(t);
            let l1 = if closes(w) {
                if lvl > 0 { (lvl - 1) as nat } else { 0 }
            } else {
                lvl
            };
            lemma_trim_ends(x);
            lemma_leading_props(x);
            let line = indentation(l1) + t;
            assert(o2 == o.push(line));
            assert forall|j: int| 0 <= j < line.len() implies line[j] != '\n' by {
                if j < 4 * l1 {
                    assert(line[j] == ' ');
                } else {
                    assert(line[j] == t[j - 4 * l1]);
                    assert(ls[ls.len() - 1] == x);
                    assert(t[j - 4 * l1] == x[leading_spaces(x) + (j - 4 * l1)]);
                }
            }
            assert(line.last() == t.last());
        }
    }
}

/// The lines joined, read from the front.
proof fn lemma_join_front(ls: Seq<Seq<char>>)
    requires
        ls.len() >= 2,
    ensures
        join_lines(ls) == ls[0] + seq!['\n'] + join_lines(ls.drop_first()),
    decreases ls.len(),
{
    if ls.len() == 2 {
        assert(ls.drop_first().len() == 1);
        assert(join_lines(ls.drop_last()) == ls[0]);
    } else {
        lemma_join_front(ls.drop_last());
        assert(ls.drop_last().drop_first() =~= ls.drop_first().drop_last());
        assert(ls.drop_first().last() == ls.last());
    }
}

/// Splitting joined lines, with a final newline, gives the lines back.
proof fn lemma_split_join(ls: Seq<Seq<char>>)
    requires
        ls.len() > 0,
        forall|k: int, j: int| 0 <= k < ls.len() && 0 <= j < ls[k].len() ==> ls[k][j] != '\n',
        forall|k: int| 0 <= k < ls.len() && ls[k].len() > 0 ==> ls[k].last() != '\r',
    ensures
        lines_spec(join_lines(ls) + seq!['\n']) == ls,
    decreases ls.len(),
{
    let l = ls[0];
    assert(forall|j: int| 0 <= j < l.len() ==> l[j] != '\n');
    if ls.len() == 1 {
        lemma_lines_cons(l, Seq::empty());
        assert(l + seq!['\n'] + Seq::<char>::empty() =~= join_lines(ls) + seq!['\n']);
        assert(seq![l] + lines_spec(Seq::<char>::empty()) =~= ls);
    } else {
        let rest = ls.drop_first();
        lemma_join_front(ls);
        lemma_split_join(rest);
        lemma_lines_cons(l, join_lines(rest) + seq!['\n']);
        assert(join_lines(ls) + seq!['\n'] =~= l + seq!['\n'] + (join_lines(rest) + seq!['\n']));
        assert(seq![l] + rest =~= ls);
    }
}

/// Formatting is idempotent: formatting formatted text gives it back.
pub proof fn lemma_format_idempotent(source: Seq<char>)
    ensures
        format_spec(format_spec(source)) == format_spec(source),
{
    let ls = lines_spec(source);
    lemma_lines_no_newline(source);
    lemma_format_lines_clean(ls);
    lemma_format_lines_stable(ls);
    let o = format_lines(ls).0;
    let f = format_spec(source);
    if o.len() == 0 {
        assert(f =~= seq!['\n']);
        lemma_lines_cons(Seq::empty(), Seq::empty());
        assert(Seq::<char>::empty() + seq!['\n'] + Seq::<char>::empty() =~= seq!['\n']);
        let e = Seq::<char>::empty();
        assert(lines_spec(f) =~= seq![e]);
        assert(seq![e].drop_last() =~= Seq::<Seq<char>>::empty());
        assert(trim_spec(e) =~= e);
    } else {
        assert forall|k: int| 0 <= k < o.len() && o[k].len() > 0 implies o[k].last() != '\r' by {
            assert(is_space('\r'));
        }
        lemma_split_join(o);
    }
}

/// `str::trim` on characters.
pub fn trim(line: &Vec<char>) -> (r: Vec<char>)
    ensures
        r@ == trim_spec(line@),
{
    let n = line.len();
    let mut a: usize = 0;
    while a < n && space(line[a])
        invariant
            a <= n,
            n == line@.len(),
            forall|j: int| 0 <= j < a ==> is_space(line@[j]),
        decreases n - a,
    {
        a += 1;
    }
    proof {
        lemma_leading(line@, a as nat);
    }
    if a == n {
        return Vec::new();
    }
    let mut b: usize = 0;
    while b < n - a && space(line[n - 1 - b])
        invariant
            a < n,
            b <= n - a,
            n == line@.len(),
            forall|j: int| n - b <= j < n ==> is_space(line@[j]),
        decreases n - a - b,
    {
        b += 1;
    }
    proof {
        if b == n - a {
            assert(!is_space(line@[a as int]));
            assert(false);
        }
        lemma_trailing(line@, b as nat);
    }
    let mut out: Vec<char> = Vec::new();
    let mut i = a;
    while i < n - b
        invariant
            a <= i <= n - b,
            n == line@.len(),
            out@ =~= line@.subrange(a as int, i as int),
        decreases n - b - i,
    {
        out.push(line[i]);
        i += 1;
    }
    out
}

/// The length of the first word.
fn word_len(t: &Vec<char>) -> (r: usize)
    ensures
        r == word_length(t@),
        r <= t@.len(),
{
    let mut k: usize = 0;
    while k < t.len() && !space(t[k])
        invariant
            k <= t@.len(),
            forall|j: int| 0 <= j < k ==> !is_space(t@[j]),
        decreases t@.len() - k,
    {
        k += 1;
    }
    proof {
        lemma_word(t@, k as nat);
    }
    k
}

/// Whether the first `k` characters of `t` spell `w`.
fn prefix_is(t: &Vec<char>, k: usize, w: &str) -> (r: bool)
    requires
        k <= t@.len(),
    ensures
        r == (t@.take(k as int) == w@),
{
    let ws = chars_of(w);
    if ws.len() != k {
        return false;
    }
    let mut i: usize = 0;
    while i < k
        invariant
            i <= k,
            k <= t@.len(),
            ws@ == w@,
            ws@.len() == k,
            forall|j: int| 0 <= j < i ==> t@[j] == ws@[j],
        decreases k - i,
    {
        if t[i] != ws[i] {
            assert(t@.take(k as int)[i as int] != w@[i as int]);
            return false;
        }
        i += 1;
    }
    assert(t@.take(k as int) =~= w@);
    true
}

/// Formats VelaRi source text.
pub fn format_source(source: &str) -> (r: String)
    ensures
        r@ == format_spec(source@),
{
    let cs = chars_of(source);
    let lines = split_lines(cs.as_slice());
    let ghost ls = lines@.map_values(|l: Vec<char>| l@);
    let mut indent: usize = 0;
    let mut output: Vec<Vec<char>> = Vec::new();
    let mut i: usize = 0;
    while i < lines.len()
        invariant
            i <= lines@.len(),
            ls == lines@.map_values(|l: Vec<char>| l@),
            ls == lines_spec(source@),
            indent <= i,
            output@.map_values(|l: Vec<char>| l@) == format_lines(ls.take(i as int)).0,
            indent == format_lines(ls.take(i as int)).1,
        decreases lines.len() - i,
    {
        proof {
            assert(ls.take(i + 1).drop_last() =~= ls.take(i as int));
            assert(ls.take(i + 1).last() == lines@[i as int]@);
        }
        let ghost before = output@;
        let t = trim(&lines[i]);
        if t.len() == 0 {
            if output.len() > 0 && output[output.len() - 1].len() > 0 {
                output.push(Vec::new());
                proof {
                    assert(output@.map_values(|l: Vec<char>| l@) =~= before.map_values(|l: Vec<char>| l@).push(Seq::empty()));
                }
            }
        } else {
            let k = word_len(&t);
            if prefix_is(&t, k, "end") || prefix_is(&t, k, "otherwise") {
                if indent > 0 {
                    indent -= 1;
                }
            }
            let mut line: Vec<char> = Vec::new();
            let mut j: usize = 0;
            while j < indent
                invariant
                    j <= indent,
                    line@ =~= Seq::new(4 * j as nat, |q: int| ' '),
                decreases indent - j,
            {
                line.push(' ');
                line.push(' ');
                line.push(' ');
                line.push(' ');
                j += 1;
            }
            let mut q: usize = 0;
            while q < t.len()
                invariant
                    q <= t@.len(),
                    line@ =~= indentation(indent as nat) + t@.take(q as int),
                decreases t@.len() - q,
            {
                line.push(t[q]);
                q += 1;
            }
            proof {
                assert(t@.take(t@.len() as int) =~= t@);
            }
            output.push(line);
            proof {
                assert(output@.map_values(|l: Vec<char>| l@) =~= before.map_values(|l: Vec<char>| l@).push(indentation(indent as nat) + t@));
            }
            if prefix_is(&t, k, "begin") || prefix_is(&t, k, "function") || prefix_is(&t, k, "if")
                || prefix_is(&t, k, "otherwise") || prefix_is(&t, k, "repeat") {
                indent += 1;
            }
        }
        i += 1;
    }
    proof {
        assert(ls.take(lines@.len() as int) =~= ls);
    }
    let mut joined: Vec<char> = Vec::new();
    let ghost om = output@.map_values(|l: Vec<char>| l@);
    let mut k: usize = 0;
    while k < output.len()
        invariant
            k <= output@.len(),
            om == output@.map_values(|l: Vec<char>| l@),
            joined@ == join_lines(om.take(k as int)),
        decreases output@.len() - k,
    {
        let ghost prev = joined@;
        if k > 0 {
            joined.push('\n');
        }
        let mut q: usize = 0;
        while q < output[k].len()
            invariant
                k < output@.len(),
                q <= output@[k as int]@.len(),
                joined@ =~= (if k > 0 { prev + seq!['\n'] } else { prev }) + output@[k as int]@.take(q as int),
            decreases output@[k as int]@.len() - q,
        {
            joined.push(output[k][q]);
            q += 1;
        }
        proof {
            assert(output@[k as int]@.take(output@[k as int]@.len() as int) =~= output@[k as int]@);
            assert(om.take(k + 1).drop_last() =~= om.take(k as int));
            assert(om.take(k + 1).last() == output@[k as int]@);
            if k == 0 {
                assert(prev =~= Seq::<char>::empty());
                assert(joined@ =~= om.take(1)[0]);
            }
        }
        k += 1;
    }
    proof {
        assert(om.take(output@.len() as int) =~= om);
    }
    joined.push('\n');
    string_from_chars(joined.as_slice())
}

} // verus!
