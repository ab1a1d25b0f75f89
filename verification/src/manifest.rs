//! The project manifest, `vela.toml`: a `[package]` section with `name`,
//! `version` and `entry`, and an optional `[desktop]` section with `backend`.
use vstd::prelude::*;
use crate::format::{trim, trim_spec};
use crate::text::{
    chars_are, chars_equal, chars_of, decimal, lines_spec, push_chars, push_str, split_lines,
    string_from_chars, string_of, usize_to_string,
};

verus! {

/// What the manifest has stated after some of its lines.
pub struct ManifestModel {
    pub name: Seq<char>,
    pub entry: Option<Seq<char>>,
    pub desktop: bool,
    pub package_seen: bool,
    /// The fields given so far, each as `section.key`.
    pub seen: Seq<Seq<char>>,
    pub section: Seq<char>,
}

/// Before the first line: the default name, no entry, section `package`.
pub open spec fn initial_model() -> ManifestModel {
    ManifestModel {
        name: "velari-app"@,
        entry: None,
        desktop: false,
        package_seen: false,
        seen: Seq::empty(),
        section: "package"@,
    }
}

/// The number of leading `"` characters.
pub open spec fn leading_quotes(s: Seq<char>) -> nat
    decreases s.len(),
{
    if s.len() > 0 && s[0] == '"' {
        1 + leading_quotes(s.drop_first())
    } else {
        0
    }
}

/// The number of trailing `"` characters.
pub open spec fn trailing_quotes(s: Seq<char>) -> nat
    decreases s.len(),
{
    if s.len() > 0 && s.last() == '"' {
        1 + trailing_quotes(s.drop_last())
    } else {
        0
    }
}

/// `str::trim_matches('"')`: `s` without leading and trailing quotes.
pub open spec fn unquote_spec(s: Seq<char>) -> Seq<char> {
    let a = leading_quotes(s);
    if a == s.len() {
        Seq::empty()
    } else {
        s.subrange(a as int, s.len() - trailing_quotes(s))
    }
}

/// The position of the first `=`, or the length when there is none.
pub open spec fn equals_index(s: Seq<char>) -> nat
    decreases s.len(),
{
    if s.len() == 0 || s[0] == '=' {
        0
    } else {
        1 + equals_index(s.drop_first())
    }
}

/// An ASCII letter or digit, `-` or `_`.
pub open spec fn name_char(c: char) -> bool {
    ('a' <= c && c <= 'z') || ('A' <= c && c <= 'Z') || ('0' <= c && c <= '9') || c == '-' || c
        == '_'
}

pub open spec fn valid_name(v: Seq<char>) -> bool {
    forall|i: int| 0 <= i < v.len() ==> name_char(v[i])
}

/// The desktop backends a manifest may name.
pub open spec fn backend_name(v: Seq<char>) -> bool {
    v == "auto"@ || v == "windows"@ || v == "linux"@ || v == "macos"@
}

pub open spec fn on_line(n: nat) -> Seq<char> {
    " on line "@ + decimal(n)
}

/// A `key = value` line, number `n`, whose field was not given before.
pub open spec fn field_step(n: nat, key: Seq<char>, value: Seq<char>, st: ManifestModel) -> Result<
    ManifestModel,
    Seq<char>,
> {
    if key == "name"@ {
        if value.len() == 0 {
            Err("package name cannot be empty"@)
        } else if st.section != "package"@ {
            Err("`name` is only valid in [package]"@ + on_line(n))
        } else if !valid_name(value) {
            Err("package name contains invalid characters"@ + on_line(n))
        } else {
            Ok(ManifestModel { name: value, ..st })
        }
    } else if key == "version"@ {
        if st.section != "package"@ {
            Err("`version` is only valid in [package]"@ + on_line(n))
        } else if value.len() == 0 {
            Err("package version cannot be empty"@)
        } else {
            Ok(st)
        }
    } else if key == "entry"@ {
        if st.section != "package"@ {
            Err("`entry` is only valid in [package]"@ + on_line(n))
        } else if value.len() == 0 {
            Err("entry cannot be empty"@)
        } else {
            Ok(ManifestModel { entry: Some(value), ..st })
        }
    } else if key == "backend"@ {
        if st.section != "desktop"@ || !backend_name(value) {
            Err("unsupported desktop backend `"@ + value + "`"@ + on_line(n))
        } else {
            Ok(st)
        }
    } else {
        Err("unsupported manifest field `"@ + key + "`"@ + on_line(n))
    }
}

/// Line number `n` (counted from 1): blank lines and comments are skipped,
/// `[section]` switches the section, `key = value` sets a field once.
pub open spec fn line_step(n: nat, raw: Seq<char>, st: ManifestModel) -> Result<
    ManifestModel,
    Seq<char>,
> {
    let line = trim_spec(raw);
    if line.len() == 0 || line[0] == '#' {
        Ok(st)
    } else if line[0] == '[' && line.last() == ']' {
        let sec = line.subrange(1, line.len() - 1);
        if sec != "package"@ && sec != "desktop"@ {
            Err("unsupported manifest section `"@ + sec + "`"@)
        } else {
            Ok(
                ManifestModel {
                    section: sec,
                    desktop: st.desktop || sec == "desktop"@,
                    package_seen: st.package_seen || sec == "package"@,
                    ..st
                },
            )
        }
    } else {
        let i = equals_index(line);
        if i == line.len() {
            Err("invalid vela.toml line "@ + decimal(n))
        } else {
            let key = trim_spec(line.take(i as int));
            let value = unquote_spec(trim_spec(line.skip((i + 1) as int)));
            let id = st.section + "."@ + key;
            if st.seen.contains(id) {
                Err("duplicate manifest field `"@ + key + "`"@ + on_line(n))
            } else {
                field_step(n, key, value, ManifestModel { seen: st.seen.push(id), ..st })
            }
        }
    }
}

/// The manifest after its first `k` lines, or the first error.
pub open spec fn manifest_after(ls: Seq<Seq<char>>, k: nat) -> Result<ManifestModel, Seq<char>>
    decreases k,
{
    if k == 0 {
        Ok(initial_model())
    } else {
        match manifest_after(ls, (k - 1) as nat) {
            Err(e) => Err(e),
            Ok(st) => line_step(k, ls[k - 1], st),
        }
    }
}

/// The name, the entry file (`src/main.vr` when none is given) and whether
/// the manifest has a `[desktop]` section, wherever it stands; or the message
/// of the first error.
pub open spec fn manifest_spec(text: Seq<char>) -> Result<(Seq<char>, Seq<char>, bool), Seq<char>> {
    let ls = lines_spec(text);
    match manifest_after(ls, ls.len()) {
        Err(e) => Err(e),
        Ok(st) => if !st.package_seen {
            Err("manifest must contain a [package] section"@)
        } else {
            Ok(
                (
                    st.name,
                    match st.entry {
                        Some(e) => e,
                        None => "src/main.vr"@,
                    },
                    st.desktop,
                ),
            )
        },
    }
}

/// A validated manifest.
pub struct ManifestData {
    pub name: String,
    /// The entry file, relative to the manifest's directory.
    pub entry: String,
    pub desktop: bool,
}

struct Fields {
    name: Vec<char>,
    entry: Option<Vec<char>>,
    desktop: bool,
    package_seen: bool,
    seen: Vec<Vec<char>>,
    section: Vec<char>,
}

impl Fields {
    spec fn model(&self) -> ManifestModel {
        ManifestModel {
            name: self.name@,
            entry: match self.entry {
                Some(e) => Some(e@),
                None => None,
            },
            desktop: self.desktop,
            package_seen: self.package_seen,
            seen: self.seen@.map_values(|v: Vec<char>| v@),
            section: self.section@,
        }
    }
}


proof fn lemma_leading_quotes(s: Seq<char>, k: nat)
    requires
        k <= s.len(),
        forall|j: int| 0 <= j < k ==> s[j] == '"',
        k == s.len() || s[k as int] != '"',
    ensures
        leading_quotes(s) == k,
    decreases k,
{
    if k > 0 {
        assert forall|j: int| 0 <= j < k - 1 implies s.drop_first()[j] == '"' by {
            assert(s.drop_first()[j] == s[j + 1]);
        }
        if k < s.len() {
            assert(s.drop_first()[k - 1] == s[k as int]);
        }
        lemma_leading_quotes(s.drop_first(), (k - 1) as nat);
    }
}

proof fn lemma_trailing_quotes(s: Seq<char>, k: nat)
    requires
        k <= s.len(),
        forall|j: int| s.len() - k <= j < s.len() ==> s[j] == '"',
        k == s.len() || s[s.len() - k - 1] != '"',
    ensures
        trailing_quotes(s) == k,
    decreases k,
{
    if k > 0 {
        assert forall|j: int| s.drop_last().len() - (k - 1) <= j < s.drop_last().len() implies s.drop_last()[j] == '"' by {
            assert(s.drop_last()[j] == s[j]);
        }
        if k < s.len() {
            assert(s.drop_last()[s.drop_last().len() - (k - 1) - 1] == s[s.len() - k - 1]);
        }
        lemma_trailing_quotes(s.drop_last(), (k - 1) as nat);
    }
}

proof fn lemma_equals_index(s: Seq<char>, k: nat)
    requires
        k <= s.len(),
        forall|j: int| 0 <= j < k ==> s[j] != '=',
        k == s.len() || s[k as int] == '=',
    ensures
        equals_index(s) == k,
    decreases k,
{
    if k > 0 {
        assert forall|j: int| 0 <= j < k - 1 implies s.drop_first()[j] != '=' by {
            assert(s.drop_first()[j] == s[j + 1]);
        }
        if k < s.len() {
            assert(s.drop_first()[k - 1] == s[k as int]);
        }
        lemma_equals_index(s.drop_first(), (k - 1) as nat);
    }
}

/// The characters of `v` from `a` up to `b`.
fn sub_chars(v: &Vec<char>, a: usize, b: usize) -> (r: Vec<char>)
    requires
        a <= b <= v@.len(),
    ensures
        r@ == v@.subrange(a as int, b as int),
{
    let mut out: Vec<char> = Vec::new();
    let mut i = a;
    while i < b
        invariant
            a <= i <= b,
            b <= v@.len(),
            out@ =~= v@.subrange(a as int, i as int),
        decreases b - i,
    {
        out.push(v[i]);
        i += 1;
    }
    out
}

/// `trim_matches('"')` on characters.
fn unquote(v: &Vec<char>) -> (r: Vec<char>)
    ensures
        r@ == unquote_spec(v@),
{
    let n = v.len();
    let mut a: usize = 0;
    while a < n && v[a] == '"'
        invariant
            a <= n,
            n == v@.len(),
            forall|j: int| 0 <= j < a ==> v@[j] == '"',
        decreases n - a,
    {
        a += 1;
    }
    proof {
        lemma_leading_quotes(v@, a as nat);
    }
    if a == n {
        return Vec::new();
    }
    let mut b: usize = 0;
    while b < n - a && v[n - 1 - b] == '"'
        invariant
            a < n,
            b <= n - a,
            n == v@.len(),
            forall|j: int| n - b <= j < n ==> v@[j] == '"',
        decreases n - a - b,
    {
        b += 1;
    }
    proof {
        if b == n - a {
            assert(v@[a as int] != '"');
            assert(false);
        }
        lemma_trailing_quotes(v@, b as nat);
    }
    sub_chars(v, a, n - b)
}

/// The position of the first `=`.
fn equals_pos(v: &Vec<char>) -> (r: usize)
    ensures
        r == equals_index(v@),
        r <= v@.len(),
{
    let mut k: usize = 0;
    while k < v.len() && v[k] != '='
        invariant
            k <= v@.len(),
            forall|j: int| 0 <= j < k ==> v@[j] != '=',
        decreases v@.len() - k,
    {
        k += 1;
    }
    proof {
        lemma_equals_index(v@, k as nat);
    }
    k
}

fn name_ok(v: &Vec<char>) -> (r: bool)
    ensures
        r == valid_name(v@),
{
    let mut i: usize = 0;
    while i < v.len()
        invariant
            i <= v@.len(),
            forall|j: int| 0 <= j < i ==> name_char(v@[j]),
        decreases v@.len() - i,
    {
        let c = v[i];
        if !(('a' <= c && c <= 'z') || ('A' <= c && c <= 'Z') || ('0' <= c && c <= '9') || c == '-'
            || c == '_') {
            return false;
        }
        i += 1;
    }
    true
}

fn backend_ok(v: &Vec<char>) -> (r: bool)
    ensures
        r == backend_name(v@),
{
    chars_are(v.as_slice(), "auto") || chars_are(v.as_slice(), "windows") || chars_are(
        v.as_slice(),
        "linux",
    ) || chars_are(v.as_slice(), "macos")
}

/// `head`, then " on line " and the line number.
fn message_on_line(head: &str, n: usize) -> (r: String)
    ensures
        r@ == head@ + on_line(n as nat),
{
    let mut s = string_of(head);
    push_str(&mut s, " on line ");
    let d = usize_to_string(n);
    push_str(&mut s, d.as_str());
    proof {
        assert(s@ =~= head@ + on_line(n as nat));
    }
    s
}

/// `head`, the item, a backquote, then " on line " and the line number.
fn quoted_on_line(head: &str, item: &Vec<char>, n: usize) -> (r: String)
    ensures
        r@ == head@ + item@ + "`"@ + on_line(n as nat),
{
    let mut s = string_of(head);
    push_chars(&mut s, item.as_slice());
    push_str(&mut s, "`");
    push_str(&mut s, " on line ");
    let d = usize_to_string(n);
    push_str(&mut s, d.as_str());
    proof {
        assert(s@ =~= head@ + item@ + "`"@ + on_line(n as nat));
    }
    s
}

fn seen_contains(seen: &Vec<Vec<char>>, id: &Vec<char>) -> (r: bool)
    ensures
        r == seen@.map_values(|v: Vec<char>| v@).contains(id@),
{
    let ghost m = seen@.map_values(|v: Vec<char>| v@);
    let mut i: usize = 0;
    while i < seen.len()
        invariant
            i <= seen@.len(),
            m == seen@.map_values(|v: Vec<char>| v@),
            forall|j: int| 0 <= j < i ==> m[j] != id@,
        decreases seen@.len() - i,
    {
        if chars_equal(seen[i].as_slice(), id.as_slice()) {
            assert(m[i as int] == id@);
            return true;
        }
        i += 1;
    }
    false
}

/// A field line whose field was not given before.
fn field(n: usize, key: Vec<char>, value: Vec<char>, st: Fields) -> (r: Result<Fields, String>)
    ensures
        match r {
            Ok(f) => field_step(n as nat, key@, value@, st.model()) == Ok::<ManifestModel, Seq<char>>(f.model()),
            Err(e) => field_step(n as nat, key@, value@, st.model()) == Err::<ManifestModel, Seq<char>>(e@),
        },
{
    let in_package = chars_are(st.section.as_slice(), "package");
    if chars_are(key.as_slice(), "name") {
        if value.len() == 0 {
            Err(string_of("package name cannot be empty"))
        } else if !in_package {
            Err(message_on_line("`name` is only valid in [package]", n))
        } else if !name_ok(&value) {
            Err(message_on_line("package name contains invalid characters", n))
        } else {
            let f = Fields { name: value, ..st };
            proof {
                assert(f.model() == ManifestModel { name: value@, ..st.model() });
            }
            Ok(f)
        }
    } else if chars_are(key.as_slice(), "version") {
        if !in_package {
            Err(message_on_line("`version` is only valid in [package]", n))
        } else if value.len() == 0 {
            Err(string_of("package version cannot be empty"))
        } else {
            Ok(st)
        }
    } else if chars_are(key.as_slice(), "entry") {
        if !in_package {
            Err(message_on_line("`entry` is only valid in [package]", n))
        } else if value.len() == 0 {
            Err(string_of("entry cannot be empty"))
        } else {
            let ghost v = value@;
            let f = Fields { entry: Some(value), ..st };
            proof {
                assert(f.model() == ManifestModel { entry: Some(v), ..st.model() });
            }
            Ok(f)
        }
    } else if chars_are(key.as_slice(), "backend") {
        if !chars_are(st.section.as_slice(), "desktop") || !backend_ok(&value) {
            Err(quoted_on_line("unsupported desktop backend `", &value, n))
        } else {
            Ok(st)
        }
    } else {
        Err(quoted_on_line("unsupported manifest field `", &key, n))
    }
}

/// One line of the manifest, number `n` counted from 1.
fn line(n: usize, raw: &Vec<char>, st: Fields) -> (r: Result<Fields, String>)
    ensures
        match r {
            Ok(f) => line_step(n as nat, raw@, st.model()) == Ok::<ManifestModel, Seq<char>>(f.model()),
            Err(e) => line_step(n as nat, raw@, st.model()) == Err::<ManifestModel, Seq<char>>(e@),
        },
{
    let t = trim(raw);
    let len = t.len();
    if len == 0 || t[0] == '#' {
        return Ok(st);
    }
    if t[0] == '[' && t[len - 1] == ']' {
        let sec = sub_chars(&t, 1, len - 1);
        let is_package = chars_are(sec.as_slice(), "package");
        let is_desktop = chars_are(sec.as_slice(), "desktop");
        if !is_package && !is_desktop {
            let mut m = string_of("unsupported manifest section `");
            push_chars(&mut m, sec.as_slice());
            push_str(&mut m, "`");
            return Err(m);
        }
        let ghost sv = sec@;
        let seen_before = st.package_seen;
        let desktop_before = st.desktop;
        let f = Fields {
            section: sec,
            desktop: desktop_before || is_desktop,
            package_seen: seen_before || is_package,
            ..st
        };
        proof {
            assert(f.model() == ManifestModel {
                section: sv,
                desktop: st.model().desktop || sv == "desktop"@,
                package_seen: st.model().package_seen || sv == "package"@,
                ..st.model()
            });
        }
        return Ok(f);
    }
    let i = equals_pos(&t);
    if i == len {
        let mut m = string_of("invalid vela.toml line ");
        let d = usize_to_string(n);
        push_str(&mut m, d.as_str());
        return Err(m);
    }
    let key = trim(&sub_chars(&t, 0, i));
    let value = unquote(&trim(&sub_chars(&t, i + 1, len)));
    proof {
        assert(t@.subrange(0, i as int) =~= t@.take(i as int));
        assert(t@.subrange(i + 1, len as int) =~= t@.skip(i + 1));
    }
    let mut ids = String::new();
    push_chars(&mut ids, st.section.as_slice());
    push_str(&mut ids, ".");
    push_chars(&mut ids, key.as_slice());
    let id = chars_of(ids.as_str());
    if seen_contains(&st.seen, &id) {
        return Err(quoted_on_line("duplicate manifest field `", &key, n));
    }
    let ghost before = st.model();
    let mut st = st;
    let ghost old_seen = st.seen@;
    st.seen.push(id);
    proof {
        assert(st.seen@.map_values(|v: Vec<char>| v@) =~= old_seen.map_values(|v: Vec<char>| v@).push(before.section + "."@ + key@));
        assert(st.model() == ManifestModel { seen: before.seen.push(before.section + "."@ + key@), ..before });
    }
    field(n, key, value, st)
}

/// Validates the text of a `vela.toml` manifest.
pub fn manifest_data(text: &str) -> (r: Result<ManifestData, String>)
    ensures
        match r {
            Ok(m) => manifest_spec(text@) == Ok::<(Seq<char>, Seq<char>, bool), Seq<char>>((m.name@, m.entry@, m.desktop)),
            Err(e) => manifest_spec(text@) == Err::<(Seq<char>, Seq<char>, bool), Seq<char>>(e@),
        },
{
    let cs = chars_of(text);
    let lines = split_lines(cs.as_slice());
    let ghost ls = lines@.map_values(|l: Vec<char>| l@);
    let mut st = Fields {
        name: chars_of("velari-app"),
        entry: None,
        desktop: false,
        package_seen: false,
        seen: Vec::new(),
        section: chars_of("package"),
    };
    proof {
        assert(st.seen@.map_values(|v: Vec<char>| v@) =~= Seq::<Seq<char>>::empty());
    }
    let mut i: usize = 0;
    while i < lines.len()
        invariant
            i <= lines@.len(),
            ls == lines@.map_values(|l: Vec<char>| l@),
            ls == lines_spec(text@),
            manifest_after(ls, i as nat) == Ok::<ManifestModel, Seq<char>>(st.model()),
        decreases lines@.len() - i,
    {
        match line(i + 1, &lines[i], st) {
            Ok(f) => {
                st = f;
            },
            Err(e) => {
                proof {
                    assert(manifest_after(ls, (i + 1) as nat) == Err::<ManifestModel, Seq<char>>(e@));
                    lemma_after_error(ls, (i + 1) as nat, ls.len(), e@);
                }
                return Err(e);
            },
        }
        i += 1;
    }
    if !st.package_seen {
        return Err(string_of("manifest must contain a [package] section"));
    }
    let name = string_from_chars(st.name.as_slice());
    let entry = match &st.entry {
        Some(e) => string_from_chars(e.as_slice()),
        None => string_of("src/main.vr"),
    };
    Ok(ManifestData { name, entry, desktop: st.desktop })
}

/// Once a line fails, the manifest fails with that line's message.
proof fn lemma_after_error(ls: Seq<Seq<char>>, k: nat, m: nat, e: Seq<char>)
    requires
        k <= m,
        manifest_after(ls, k) == Err::<ManifestModel, Seq<char>>(e),
    ensures
        manifest_after(ls, m) == Err::<ManifestModel, Seq<char>>(e),
    decreases m - k,
{
    if k < m {
        lemma_after_error(ls, k, (m - 1) as nat, e);
    }
}

/// Whether the manifest has seen `[package]` only changes at a line that is
/// exactly that header, once trimmed.
proof fn lemma_package_seen(ls: Seq<Seq<char>>, k: nat)
    requires
        k <= ls.len(),
        forall|j: int| 0 <= j < ls.len() ==> trim_spec(#[trigger] ls[j]) != "[package]"@,
    ensures
        manifest_after(ls, k) matches Ok(st) ==> !st.package_seen,
    decreases k,
{
    if k > 0 {
        lemma_package_seen(ls, (k - 1) as nat);
        let raw = ls[k - 1];
        let line = trim_spec(raw);
        if line.len() > 0 && line[0] == '[' && line.last() == ']' {
            let sec = line.subrange(1, line.len() - 1);
            if sec == "package"@ {
                reveal_strlit("package");
                reveal_strlit("[package]");
                assert(line.len() >= 2) by {
                    if line.len() == 1 {
                        assert(line.last() == line[0]);
                    }
                }
                assert("package"@.len() == 7);
                assert(sec.len() == line.len() - 2);
                assert(line.len() == 9);
                assert forall|i: int| 0 <= i < 9 implies line[i] == "[package]"@[i] by {
                    if 1 <= i < 8 {
                        assert(line[i] == sec[i - 1]);
                    }
                }
                assert(line =~= "[package]"@);
            }
        }
    }
}

/// A manifest without a `[package]` header is refused.
pub proof fn lemma_manifest_needs_package(text: Seq<char>)
    requires
        forall|j: int| 0 <= j < lines_spec(text).len() ==> trim_spec(#[trigger] lines_spec(text)[j])
            != "[package]"@,
    ensures
        manifest_spec(text) is Err,
{
    lemma_package_seen(lines_spec(text), lines_spec(text).len());
}

/// One of the first `k` lines is, once trimmed, the header `h`.
pub open spec fn has_header(ls: Seq<Seq<char>>, k: int, h: Seq<char>) -> bool {
    exists|j: int| 0 <= j < k && #[trigger] trim_spec(ls[j]) == h
}

/// A line is a `[desktop]` header exactly when its section name is
/// `desktop`.
proof fn lemma_desktop_header(line: Seq<char>)
    ensures
        (line.len() > 0 && line[0] == '[' && line.last() == ']' && line.subrange(1, line.len() - 1)
            == "desktop"@) <==> line == "[desktop]"@,
{
    reveal_strlit("desktop");
    reveal_strlit("[desktop]");
    if line.len() > 0 && line[0] == '[' && line.last() == ']' && line.subrange(1, line.len() - 1)
        == "desktop"@ {
        let sec = line.subrange(1, line.len() - 1);
        assert(line.len() >= 2) by {
            if line.len() == 1 {
                assert(line.last() == line[0]);
            }
        }
        assert("desktop"@.len() == 7);
        assert(sec.len() == line.len() - 2);
        assert(line.len() == 9);
        assert forall|i: int| 0 <= i < 9 implies line[i] == "[desktop]"@[i] by {
            if 1 <= i < 8 {
                assert(line[i] == sec[i - 1]);
            }
        }
        assert(line =~= "[desktop]"@);
    }
    if line == "[desktop]"@ {
        assert(line.subrange(1, 8) =~= "desktop"@);
    }
}

proof fn lemma_desktop_seen(ls: Seq<Seq<char>>, k: nat)
    requires
        k <= ls.len(),
    ensures
        manifest_after(ls, k) matches Ok(st) ==> (st.desktop <==> has_header(ls, k as int, "[desktop]"@)),
    decreases k,
{
    if k > 0 {
        lemma_desktop_seen(ls, (k - 1) as nat);
        let raw = ls[k - 1];
        let line = trim_spec(raw);
        lemma_desktop_header(line);
        reveal_strlit("[desktop]");
        if manifest_after(ls, k) is Ok {
            let prev = manifest_after(ls, (k - 1) as nat)->Ok_0;
            let st = manifest_after(ls, k)->Ok_0;
            if line == "[desktop]"@ {
                assert(trim_spec(ls[k - 1]) == "[desktop]"@);
                assert(has_header(ls, k as int, "[desktop]"@));
            } else {
                assert(st.desktop == prev.desktop);
                if has_header(ls, k as int, "[desktop]"@) {
                    let j = choose|j: int| 0 <= j < k && #[trigger] trim_spec(ls[j]) == "[desktop]"@;
                    assert(j != k - 1);
                    assert(has_header(ls, k - 1, "[desktop]"@));
                }
                if has_header(ls, k - 1, "[desktop]"@) {
                    let j = choose|j: int| 0 <= j < k - 1 && #[trigger] trim_spec(ls[j]) == "[desktop]"@;
                    assert(trim_spec(ls[j]) == "[desktop]"@);
                }
            }
        }
    }
}

/// A manifest marks a desktop project exactly when one of its lines is a
/// `[desktop]` header, wherever it stands among the sections.
pub proof fn lemma_desktop_flag(text: Seq<char>)
    ensures
        manifest_spec(text) matches Ok(m) ==> (m.2 <==> has_header(
            lines_spec(text),
            lines_spec(text).len() as int,
            "[desktop]"@,
        )),
{
    lemma_desktop_seen(lines_spec(text), lines_spec(text).len());
}

/// In a `[desktop]` section the backends `auto`, `windows`, `linux` and
/// `macos` are accepted and change nothing else; any other backend, or a
/// backend outside `[desktop]`, is refused, naming the value and the line.
pub proof fn lemma_desktop_backends(n: nat, v: Seq<char>, st: ManifestModel)
    ensures
        st.section == "desktop"@ && (v == "auto"@ || v == "windows"@ || v == "linux"@ || v == "macos"@)
            ==> field_step(n, "backend"@, v, st) == Ok::<ManifestModel, Seq<char>>(st),
        !(v == "auto"@ || v == "windows"@ || v == "linux"@ || v == "macos"@) || st.section != "desktop"@
            ==> field_step(n, "backend"@, v, st) == Err::<ManifestModel, Seq<char>>(
            "unsupported desktop backend `"@ + v + "`"@ + on_line(n),
        ),
{
    reveal_strlit("backend");
    reveal_strlit("name");
    reveal_strlit("version");
    reveal_strlit("entry");
    assert("backend"@.len() != "name"@.len());
    assert("backend"@[0] != "version"@[0]);
    assert("backend"@.len() != "entry"@.len());
}

/// In `[package]`, a valid name sets the package name, a non-empty entry
/// sets the entry file and a non-empty version is accepted; nothing else
/// changes. Outside `[package]` each of these fields is refused.
pub proof fn lemma_package_fields(n: nat, v: Seq<char>, st: ManifestModel)
    ensures
        st.section == "package"@ && v.len() > 0 && valid_name(v) ==> field_step(n, "name"@, v, st)
            == Ok::<ManifestModel, Seq<char>>(ManifestModel { name: v, ..st }),
        st.section == "package"@ && v.len() > 0 ==> field_step(n, "entry"@, v, st) == Ok::<
            ManifestModel,
            Seq<char>,
        >(ManifestModel { entry: Some(v), ..st }),
        st.section == "package"@ && v.len() > 0 ==> field_step(n, "version"@, v, st) == Ok::<
            ManifestModel,
            Seq<char>,
        >(st),
        st.section != "package"@ ==> field_step(n, "entry"@, v, st) is Err && field_step(n, "version"@, v, st)
            is Err,
        st.section != "package"@ && v.len() > 0 ==> field_step(n, "name"@, v, st) is Err,
{
    reveal_strlit("name");
    reveal_strlit("version");
    reveal_strlit("entry");
    assert("name"@.len() == 4);
    assert("version"@.len() == 7);
    assert("entry"@.len() == 5);
}

} // verus!
