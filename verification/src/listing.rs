//! The textual listing of a lowered program: a header per function and one
//! line per instruction, each instruction in the `Debug` layout.
use vstd::prelude::*;
use crate::ast::{type_text, Op, Type, Value};
use crate::ir::{Instruction, IrFunction, IrProgram};
use crate::text::{chars_of, decimal, push_char, push_repeat, push_str, repeat_spec, usize_to_string};

verus! {

/// What `format!("{:?}", s)` gives for a string `s`: the text in double
/// quotes with std's escapes.
pub uninterp spec fn str_debug(s: Seq<char>) -> Seq<char>;

/// `<str as Debug>::fmt`, through `format!("{:?}", s)`. The contract names
/// the result and states nothing more of std's escaping rules.
#[verifier::external_body]
fn debug_string(s: &str) -> (r: String)
    ensures
        r@ == str_debug(s@),
{
    format!("{:?}", s)
}

/// The number of leading characters equal to `c`.
pub open spec fn leading_run(s: Seq<char>, c: char) -> nat
    decreases s.len(),
{
    if s.len() > 0 && s[0] == c {
        1 + leading_run(s.drop_first(), c)
    } else {
        0
    }
}

/// The number of trailing characters equal to `c`.
pub open spec fn trailing_run(s: Seq<char>, c: char) -> nat
    decreases s.len(),
{
    if s.len() > 0 && s.last() == c {
        1 + trailing_run(s.drop_last(), c)
    } else {
        0
    }
}

/// The position of the first `.`, or the length when there is none.
pub open spec fn point_index(t: Seq<char>) -> nat
    decreases t.len(),
{
    if t.len() == 0 || t[0] == '.' {
        0
    } else {
        1 + point_index(t.drop_first())
    }
}

/// The digits of a literal without its decimal point.
pub open spec fn literal_digits(t: Seq<char>) -> Seq<char> {
    let p = point_index(t);
    if p == t.len() {
        t
    } else {
        t.take(p as int) + t.skip((p + 1) as int)
    }
}

/// A decimal exponent with its sign.
pub open spec fn exponent_text(x: int) -> Seq<char> {
    if x < 0 {
        "-"@ + decimal((-x) as nat)
    } else {
        decimal(x as nat)
    }
}

/// Significant digits `sig` (neither starting nor ending with zero) scaled
/// by `10^e`, that is the number `0.sig × 10^e`, in Rust's `Debug` layout:
/// with a decimal point (and at least one digit after it) when the value
/// lies in `[1e-4, 1e16)`, in scientific notation (`1e16`, `1.5e-7`)
/// otherwise.
pub open spec fn scaled_text(sig: Seq<char>, e: int) -> Seq<char> {
    let k = sig.len() as int;
    if -3 <= e && e <= 16 {
        if e <= 0 {
            "0."@ + repeat_spec('0', (-e) as nat) + sig
        } else if e >= k {
            sig + repeat_spec('0', (e - k) as nat) + ".0"@
        } else {
            sig.take(e) + "."@ + sig.skip(e)
        }
    } else {
        sig.take(1) + (if k > 1 {
            "."@ + sig.skip(1)
        } else {
            Seq::empty()
        }) + "e"@ + exponent_text(e - 1)
    }
}

/// The `Debug` text of the number a decimal literal denotes: `0.0` for zero,
/// otherwise its significant digits and decimal exponent as `scaled_text`
/// lays them out. The text is computed from the literal's digits, exactly:
/// for a literal with more significant digits than an `f64` holds, or
/// beyond its range, it differs from the `Debug` text of the rounded `f64`
/// (`99999999999999999999` is listed as `9.9999999999999999999e19`, where
/// the rounded `f64` shows `1e20`).
pub open spec fn number_debug(t: Seq<char>) -> Seq<char> {
    let d = literal_digits(t);
    let z = leading_run(d, '0');
    if z == d.len() {
        "0.0"@
    } else {
        scaled_text(d.subrange(z as int, d.len() - trailing_run(d, '0')), point_index(t) - z)
    }
}

/// The `Debug` text of a type.
pub open spec fn type_debug(t: Type) -> Seq<char>
    decreases t,
{
    match t {
        Type::Int => "Int"@,
        Type::Float => "Float"@,
        Type::Bool => "Bool"@,
        Type::String => "String"@,
        Type::Null => "Null"@,
        Type::Array(e) => "Array("@ + type_debug(*e) + ")"@,
        Type::Mapping(k, v) => "Map("@ + type_debug(*k) + ", "@ + type_debug(*v) + ")"@,
        Type::Unknown => "Unknown"@,
    }
}

pub open spec fn op_debug(op: Op) -> Seq<char> {
    match op {
        Op::Add => "Add"@,
        Op::Sub => "Sub"@,
        Op::Mul => "Mul"@,
        Op::Div => "Div"@,
        Op::Eq => "Eq"@,
        Op::And => "And"@,
        Op::Or => "Or"@,
        Op::Neg => "Neg"@,
    }
}

/// The `Debug` text of a value.
pub open spec fn value_debug(v: Value) -> Seq<char>
    decreases v, 1nat,
{
    match v {
        Value::Number(t) => "Number("@ + number_debug(t@) + ")"@,
        Value::Boolean(b) => if b {
            "Boolean(true)"@
        } else {
            "Boolean(false)"@
        },
        Value::String(s) => "String("@ + str_debug(s@) + ")"@,
        Value::Null => "Null"@,
        Value::Array(xs) => "Array(["@ + values_debug(xs@) + "])"@,
        Value::Mapping(xs) => "Map({"@ + entries_debug(xs@) + "})"@,
    }
}

/// Values separated by `, `.
pub open spec fn values_debug(xs: Seq<Value>) -> Seq<char>
    decreases xs, 0nat,
{
    if xs.len() == 0 {
        Seq::empty()
    } else if xs.len() == 1 {
        value_debug(xs[0])
    } else {
        values_debug(xs.drop_last()) + ", "@ + value_debug(xs.last())
    }
}

/// Map entries `key: value` separated by `, `.
pub open spec fn entries_debug(xs: Seq<(String, Value)>) -> Seq<char>
    decreases xs, 0nat,
{
    if xs.len() == 0 {
        Seq::empty()
    } else {
        let last = str_debug(xs.last().0@) + ": "@ + value_debug(xs.last().1);
        if xs.len() == 1 {
            last
        } else {
            entries_debug(xs.drop_last()) + ", "@ + last
        }
    }
}

/// Parts separated by `, `.
pub open spec fn comma_list(xs: Seq<Seq<char>>) -> Seq<char>
    decreases xs.len(),
{
    if xs.len() == 0 {
        Seq::empty()
    } else if xs.len() == 1 {
        xs[0]
    } else {
        comma_list(xs.drop_last()) + ", "@ + xs.last()
    }
}

/// The `Debug` text of a list of strings.
pub open spec fn strings_debug(xs: Seq<String>) -> Seq<char> {
    "["@ + comma_list(xs.map_values(|s: String| str_debug(s@))) + "]"@
}

/// The `Debug` text of an instruction.
pub open spec fn instr_debug(i: Instruction) -> Seq<char> {
    match i {
        Instruction::Const { dest, value, ty } => "Const { dest: "@ + str_debug(dest@) + ", value: "@
            + value_debug(value) + ", ty: "@ + type_debug(ty) + " }"@,
        Instruction::Load { dest, name, ty } => "Load { dest: "@ + str_debug(dest@) + ", name: "@
            + str_debug(name@) + ", ty: "@ + type_debug(ty) + " }"@,
        Instruction::Store { name, value, ty } => "Store { name: "@ + str_debug(name@)
            + ", value: "@ + str_debug(value@) + ", ty: "@ + type_debug(ty) + " }"@,
        Instruction::Binary { dest, op, left, right, ty } => "Binary { dest: "@ + str_debug(dest@)
            + ", op: "@ + op_debug(op) + ", left: "@ + str_debug(left@) + ", right: "@ + str_debug(
            right@,
        ) + ", ty: "@ + type_debug(ty) + " }"@,
        Instruction::Call { dest, name, args, ty } => "Call { dest: "@ + str_debug(dest@)
            + ", name: "@ + str_debug(name@) + ", args: "@ + strings_debug(args@) + ", ty: "@
            + type_debug(ty) + " }"@,
        Instruction::Index { dest, target, index, ty } => "Index { dest: "@ + str_debug(dest@)
            + ", target: "@ + str_debug(target@) + ", index: "@ + str_debug(index@) + ", ty: "@
            + type_debug(ty) + " }"@,
        Instruction::Aggregate { dest, elements, ty } => "Aggregate { dest: "@ + str_debug(dest@)
            + ", elements: "@ + strings_debug(elements@) + ", ty: "@ + type_debug(ty) + " }"@,
        Instruction::Print { value } => "Print { value: "@ + str_debug(value@) + " }"@,
        Instruction::Assert { value } => "Assert { value: "@ + str_debug(value@) + " }"@,
        Instruction::Return(v) => match v {
            Some(s) => "Return(Some("@ + str_debug(s@) + "))"@,
            None => "Return(None)"@,
        },
        Instruction::Label(l) => "Label("@ + str_debug(l@) + ")"@,
        Instruction::Branch { condition, then_label, else_label } => "Branch { condition: "@
            + str_debug(condition@) + ", then_label: "@ + str_debug(then_label@) + ", else_label: "@
            + str_debug(else_label@) + " }"@,
        Instruction::Jump(l) => "Jump("@ + str_debug(l@) + ")"@,
    }
}

/// The instruction lines of a function.
pub open spec fn instructions_text(xs: Seq<Instruction>) -> Seq<char>
    decreases xs.len(),
{
    if xs.len() == 0 {
        Seq::empty()
    } else {
        instructions_text(xs.drop_last()) + "  "@ + instr_debug(xs.last()) + "\n"@
    }
}

/// `function NAME(PARAM: TYPE, ...) -> TYPE:` and the instruction lines.
pub open spec fn function_text(f: IrFunction) -> Seq<char> {
    "function "@ + f.name@ + "("@ + comma_list(
        f.parameters@.map_values(|p: (String, Type)| p.0@ + ": "@ + type_text(p.1)),
    ) + ") -> "@ + type_text(f.return_type) + ":\n"@ + instructions_text(f.instructions@)
}

/// The listing of a program: its functions one after another.
pub open spec fn program_text(fs: Seq<IrFunction>) -> Seq<char>
    decreases fs.len(),
{
    if fs.len() == 0 {
        Seq::empty()
    } else {
        program_text(fs.drop_last()) + function_text(fs.last())
    }
}

proof fn lemma_leading_run(s: Seq<char>, c: char, k: nat)
    requires
        k <= s.len(),
        forall|j: int| 0 <= j < k ==> s[j] == c,
        k == s.len() || s[k as int] != c,
    ensures
        leading_run(s, c) == k,
    decreases k,
{
    if k > 0 {
        assert forall|j: int| 0 <= j < k - 1 implies s.drop_first()[j] == c by {
            assert(s.drop_first()[j] == s[j + 1]);
        }
        if k < s.len() {
            assert(s.drop_first()[k - 1] == s[k as int]);
        }
        lemma_leading_run(s.drop_first(), c, (k - 1) as nat);
    }
}

proof fn lemma_trailing_run(s: Seq<char>, c: char, k: nat)
    requires
        k <= s.len(),
        forall|j: int| s.len() - k <= j < s.len() ==> s[j] == c,
        k == s.len() || s[s.len() - k - 1] != c,
    ensures
        trailing_run(s, c) == k,
    decreases k,
{
    if k > 0 {
        assert forall|j: int| s.drop_last().len() - (k - 1) <= j < s.drop_last().len() implies s.drop_last()[j] == c by {
            assert(s.drop_last()[j] == s[j]);
        }
        if k < s.len() {
            assert(s.drop_last()[s.drop_last().len() - (k - 1) - 1] == s[s.len() - k - 1]);
        }
        lemma_trailing_run(s.drop_last(), c, (k - 1) as nat);
    }
}

proof fn lemma_point_index(s: Seq<char>, k: nat)
    requires
        k <= s.len(),
        forall|j: int| 0 <= j < k ==> s[j] != '.',
        k == s.len() || s[k as int] == '.',
    ensures
        point_index(s) == k,
    decreases k,
{
    if k > 0 {
        assert forall|j: int| 0 <= j < k - 1 implies s.drop_first()[j] != '.' by {
            assert(s.drop_first()[j] == s[j + 1]);
        }
        if k < s.len() {
            assert(s.drop_first()[k - 1] == s[k as int]);
        }
        lemma_point_index(s.drop_first(), (k - 1) as nat);
    }
}

/// Appends the characters of `v` from `a` up to `b`.
fn push_range(out: &mut String, v: &Vec<char>, a: usize, b: usize)
    requires
        a <= b <= v@.len(),
    ensures
        final(out)@ == old(out)@ + v@.subrange(a as int, b as int),
{
    let mut i = a;
    while i < b
        invariant
            a <= i <= b,
            b <= v@.len(),
            out@ =~= old(out)@ + v@.subrange(a as int, i as int),
        decreases b - i,
    {
        push_char(out, v[i]);
        i += 1;
    }
}

fn push_debug_str(out: &mut String, s: &String)
    ensures
        final(out)@ == old(out)@ + str_debug(s@),
{
    let d = debug_string(s.as_str());
    push_str(out, d.as_str());
}

/// The digits of literal `s` without its point, and the point's position.
fn literal_parts(s: &String) -> (r: (Vec<char>, usize))
    ensures
        r.0@ == literal_digits(s@),
        r.1 == point_index(s@),
{
    let t = chars_of(s.as_str());
    let n = t.len();
    let mut p: usize = 0;
    while p < n && t[p] != '.'
        invariant
            p <= n,
            n == t@.len(),
            forall|j: int| 0 <= j < p ==> t@[j] != '.',
        decreases n - p,
    {
        p += 1;
    }
    proof {
        lemma_point_index(t@, p as nat);
    }
    let mut d: Vec<char> = Vec::new();
    let mut i: usize = 0;
    while i < n
        invariant
            i <= n,
            p <= n,
            n == t@.len(),
            d@ =~= (if i <= p {
                t@.take(i as int)
            } else {
                t@.take(p as int) + t@.subrange(p + 1, i as int)
            }),
        decreases n - i,
    {
        if i != p {
            d.push(t[i]);
        }
        i += 1;
    }
    proof {
        if p == n {
            assert(t@.take(n as int) =~= t@);
        } else {
            assert(t@.subrange(p + 1, n as int) =~= t@.skip(p + 1));
        }
    }
    (d, p)
}

/// Appends `scaled_text` of the digits `d[a..b]` and exponent `e`.
fn push_scaled(out: &mut String, d: &Vec<char>, a: usize, b: usize, e: i128)
    requires
        a < b <= d@.len(),
        -(usize::MAX as int) < e <= usize::MAX,
    ensures
        final(out)@ == old(out)@ + scaled_text(d@.subrange(a as int, b as int), e as int),
{
    let ghost sig = d@.subrange(a as int, b as int);
    let k: usize = b - a;
    let ghost before = out@;
    if -3 <= e && e <= 16 {
        if e <= 0 {
            push_str(out, "0.");
            push_repeat(out, '0', (0 - e) as usize);
            push_range(out, d, a, b);
        } else if e >= k as i128 {
            push_range(out, d, a, b);
            push_repeat(out, '0', (e - k as i128) as usize);
            push_str(out, ".0");
        } else {
            let eu = e as usize;
            push_range(out, d, a, a + eu);
            push_str(out, ".");
            push_range(out, d, a + eu, b);
            proof {
                assert(d@.subrange(a as int, a + eu) =~= sig.take(eu as int));
                assert(d@.subrange(a + eu, b as int) =~= sig.skip(eu as int));
            }
        }
    } else {
        push_range(out, d, a, a + 1);
        proof {
            assert(d@.subrange(a as int, a + 1) =~= sig.take(1));
        }
        if k > 1 {
            push_str(out, ".");
            push_range(out, d, a + 1, b);
            proof {
                assert(d@.subrange(a + 1, b as int) =~= sig.skip(1));
            }
        }
        push_str(out, "e");
        let x: i128 = e - 1;
        if x < 0 {
            push_str(out, "-");
            let digits = usize_to_string((0 - x) as usize);
            push_str(out, digits.as_str());
        } else {
            let digits = usize_to_string(x as usize);
            push_str(out, digits.as_str());
        }
    }
    proof {
        assert(out@ =~= before + scaled_text(sig, e as int));
    }
}

/// Appends the `Debug` text of the number that literal `s` denotes.
fn push_number(out: &mut String, s: &String)
    ensures
        final(out)@ == old(out)@ + number_debug(s@),
{
    let (d, p) = literal_parts(s);
    let len = d.len();
    let mut z: usize = 0;
    while z < len && d[z] == '0'
        invariant
            z <= len,
            len == d@.len(),
            forall|j: int| 0 <= j < z ==> d@[j] == '0',
        decreases len - z,
    {
        z += 1;
    }
    proof {
        lemma_leading_run(d@, '0', z as nat);
    }
    if z == len {
        push_str(out, "0.0");
        return;
    }
    let mut tz: usize = 0;
    while tz < len - z && d[len - 1 - tz] == '0'
        invariant
            z < len,
            tz <= len - z,
            len == d@.len(),
            forall|j: int| len - tz <= j < len ==> d@[j] == '0',
        decreases len - z - tz,
    {
        tz += 1;
    }
    proof {
        if tz == len - z {
            assert(d@[z as int] != '0');
            assert(false);
        }
        lemma_trailing_run(d@, '0', tz as nat);
    }
    let e: i128 = p as i128 - z as i128;
    push_scaled(out, &d, z, len - tz, e);
}

fn push_type(out: &mut String, t: &Type)
    ensures
        final(out)@ == old(out)@ + type_debug(*t),
    decreases t,
{
    let ghost before = out@;
    match t {
        Type::Int => push_str(out, "Int"),
        Type::Float => push_str(out, "Float"),
        Type::Bool => push_str(out, "Bool"),
        Type::String => push_str(out, "String"),
        Type::Null => push_str(out, "Null"),
        Type::Array(e) => {
            push_str(out, "Array(");
            push_type(out, e);
            push_str(out, ")");
        },
        Type::Mapping(k, v) => {
            push_str(out, "Map(");
            push_type(out, k);
            push_str(out, ", ");
            push_type(out, v);
            push_str(out, ")");
        },
        Type::Unknown => push_str(out, "Unknown"),
    }
    proof {
        assert(out@ =~= before + type_debug(*t));
    }
}

fn push_op(out: &mut String, op: Op)
    ensures
        final(out)@ == old(out)@ + op_debug(op),
{
    match op {
        Op::Add => push_str(out, "Add"),
        Op::Sub => push_str(out, "Sub"),
        Op::Mul => push_str(out, "Mul"),
        Op::Div => push_str(out, "Div"),
        Op::Eq => push_str(out, "Eq"),
        Op::And => push_str(out, "And"),
        Op::Or => push_str(out, "Or"),
        Op::Neg => push_str(out, "Neg"),
    }
}

#[verifier::loop_isolation(false)]
fn push_value(out: &mut String, v: &Value)
    ensures
        final(out)@ == old(out)@ + value_debug(*v),
    decreases v,
{
    let ghost before = out@;
    match v {
        Value::Number(t) => {
            push_str(out, "Number(");
            push_number(out, t);
            push_str(out, ")");
        },
        Value::Boolean(b) => {
            if *b {
                push_str(out, "Boolean(true)");
            } else {
                push_str(out, "Boolean(false)");
            }
        },
        Value::String(s) => {
            push_str(out, "String(");
            push_debug_str(out, s);
            push_str(out, ")");
        },
        Value::Null => push_str(out, "Null"),
        Value::Array(xs) => {
            push_str(out, "Array([");
            let ghost start = out@;
            let mut i: usize = 0;
            while i < xs.len()
                invariant
                    i <= xs.len(),
                    out@ == start + values_debug(xs@.take(i as int)),
                decreases xs.len() - i,
            {
                proof {
                    assert(decreases_to!(xs => xs@));
                    assert(decreases_to!(xs@ => xs@[i as int]));
                    assert(xs@.take(i + 1).drop_last() =~= xs@.take(i as int));
                    assert(xs@.take(i + 1).last() == xs@[i as int]);
                }
                if i > 0 {
                    push_str(out, ", ");
                }
                push_value(out, &xs[i]);
                proof {
                    if i == 0 {
                        assert(values_debug(xs@.take(0)) =~= Seq::<char>::empty());
                    }
                }
                i += 1;
            }
            proof {
                assert(xs@.take(xs@.len() as int) =~= xs@);
            }
            push_str(out, "])");
        },
        Value::Mapping(xs) => {
            push_str(out, "Map({");
            let ghost start = out@;
            let mut i: usize = 0;
            while i < xs.len()
                invariant
                    i <= xs.len(),
                    out@ == start + entries_debug(xs@.take(i as int)),
                decreases xs.len() - i,
            {
                proof {
                    assert(decreases_to!(xs => xs@));
                    assert(decreases_to!(xs@ => xs@[i as int]));
                    assert(decreases_to!(xs@[i as int] => xs@[i as int].1));
                    assert(xs@.take(i + 1).drop_last() =~= xs@.take(i as int));
                    assert(xs@.take(i + 1).last() == xs@[i as int]);
                }
                if i > 0 {
                    push_str(out, ", ");
                }
                push_debug_str(out, &xs[i].0);
                push_str(out, ": ");
                push_value(out, &xs[i].1);
                proof {
                    if i == 0 {
                        assert(entries_debug(xs@.take(0)) =~= Seq::<char>::empty());
                    }
                }
                i += 1;
            }
            proof {
                assert(xs@.take(xs@.len() as int) =~= xs@);
            }
            push_str(out, "})");
        },
    }
    proof {
        assert(out@ =~= before + value_debug(*v));
    }
}

fn push_strings(out: &mut String, xs: &Vec<String>)
    ensures
        final(out)@ == old(out)@ + strings_debug(xs@),
{
    let ghost parts = xs@.map_values(|s: String| str_debug(s@));
    let ghost before = out@;
    push_str(out, "[");
    let mut i: usize = 0;
    while i < xs.len()
        invariant
            i <= xs@.len(),
            parts == xs@.map_values(|s: String| str_debug(s@)),
            out@ == before + "["@ + comma_list(parts.take(i as int)),
        decreases xs@.len() - i,
    {
        proof {
            assert(parts.take(i + 1).drop_last() =~= parts.take(i as int));
            assert(parts.take(i + 1).last() == parts[i as int]);
        }
        if i > 0 {
            push_str(out, ", ");
        }
        push_debug_str(out, &xs[i]);
        proof {
            if i == 0 {
                assert(comma_list(parts.take(0)) =~= Seq::<char>::empty());
            }
        }
        i += 1;
    }
    proof {
        assert(parts.take(xs@.len() as int) =~= parts);
    }
    push_str(out, "]");
    proof {
        assert(out@ =~= before + strings_debug(xs@));
    }
}

fn push_instr(out: &mut String, i: &Instruction)
    ensures
        final(out)@ == old(out)@ + instr_debug(*i),
{
    let ghost before = out@;
    match i {
        Instruction::Const { dest, value, ty } => {
            push_str(out, "Const { dest: ");
            push_debug_str(out, dest);
            push_str(out, ", value: ");
            push_value(out, value);
            push_str(out, ", ty: ");
            push_type(out, ty);
            push_str(out, " }");
        },
        Instruction::Load { dest, name, ty } => {
            push_str(out, "Load { dest: ");
            push_debug_str(out, dest);
            push_str(out, ", name: ");
            push_debug_str(out, name);
            push_str(out, ", ty: ");
            push_type(out, ty);
            push_str(out, " }");
        },
        Instruction::Store { name, value, ty } => {
            push_str(out, "Store { name: ");
            push_debug_str(out, name);
            push_str(out, ", value: ");
            push_debug_str(out, value);
            push_str(out, ", ty: ");
            push_type(out, ty);
            push_str(out, " }");
        },
        Instruction::Binary { dest, op, left, right, ty } => {
            push_str(out, "Binary { dest: ");
            push_debug_str(out, dest);
            push_str(out, ", op: ");
            push_op(out, *op);
            push_str(out, ", left: ");
            push_debug_str(out, left);
            push_str(out, ", right: ");
            push_debug_str(out, right);
            push_str(out, ", ty: ");
            push_type(out, ty);
            push_str(out, " }");
        },
        Instruction::Call { dest, name, args, ty } => {
            push_str(out, "Call { dest: ");
            push_debug_str(out, dest);
            push_str(out, ", name: ");
            push_debug_str(out, name);
            push_str(out, ", args: ");
            push_strings(out, args);
            push_str(out, ", ty: ");
            push_type(out, ty);
            push_str(out, " }");
        },
        Instruction::Index { dest, target, index, ty } => {
            push_str(out, "Index { dest: ");
            push_debug_str(out, dest);
            push_str(out, ", target: ");
            push_debug_str(out, target);
            push_str(out, ", index: ");
            push_debug_str(out, index);
            push_str(out, ", ty: ");
            push_type(out, ty);
            push_str(out, " }");
        },
        Instruction::Aggregate { dest, elements, ty } => {
            push_str(out, "Aggregate { dest: ");
            push_debug_str(out, dest);
            push_str(out, ", elements: ");
            push_strings(out, elements);
            push_str(out, ", ty: ");
            push_type(out, ty);
            push_str(out, " }");
        },
        Instruction::Print { value } => {
            push_str(out, "Print { value: ");
            push_debug_str(out, value);
            push_str(out, " }");
        },
        Instruction::Assert { value } => {
            push_str(out, "Assert { value: ");
            push_debug_str(out, value);
            push_str(out, " }");
        },
        Instruction::Return(v) => match v {
            Some(s) => {
                push_str(out, "Return(Some(");
                push_debug_str(out, s);
                push_str(out, "))");
            },
            None => push_str(out, "Return(None)"),
        },
        Instruction::Label(l) => {
            push_str(out, "Label(");
            push_debug_str(out, l);
            push_str(out, ")");
        },
        Instruction::Branch { condition, then_label, else_label } => {
            push_str(out, "Branch { condition: ");
            push_debug_str(out, condition);
            push_str(out, ", then_label: ");
            push_debug_str(out, then_label);
            push_str(out, ", else_label: ");
            push_debug_str(out, else_label);
            push_str(out, " }");
        },
        Instruction::Jump(l) => {
            push_str(out, "Jump(");
            push_debug_str(out, l);
            push_str(out, ")");
        },
    }
    proof {
        assert(out@ =~= before + instr_debug(*i));
    }
}

fn push_function(out: &mut String, f: &IrFunction)
    ensures
        final(out)@ == old(out)@ + function_text(*f),
{
    let ghost before = out@;
    let ghost parts = f.parameters@.map_values(|p: (String, Type)| p.0@ + ": "@ + type_text(p.1));
    push_str(out, "function ");
    push_str(out, f.name.as_str());
    push_str(out, "(");
    let ghost start = out@;
    let mut i: usize = 0;
    while i < f.parameters.len()
        invariant
            i <= f.parameters@.len(),
            parts == f.parameters@.map_values(|p: (String, Type)| p.0@ + ": "@ + type_text(p.1)),
            out@ == start + comma_list(parts.take(i as int)),
        decreases f.parameters@.len() - i,
    {
        proof {
            assert(parts.take(i + 1).drop_last() =~= parts.take(i as int));
            assert(parts.take(i + 1).last() == parts[i as int]);
            if i == 0 {
                assert(comma_list(parts.take(0)) =~= Seq::<char>::empty());
            }
        }
        if i > 0 {
            push_str(out, ", ");
        }
        push_str(out, f.parameters[i].0.as_str());
        push_str(out, ": ");
        let t = f.parameters[i].1.display();
        push_str(out, t.as_str());
        proof {
            assert(parts[i as int] == f.parameters@[i as int].0@ + ": "@ + type_text(f.parameters@[i as int].1));
            if i == 0 {
                assert(out@ =~= start + comma_list(parts.take(1)));
            } else {
                assert(out@ =~= start + comma_list(parts.take(i + 1)));
            }
        }
        i += 1;
    }
    proof {
        assert(parts.take(f.parameters@.len() as int) =~= parts);
    }
    push_str(out, ") -> ");
    let r = f.return_type.display();
    push_str(out, r.as_str());
    push_str(out, ":\n");
    let ghost header = out@;
    let mut j: usize = 0;
    while j < f.instructions.len()
        invariant
            j <= f.instructions@.len(),
            out@ == header + instructions_text(f.instructions@.take(j as int)),
        decreases f.instructions@.len() - j,
    {
        proof {
            assert(f.instructions@.take(j + 1).drop_last() =~= f.instructions@.take(j as int));
            assert(f.instructions@.take(j + 1).last() == f.instructions@[j as int]);
        }
        push_str(out, "  ");
        push_instr(out, &f.instructions[j]);
        push_str(out, "\n");
        j += 1;
    }
    proof {
        assert(f.instructions@.take(f.instructions@.len() as int) =~= f.instructions@);
        assert(out@ =~= before + function_text(*f));
    }
}

impl IrProgram {
    /// The listing of the program: for each function a header line
    /// `function NAME(PARAM: TYPE, ...) -> TYPE:` followed by its
    /// instructions, one per line, indented by two spaces, in the `Debug`
    /// layout.
    pub fn text(&self) -> (r: String)
        ensures
            r@ == program_text(self.functions@),
    {
        let mut output = String::new();
        let mut i: usize = 0;
        while i < self.functions.len()
            invariant
                i <= self.functions@.len(),
                output@ == program_text(self.functions@.take(i as int)),
            decreases self.functions@.len() - i,
        {
            proof {
                assert(self.functions@.take(i + 1).drop_last() =~= self.functions@.take(i as int));
                assert(self.functions@.take(i + 1).last() == self.functions@[i as int]);
            }
            push_function(&mut output, &self.functions[i]);
            i += 1;
        }
        proof {
            assert(self.functions@.take(self.functions@.len() as int) =~= self.functions@);
        }
        output
    }
}

} // verus!
