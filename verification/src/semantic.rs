//! Static type and symbol checks over the syntax tree.
use vstd::prelude::*;
use crate::ast::{expr_span, Expr, Op, Stmt, Type, Value};
use crate::lexer::Span;
use crate::text::{decimal, push_str, same_string, string_is, string_of, usize_to_string, copy_string};

verus! {

/// The types that semantic analysis tracks.
#[derive(Debug, PartialEq, Eq)]
pub enum VelaRiType {
    Int,
    Number,
    Boolean,
    String,
    Null,
    Array(Box<VelaRiType>),
    Mapping(Box<VelaRiType>, Box<VelaRiType>),
    Unknown,
}

impl VelaRiType {
    /// A copy equal to `self`.
    pub fn duplicate(&self) -> (r: VelaRiType)
        ensures
            r == *self,
        decreases self,
    {
        match self {
            VelaRiType::Int => VelaRiType::Int,
            VelaRiType::Number => VelaRiType::Number,
            VelaRiType::Boolean => VelaRiType::Boolean,
            VelaRiType::String => VelaRiType::String,
            VelaRiType::Null => VelaRiType::Null,
            VelaRiType::Array(e) => VelaRiType::Array(Box::new(e.duplicate())),
            VelaRiType::Mapping(k, v) => VelaRiType::Mapping(
                Box::new(k.duplicate()),
                Box::new(v.duplicate()),
            ),
            VelaRiType::Unknown => VelaRiType::Unknown,
        }
    }

    /// Whether two types are the same.
    pub fn same(&self, other: &VelaRiType) -> (r: bool)
        ensures
            r == (*self == *other),
        decreases self,
    {
        match (self, other) {
            (VelaRiType::Int, VelaRiType::Int) => true,
            (VelaRiType::Number, VelaRiType::Number) => true,
            (VelaRiType::Boolean, VelaRiType::Boolean) => true,
            (VelaRiType::String, VelaRiType::String) => true,
            (VelaRiType::Null, VelaRiType::Null) => true,
            (VelaRiType::Unknown, VelaRiType::Unknown) => true,
            (VelaRiType::Array(a), VelaRiType::Array(b)) => a.same(b),
            (VelaRiType::Mapping(k1, v1), VelaRiType::Mapping(k2, v2)) => k1.same(k2) && v1.same(v2),
            _ => false,
        }
    }

    fn is_numeric(&self) -> (r: bool)
        ensures
            r == is_numeric(*self),
    {
        match self {
            VelaRiType::Int | VelaRiType::Number => true,
            _ => false,
        }
    }
}

impl Clone for VelaRiType {
    fn clone(&self) -> (r: Self)
        ensures
            r == *self,
    {
        self.duplicate()
    }
}

/// A semantic error: its message and where it was found.
#[derive(Debug, Clone, PartialEq)]
pub struct SemanticError {
    pub message: String,
    pub span: Span,
}

/// A reported error as message characters and span.
pub type ErrorModel = (Seq<char>, Span);

pub open spec fn error_model(e: SemanticError) -> ErrorModel {
    (e.message@, e.span)
}

/// The content of a list of errors.
pub open spec fn errors_model(es: Seq<SemanticError>) -> Seq<ErrorModel> {
    es.map_values(|e: SemanticError| error_model(e))
}

pub open spec fn is_numeric(t: VelaRiType) -> bool {
    t == VelaRiType::Int || t == VelaRiType::Number
}

/// Whether a value of type `actual` may stand where `expected` is declared.
pub open spec fn compatible_spec(expected: VelaRiType, actual: VelaRiType) -> bool {
    expected == VelaRiType::Unknown || actual == VelaRiType::Unknown || expected == actual
        || (expected == VelaRiType::Number && actual == VelaRiType::Int)
}

/// Every type is compatible with itself, and `Unknown` with every type.
pub proof fn lemma_compatible_laws(t: VelaRiType)
    ensures
        compatible_spec(t, t),
        compatible_spec(VelaRiType::Unknown, t),
        compatible_spec(t, VelaRiType::Unknown),
{
}

/// The least common type of two types, `Unknown` where none exists.
pub open spec fn merge_spec(left: VelaRiType, right: VelaRiType) -> VelaRiType
    decreases left,
{
    if left == VelaRiType::Unknown {
        right
    } else if right == VelaRiType::Unknown || left == right {
        left
    } else {
        match (left, right) {
            (VelaRiType::Int, VelaRiType::Number) => VelaRiType::Number,
            (VelaRiType::Number, VelaRiType::Int) => VelaRiType::Number,
            (VelaRiType::Array(a), VelaRiType::Array(b)) => VelaRiType::Array(
                Box::new(merge_spec(*a, *b)),
            ),
            (VelaRiType::Mapping(k1, v1), VelaRiType::Mapping(k2, v2)) => VelaRiType::Mapping(
                Box::new(merge_spec(*k1, *k2)),
                Box::new(merge_spec(*v1, *v2)),
            ),
            _ => VelaRiType::Unknown,
        }
    }
}

/// Merging two types does not depend on their order, a type merged with
/// itself is that type, and `Unknown` leaves the other type as it is.
pub proof fn lemma_merge_laws(a: VelaRiType, b: VelaRiType)
    ensures
        merge_spec(a, b) == merge_spec(b, a),
        merge_spec(a, a) == a,
        merge_spec(VelaRiType::Unknown, a) == a,
        merge_spec(a, VelaRiType::Unknown) == a,
    decreases a,
{
    match (a, b) {
        (VelaRiType::Array(x), VelaRiType::Array(y)) => {
            lemma_merge_laws(*x, *y);
        },
        (VelaRiType::Mapping(k1, v1), VelaRiType::Mapping(k2, v2)) => {
            lemma_merge_laws(*k1, *k2);
            lemma_merge_laws(*v1, *v2);
        },
        _ => {},
    }
}

/// The least common type of two element types, `None` where they conflict:
/// `Unknown` gives way to any type, `Int` widens to `Float`, and
/// collections unify element by element.
pub open spec fn unify_spec(left: VelaRiType, right: VelaRiType) -> Option<VelaRiType>
    decreases left,
{
    if left == VelaRiType::Unknown {
        Some(right)
    } else if right == VelaRiType::Unknown || left == right {
        Some(left)
    } else {
        match (left, right) {
            (VelaRiType::Int, VelaRiType::Number) => Some(VelaRiType::Number),
            (VelaRiType::Number, VelaRiType::Int) => Some(VelaRiType::Number),
            (VelaRiType::Array(a), VelaRiType::Array(b)) => match unify_spec(*a, *b) {
                Some(t) => Some(VelaRiType::Array(Box::new(t))),
                None => None,
            },
            (VelaRiType::Mapping(k1, v1), VelaRiType::Mapping(k2, v2)) => match (
                unify_spec(*k1, *k2),
                unify_spec(*v1, *v2),
            ) {
                (Some(k), Some(v)) => Some(VelaRiType::Mapping(Box::new(k), Box::new(v))),
                _ => None,
            },
            _ => None,
        }
    }
}

/// One more element type `t` after the elements so far unified to `acc`;
/// once a conflict is found it stays.
pub open spec fn unify_step(acc: Option<VelaRiType>, t: VelaRiType) -> Option<VelaRiType> {
    match acc {
        Some(a) => unify_spec(a, t),
        None => None,
    }
}

/// The type a collection's elements settle on: `Unknown` after a conflict.
pub open spec fn settle(acc: Option<VelaRiType>) -> VelaRiType {
    match acc {
        Some(t) => t,
        None => VelaRiType::Unknown,
    }
}

/// `t` is no wider than `c`: unifying them gives `c`.
pub open spec fn narrower(t: VelaRiType, c: VelaRiType) -> bool {
    unify_spec(t, c) == Some(c)
}

/// A unification is no narrower than either side.
proof fn lemma_unify_upper(a: VelaRiType, b: VelaRiType)
    requires
        unify_spec(a, b) is Some,
    ensures
        narrower(a, unify_spec(a, b)->0),
        narrower(b, unify_spec(a, b)->0),
    decreases a,
{
    match (a, b) {
        (VelaRiType::Array(x), VelaRiType::Array(y)) => {
            if a != VelaRiType::Unknown && b != VelaRiType::Unknown && a != b {
                lemma_unify_upper(*x, *y);
            }
        },
        (VelaRiType::Mapping(k1, v1), VelaRiType::Mapping(k2, v2)) => {
            if a != VelaRiType::Unknown && b != VelaRiType::Unknown && a != b {
                lemma_unify_upper(*k1, *k2);
                lemma_unify_upper(*v1, *v2);
            }
        },
        _ => {},
    }
}

/// Narrowness is transitive.
proof fn lemma_narrower_trans(x: VelaRiType, a: VelaRiType, c: VelaRiType)
    requires
        narrower(x, a),
        narrower(a, c),
    ensures
        narrower(x, c),
    decreases x,
{
    match (x, a, c) {
        (VelaRiType::Array(x1), VelaRiType::Array(a1), VelaRiType::Array(c1)) => {
            if x != VelaRiType::Unknown && x != a && a != c && x != c {
                lemma_narrower_trans(*x1, *a1, *c1);
            }
        },
        (VelaRiType::Mapping(k1, v1), VelaRiType::Mapping(k2, v2), VelaRiType::Mapping(k3, v3)) => {
            if x != VelaRiType::Unknown && x != a && a != c && x != c {
                lemma_narrower_trans(*k1, *k2, *k3);
                lemma_narrower_trans(*v1, *v2, *v3);
            }
        },
        _ => {},
    }
}

/// Two types no wider than a common type unify.
proof fn lemma_unify_below(a: VelaRiType, b: VelaRiType, c: VelaRiType)
    requires
        narrower(a, c),
        narrower(b, c),
    ensures
        unify_spec(a, b) is Some,
        narrower(unify_spec(a, b)->0, c),
    decreases a,
{
    match (a, b, c) {
        (VelaRiType::Array(x), VelaRiType::Array(y), VelaRiType::Array(z)) => {
            if a != b {
                lemma_unify_below(*x, *y, *z);
            }
        },
        (VelaRiType::Mapping(k1, v1), VelaRiType::Mapping(k2, v2), VelaRiType::Mapping(k3, v3)) => {
            if a != b {
                lemma_unify_below(*k1, *k2, *k3);
                lemma_unify_below(*v1, *v2, *v3);
            }
        },
        _ => {},
    }
}

/// Unifying `c` with `t` gives a type no narrower than anything below `c`.
proof fn lemma_step_bound(x: VelaRiType, c: VelaRiType, t: VelaRiType)
    requires
        narrower(x, c),
        unify_spec(c, t) is Some,
    ensures
        narrower(x, unify_spec(c, t)->0),
        narrower(t, unify_spec(c, t)->0),
{
    lemma_unify_upper(c, t);
    lemma_narrower_trans(x, c, unify_spec(c, t)->0);
}

/// The type that an annotation denotes.
pub open spec fn from_ast_spec(t: Type) -> VelaRiType
    decreases t,
{
    match t {
        Type::Int => VelaRiType::Int,
        Type::Float => VelaRiType::Number,
        Type::Bool => VelaRiType::Boolean,
        Type::String => VelaRiType::String,
        Type::Null => VelaRiType::Null,
        Type::Array(e) => VelaRiType::Array(Box::new(from_ast_spec(*e))),
        Type::Mapping(k, v) => VelaRiType::Mapping(
            Box::new(from_ast_spec(*k)),
            Box::new(from_ast_spec(*v)),
        ),
        Type::Unknown => VelaRiType::Unknown,
    }
}

/// The name of a type in messages.
pub open spec fn type_name_spec(t: VelaRiType) -> Seq<char>
    decreases t,
{
    match t {
        VelaRiType::Int => "Int"@,
        VelaRiType::Number => "Float"@,
        VelaRiType::Boolean => "Boolean"@,
        VelaRiType::String => "String"@,
        VelaRiType::Null => "Null"@,
        VelaRiType::Array(e) => "Array<"@ + type_name_spec(*e) + ">"@,
        VelaRiType::Mapping(k, v) => "Map<"@ + type_name_spec(*k) + ", "@ + type_name_spec(*v)
            + ">"@,
        VelaRiType::Unknown => "Unknown"@,
    }
}

/// Whether a number literal denotes an integer: no nonzero digit follows its
/// decimal point. This reads the literal's digits exactly; a literal whose
/// fraction is too small for an `f64` to hold (`1.00000000000000001`) is not
/// integral here, though it rounds to a whole `f64`.
pub open spec fn integral_literal(text: Seq<char>) -> bool {
    forall|i: int, j: int| 0 <= i < j < text.len() && text[i] == '.' ==> text[j] == '0'
}

/// The type of a literal value.
pub open spec fn value_type_spec(v: Value) -> VelaRiType
    decreases v, 1nat,
{
    match v {
        Value::Number(t) => if integral_literal(t@) {
            VelaRiType::Int
        } else {
            VelaRiType::Number
        },
        Value::Boolean(_) => VelaRiType::Boolean,
        Value::String(_) => VelaRiType::String,
        Value::Null => VelaRiType::Null,
        Value::Array(xs) => VelaRiType::Array(Box::new(settle(values_type(xs@)))),
        Value::Mapping(xs) => VelaRiType::Mapping(
            Box::new(VelaRiType::String),
            Box::new(settle(entries_type(xs@))),
        ),
    }
}

/// The unification, from `Unknown` onwards, of the types of `xs` in order;
/// `None` once two of them conflict.
pub open spec fn values_type(xs: Seq<Value>) -> Option<VelaRiType>
    decreases xs, 0nat,
{
    if xs.len() == 0 {
        Some(VelaRiType::Unknown)
    } else {
        unify_step(values_type(xs.drop_last()), value_type_spec(xs.last()))
    }
}

/// The unification, from `Unknown` onwards, of the types of the entries'
/// values; `None` once two of them conflict.
pub open spec fn entries_type(xs: Seq<(String, Value)>) -> Option<VelaRiType>
    decreases xs, 0nat,
{
    if xs.len() == 0 {
        Some(VelaRiType::Unknown)
    } else {
        unify_step(entries_type(xs.drop_last()), value_type_spec(xs.last().1))
    }
}

pub fn compatible(expected: &VelaRiType, actual: &VelaRiType) -> (r: bool)
    ensures
        r == compatible_spec(*expected, *actual),
{
    matches!(expected, VelaRiType::Unknown) || matches!(actual, VelaRiType::Unknown)
        || expected.same(actual) || (matches!(expected, VelaRiType::Number) && matches!(
        actual,
        VelaRiType::Int
    ))
}

pub fn merge_types(left: &VelaRiType, right: &VelaRiType) -> (r: VelaRiType)
    ensures
        r == merge_spec(*left, *right),
    decreases left,
{
    if matches!(left, VelaRiType::Unknown) {
        return right.duplicate();
    }
    if matches!(right, VelaRiType::Unknown) || left.same(right) {
        return left.duplicate();
    }
    match (left, right) {
        (VelaRiType::Int, VelaRiType::Number) | (VelaRiType::Number, VelaRiType::Int) => {
            VelaRiType::Number
        },
        (VelaRiType::Array(a), VelaRiType::Array(b)) => VelaRiType::Array(
            Box::new(merge_types(a, b)),
        ),
        (VelaRiType::Mapping(k1, v1), VelaRiType::Mapping(k2, v2)) => VelaRiType::Mapping(
            Box::new(merge_types(k1, k2)),
            Box::new(merge_types(v1, v2)),
        ),
        _ => VelaRiType::Unknown,
    }
}

/// The least common type of two element types, `None` where they conflict.
pub fn unify_types(left: &VelaRiType, right: &VelaRiType) -> (r: Option<VelaRiType>)
    ensures
        r == unify_spec(*left, *right),
    decreases left,
{
    if matches!(left, VelaRiType::Unknown) {
        return Some(right.duplicate());
    }
    if matches!(right, VelaRiType::Unknown) || left.same(right) {
        return Some(left.duplicate());
    }
    match (left, right) {
        (VelaRiType::Int, VelaRiType::Number) | (VelaRiType::Number, VelaRiType::Int) => {
            Some(VelaRiType::Number)
        },
        (VelaRiType::Array(a), VelaRiType::Array(b)) => match unify_types(a, b) {
            Some(t) => Some(VelaRiType::Array(Box::new(t))),
            None => None,
        },
        (VelaRiType::Mapping(k1, v1), VelaRiType::Mapping(k2, v2)) => {
            let k = unify_types(k1, k2);
            let v = unify_types(v1, v2);
            match (k, v) {
                (Some(k), Some(v)) => Some(VelaRiType::Mapping(Box::new(k), Box::new(v))),
                _ => None,
            }
        },
        _ => None,
    }
}

/// One more element type after the elements so far.
fn unify_next(acc: Option<VelaRiType>, t: &VelaRiType) -> (r: Option<VelaRiType>)
    ensures
        r == unify_step(acc, *t),
{
    match acc {
        Some(a) => unify_types(&a, t),
        None => None,
    }
}

/// The type elements settle on.
fn settled(acc: Option<VelaRiType>) -> (r: VelaRiType)
    ensures
        r == settle(acc),
{
    match acc {
        Some(t) => t,
        None => VelaRiType::Unknown,
    }
}

pub fn type_from_ast(ty: &Type) -> (r: VelaRiType)
    ensures
        r == from_ast_spec(*ty),
    decreases ty,
{
    match ty {
        Type::Int => VelaRiType::Int,
        Type::Float => VelaRiType::Number,
        Type::Bool => VelaRiType::Boolean,
        Type::String => VelaRiType::String,
        Type::Null => VelaRiType::Null,
        Type::Array(e) => VelaRiType::Array(Box::new(type_from_ast(e))),
        Type::Mapping(k, v) => VelaRiType::Mapping(
            Box::new(type_from_ast(k)),
            Box::new(type_from_ast(v)),
        ),
        Type::Unknown => VelaRiType::Unknown,
    }
}

pub fn name_of_type(ty: &VelaRiType) -> (r: String)
    ensures
        r@ == type_name_spec(*ty),
    decreases ty,
{
    match ty {
        VelaRiType::Int => string_of("Int"),
        VelaRiType::Number => string_of("Float"),
        VelaRiType::Boolean => string_of("Boolean"),
        VelaRiType::String => string_of("String"),
        VelaRiType::Null => string_of("Null"),
        VelaRiType::Array(e) => {
            let mut s = string_of("Array<");
            let inner = name_of_type(e);
            push_str(&mut s, inner.as_str());
            push_str(&mut s, ">");
            s
        },
        VelaRiType::Mapping(k, v) => {
            let mut s = string_of("Map<");
            let a = name_of_type(k);
            push_str(&mut s, a.as_str());
            push_str(&mut s, ", ");
            let b = name_of_type(v);
            push_str(&mut s, b.as_str());
            push_str(&mut s, ">");
            s
        },
        VelaRiType::Unknown => string_of("Unknown"),
    }
}

/// Whether a number literal's text denotes an integer.
pub fn literal_is_integral(text: &String) -> (r: bool)
    ensures
        r == integral_literal(text@),
{
    let cs = crate::text::chars_of(text.as_str());
    let mut seen_point = false;
    let mut i: usize = 0;
    while i < cs.len()
        invariant
            i <= cs.len(),
            cs@ == text@,
            seen_point == (exists|p: int| 0 <= p < i && cs@[p] == '.'),
            forall|p: int, q: int| 0 <= p < q < i && cs@[p] == '.' ==> cs@[q] == '0',
        decreases cs.len() - i,
    {
        if seen_point && cs[i] != '0' {
            let ghost p = choose|p: int| 0 <= p < i && cs@[p] == '.';
            assert(0 <= p < i < cs@.len() && cs@[p] == '.' && cs@[i as int] != '0');
            return false;
        }
        if cs[i] == '.' {
            seen_point = true;
        }
        i += 1;
    }
    true
}

pub fn value_type(value: &Value) -> (r: VelaRiType)
    ensures
        r == value_type_spec(*value),
    decreases value,
{
    match value {
        Value::Number(t) => if literal_is_integral(t) {
            VelaRiType::Int
        } else {
            VelaRiType::Number
        },
        Value::Boolean(_) => VelaRiType::Boolean,
        Value::String(_) => VelaRiType::String,
        Value::Null => VelaRiType::Null,
        Value::Array(xs) => {
            let mut acc = Some(VelaRiType::Unknown);
            let mut i: usize = 0;
            while i < xs.len()
                invariant
                    i <= xs.len(),
                    acc == values_type(xs@.take(i as int)),
                    forall|j: int| 0 <= j < xs@.len() ==> decreases_to!(*value => #[trigger] xs@[j]),
                decreases xs.len() - i,
            {
                let t = value_type(&xs[i]);
                acc = unify_next(acc, &t);
                proof {
                    assert(xs@.take(i + 1).drop_last() =~= xs@.take(i as int));
                }
                i += 1;
            }
            proof {
                assert(xs@.take(xs@.len() as int) =~= xs@);
            }
            VelaRiType::Array(Box::new(settled(acc)))
        },
        Value::Mapping(xs) => {
            let mut acc = Some(VelaRiType::Unknown);
            let mut i: usize = 0;
            while i < xs.len()
                invariant
                    i <= xs.len(),
                    acc == entries_type(xs@.take(i as int)),
                    forall|j: int| 0 <= j < xs@.len() ==> decreases_to!(*value => #[trigger] xs@[j].1),
                decreases xs.len() - i,
            {
                let t = value_type(&xs[i].1);
                acc = unify_next(acc, &t);
                proof {
                    assert(xs@.take(i + 1).drop_last() =~= xs@.take(i as int));
                }
                i += 1;
            }
            proof {
                assert(xs@.take(xs@.len() as int) =~= xs@);
            }
            VelaRiType::Mapping(Box::new(VelaRiType::String), Box::new(settled(acc)))
        },
    }
}


/// A function's signature as semantic analysis records it.
pub struct FunctionSig {
    parameters: Vec<VelaRiType>,
    result: VelaRiType,
}

/// A signature's content.
pub struct SigModel {
    pub parameters: Seq<VelaRiType>,
    pub result: VelaRiType,
}

/// The state of an analyzer: its scopes, innermost last, each a list of
/// declarations where a later one shadows an earlier one; its known
/// functions, the same way; whether it is inside a function; and the declared
/// return type there.
pub struct AnalyzerModel {
    pub scopes: Seq<Seq<(Seq<char>, VelaRiType)>>,
    pub functions: Seq<(Seq<char>, SigModel)>,
    pub in_function: bool,
    pub return_type: Option<VelaRiType>,
}

/// Static analysis of a program: reports use of undeclared variables,
/// redeclarations, type mismatches, misplaced returns and functions that can
/// fall through.
pub struct SemanticAnalyzer {
    scopes: Vec<Vec<(String, VelaRiType)>>,
    functions: Vec<(String, FunctionSig)>,
    in_function: bool,
    return_type: Option<VelaRiType>,
}

pub open spec fn frame_model(f: Seq<(String, VelaRiType)>) -> Seq<(Seq<char>, VelaRiType)> {
    f.map_values(|p: (String, VelaRiType)| (p.0@, p.1))
}

pub closed spec fn sig_model(s: FunctionSig) -> SigModel {
    SigModel { parameters: s.parameters@, result: s.result }
}

/// The value of the last entry for `key`, if any.
pub open spec fn assoc_get<T>(xs: Seq<(Seq<char>, T)>, key: Seq<char>) -> Option<T>
    decreases xs.len(),
{
    if xs.len() == 0 {
        None
    } else if xs.last().0 == key {
        Some(xs.last().1)
    } else {
        assoc_get(xs.drop_last(), key)
    }
}

/// The type of `name` in the innermost scope that declares it.
pub open spec fn scopes_lookup(
    scopes: Seq<Seq<(Seq<char>, VelaRiType)>>,
    name: Seq<char>,
) -> Option<VelaRiType>
    decreases scopes.len(),
{
    if scopes.len() == 0 {
        None
    } else {
        match assoc_get(scopes.last(), name) {
            Some(t) => Some(t),
            None => scopes_lookup(scopes.drop_last(), name),
        }
    }
}

pub open spec fn mismatch_message(expected: VelaRiType, actual: VelaRiType) -> Seq<char> {
    "type mismatch: expected "@ + type_name_spec(expected) + ", found "@ + type_name_spec(actual)
}

/// The error, if any, for a value of type `actual` where `expected` is required.
pub open spec fn mismatch(expected: VelaRiType, actual: VelaRiType, span: Span) -> Seq<ErrorModel> {
    if compatible_spec(expected, actual) {
        Seq::empty()
    } else {
        seq![(mismatch_message(expected, actual), span)]
    }
}

pub open spec fn undeclared_message(name: Seq<char>) -> Seq<char> {
    "variable `"@ + name + "` used before initialization"@
}

pub open spec fn op_name(op: Op) -> Seq<char> {
    match op {
        Op::Add => "Add"@,
        Op::Sub => "Sub"@,
        Op::Mul => "Mul"@,
        Op::Div => "Div"@,
        Op::Eq => "Eq"@,
        Op::And => "And"@,
        Op::Or => "Or"@,
        Op::Neg => "Neg"@,
    }
}

pub open spec fn arity_message(name: Seq<char>, expected: nat, got: nat) -> Seq<char> {
    "function `"@ + name + "` expects "@ + decimal(expected) + " arguments, got "@ + decimal(got)
}

/// The type of an expression (`Err` where none can be given) and the errors
/// found in it, in the order in which they are reported.
pub open spec fn expr_check(m: AnalyzerModel, e: Expr) -> (Result<VelaRiType, ()>, Seq<ErrorModel>)
    decreases e, 1nat,
{
    match e {
        Expr::Literal(v, _) => (Ok(value_type_spec(v)), Seq::empty()),
        Expr::Variable(name, span) => match scopes_lookup(m.scopes, name@) {
            Some(t) => (Ok(t), Seq::empty()),
            None => (Err(()), seq![(undeclared_message(name@), span)]),
        },
        Expr::Array(elements, _) => {
            let (t, es) = elements_check(m, elements@);
            (Ok(VelaRiType::Array(Box::new(settle(t)))), es)
        },
        Expr::Mapping(entries, _) => {
            let (t, es) = entries_check(m, entries@);
            (Ok(VelaRiType::Mapping(Box::new(VelaRiType::String), Box::new(settle(t)))), es)
        },
        Expr::Index { target, index, span } => {
            let (rt, e1) = expr_check(m, *target);
            match rt {
                Err(_) => (Err(()), e1),
                Ok(tt) => {
                    let (ri, e2) = expr_check(m, *index);
                    match ri {
                        Err(_) => (Err(()), e1 + e2),
                        Ok(it) => match tt {
                            VelaRiType::Array(el) => (Ok(*el), e1 + e2 + mismatch(VelaRiType::Int, it, span)),
                            VelaRiType::Mapping(k, v) => (Ok(*v), e1 + e2 + mismatch(*k, it, span)),
                            VelaRiType::Unknown => (Ok(VelaRiType::Unknown), e1 + e2),
                            _ => (
                                Err(()),
                                e1 + e2 + seq![("cannot index value of type "@ + type_name_spec(tt), span)],
                            ),
                        },
                    }
                },
            }
        },
        Expr::Call { name, arguments, span } => {
            if name@ == "length"@ {
                let e0 = if arguments@.len() != 1 {
                    seq![("length expects one argument"@, span)]
                } else {
                    Seq::empty()
                };
                (Ok(VelaRiType::Int), e0 + arguments_errors(m, arguments@))
            } else {
                match assoc_get(m.functions, name@) {
                    None => (
                        Ok(VelaRiType::Unknown),
                        seq![("unknown function `"@ + name@ + "`"@, span)] + arguments_errors(
                            m,
                            arguments@,
                        ),
                    ),
                    Some(sig) => {
                        let e0 = if sig.parameters.len() != arguments@.len() {
                            seq![
                                (
                                    arity_message(name@, sig.parameters.len(), arguments@.len()),
                                    span,
                                ),
                            ]
                        } else {
                            Seq::empty()
                        };
                        (Ok(sig.result), e0 + call_check(m, sig.parameters, arguments@))
                    },
                }
            }
        },
        Expr::Unary { op, expr, span } => {
            let (r, e1) = expr_check(m, *expr);
            match r {
                Err(_) => (Err(()), e1),
                Ok(t) => if op == Op::Neg && is_numeric(t) {
                    (Ok(t), e1)
                } else {
                    (Err(()), e1 + seq![("unary minus requires Number"@, span)])
                },
            }
        },
        Expr::Binary { left, op, right, span } => {
            let (rl, e1) = expr_check(m, *left);
            match rl {
                Err(_) => (Err(()), e1),
                Ok(lt) => {
                    let (rr, e2) = expr_check(m, *right);
                    match rr {
                        Err(_) => (Err(()), e1 + e2),
                        Ok(rt) => binary_check(op, lt, rt, span, e1 + e2),
                    }
                },
            }
        },
    }
}

/// The result of a binary operation on operands of the given types.
pub open spec fn binary_check(
    op: Op,
    lt: VelaRiType,
    rt: VelaRiType,
    span: Span,
    es: Seq<ErrorModel>,
) -> (Result<VelaRiType, ()>, Seq<ErrorModel>) {
    let arithmetic = op == Op::Add || op == Op::Sub || op == Op::Mul || op == Op::Div;
    if arithmetic && ((is_numeric(lt) && is_numeric(rt)) || lt == VelaRiType::Unknown || rt
        == VelaRiType::Unknown) {
        (Ok(merge_spec(lt, rt)), es)
    } else if op == Op::Add && lt == VelaRiType::String && rt == VelaRiType::String {
        (Ok(VelaRiType::String), es)
    } else if op == Op::Eq && compatible_spec(lt, rt) {
        (Ok(VelaRiType::Boolean), es)
    } else if (op == Op::And || op == Op::Or) && lt == VelaRiType::Boolean && rt
        == VelaRiType::Boolean {
        (Ok(VelaRiType::Boolean), es)
    } else {
        (
            Err(()),
            es + seq![
                (
                    "invalid operation "@ + op_name(op) + " for "@ + type_name_spec(lt)
                        + " and "@ + type_name_spec(rt),
                    span,
                ),
            ],
        )
    }
}

/// The unified type of the array elements that have one (`None` once two
/// conflict), and the elements' errors.
pub open spec fn elements_check(m: AnalyzerModel, es: Seq<Expr>) -> (Option<VelaRiType>, Seq<ErrorModel>)
    decreases es, 0nat,
{
    if es.len() == 0 {
        (Some(VelaRiType::Unknown), Seq::empty())
    } else {
        let (t0, e0) = elements_check(m, es.drop_last());
        let (r, e1) = expr_check(m, es.last());
        match r {
            Ok(t) => (unify_step(t0, t), e0 + e1),
            Err(_) => (t0, e0 + e1),
        }
    }
}

/// The unified type of the map values that have one (`None` once two
/// conflict), and the values' errors.
pub open spec fn entries_check(m: AnalyzerModel, es: Seq<(String, Expr)>) -> (
    Option<VelaRiType>,
    Seq<ErrorModel>,
)
    decreases es, 0nat,
{
    if es.len() == 0 {
        (Some(VelaRiType::Unknown), Seq::empty())
    } else {
        let (t0, e0) = entries_check(m, es.drop_last());
        let (r, e1) = expr_check(m, es.last().1);
        match r {
            Ok(t) => (unify_step(t0, t), e0 + e1),
            Err(_) => (t0, e0 + e1),
        }
    }
}

/// A failing expression check always reports an error, and literals, array
/// and map literals and calls always have a type.
pub proof fn lemma_failure_is_reported(m: AnalyzerModel, e: Expr)
    ensures
        expr_check(m, e).0 is Err ==> expr_check(m, e).1.len() > 0,
        (e is Literal || e is Array || e is Mapping || e is Call) ==> expr_check(m, e).0 is Ok,
    decreases e,
{
    match e {
        Expr::Index { target, index, .. } => {
            lemma_failure_is_reported(m, *target);
            lemma_failure_is_reported(m, *index);
        },
        Expr::Unary { expr, .. } => {
            lemma_failure_is_reported(m, *expr);
        },
        Expr::Binary { left, right, .. } => {
            lemma_failure_is_reported(m, *left);
            lemma_failure_is_reported(m, *right);
        },
        _ => {},
    }
}

/// The checked binary expression `left op right`.
pub open spec fn binary_of(m: AnalyzerModel, left: Expr, op: Op, right: Expr, span: Span) -> (
    Result<VelaRiType, ()>,
    Seq<ErrorModel>,
) {
    expr_check(m, Expr::Binary { left: Box::new(left), op, right: Box::new(right), span })
}

/// Joining two strings with `+` is string concatenation: it has type
/// `String`, and the only errors are those of the operands.
pub proof fn lemma_string_concatenation(m: AnalyzerModel, left: Expr, right: Expr, span: Span)
    requires
        expr_check(m, left).0 == Ok::<VelaRiType, ()>(VelaRiType::String),
        expr_check(m, right).0 == Ok::<VelaRiType, ()>(VelaRiType::String),
    ensures
        binary_of(m, left, Op::Add, right, span) == (
            Ok::<VelaRiType, ()>(VelaRiType::String),
            expr_check(m, left).1 + expr_check(m, right).1,
        ),
{
}

/// Arithmetic on numbers type-checks with no error of its own: on two
/// `Int`s it gives an `Int`, and where either operand is a `Float` it gives
/// a `Float`.
pub proof fn lemma_numeric_arithmetic(m: AnalyzerModel, left: Expr, op: Op, right: Expr, span: Span, lt: VelaRiType, rt: VelaRiType)
    requires
        op == Op::Add || op == Op::Sub || op == Op::Mul || op == Op::Div,
        lt == VelaRiType::Int || lt == VelaRiType::Number,
        rt == VelaRiType::Int || rt == VelaRiType::Number,
        expr_check(m, left).0 == Ok::<VelaRiType, ()>(lt),
        expr_check(m, right).0 == Ok::<VelaRiType, ()>(rt),
    ensures
        binary_of(m, left, op, right, span).1 == expr_check(m, left).1 + expr_check(m, right).1,
        lt == VelaRiType::Int && rt == VelaRiType::Int ==> binary_of(m, left, op, right, span).0
            == Ok::<VelaRiType, ()>(VelaRiType::Int),
        (lt == VelaRiType::Number || rt == VelaRiType::Number) ==> binary_of(m, left, op, right, span).0
            == Ok::<VelaRiType, ()>(VelaRiType::Number),
{
}

/// Comparing two values of one type with `is` gives a `Boolean`, and
/// `and` and `or` on two `Boolean`s give a `Boolean`; neither adds an error.
pub proof fn lemma_boolean_results(m: AnalyzerModel, left: Expr, op: Op, right: Expr, span: Span, t: VelaRiType)
    requires
        op == Op::Eq || ((op == Op::And || op == Op::Or) && t == VelaRiType::Boolean),
        expr_check(m, left).0 == Ok::<VelaRiType, ()>(t),
        expr_check(m, right).0 == Ok::<VelaRiType, ()>(t),
    ensures
        binary_of(m, left, op, right, span) == (
            Ok::<VelaRiType, ()>(VelaRiType::Boolean),
            expr_check(m, left).1 + expr_check(m, right).1,
        ),
{
    lemma_compatible_laws(t);
}

/// Adding a string and a number, or applying `and` to numbers, is refused
/// with exactly one error of its own, after the operands' errors.
pub proof fn lemma_mixed_operands_refused(m: AnalyzerModel, left: Expr, op: Op, right: Expr, span: Span, lt: VelaRiType, rt: VelaRiType)
    requires
        (op == Op::Add && lt == VelaRiType::String && (rt == VelaRiType::Int || rt == VelaRiType::Number))
            || ((op == Op::And || op == Op::Or) && (lt == VelaRiType::Int || lt == VelaRiType::Number)),
        expr_check(m, left).0 == Ok::<VelaRiType, ()>(lt),
        expr_check(m, right).0 == Ok::<VelaRiType, ()>(rt),
    ensures
        binary_of(m, left, op, right, span).0 is Err,
        binary_of(m, left, op, right, span).1.len() == expr_check(m, left).1.len() + expr_check(m, right).1.len() + 1,
        binary_of(m, left, op, right, span).1.take(
            (expr_check(m, left).1.len() + expr_check(m, right).1.len()) as int,
        ) == expr_check(m, left).1 + expr_check(m, right).1,
{
    let e = expr_check(m, left).1 + expr_check(m, right).1;
    assert(binary_of(m, left, op, right, span).1.take(e.len() as int) =~= e);
}

/// Unary minus keeps the type of a number and adds no error; on any other
/// type it fails with one error of its own.
pub proof fn lemma_unary_minus(m: AnalyzerModel, operand: Expr, span: Span, t: VelaRiType)
    requires
        expr_check(m, operand).0 == Ok::<VelaRiType, ()>(t),
    ensures
        ({
            let r = expr_check(m, Expr::Unary { op: Op::Neg, expr: Box::new(operand), span });
            &&& (t == VelaRiType::Int || t == VelaRiType::Number) ==> r == (
                Ok::<VelaRiType, ()>(t),
                expr_check(m, operand).1,
            )
            &&& !(t == VelaRiType::Int || t == VelaRiType::Number) ==> r.0 is Err && r.1 == expr_check(
                m,
                operand,
            ).1.push(("unary minus requires Number"@, span))
        }),
{
    let r = expr_check(m, Expr::Unary { op: Op::Neg, expr: Box::new(operand), span });
    if !(t == VelaRiType::Int || t == VelaRiType::Number) {
        assert(r.1 =~= expr_check(m, operand).1.push(("unary minus requires Number"@, span)));
    }
}

/// A name just declared in the innermost scope reads back with the type it
/// was declared with, and reading it reports nothing.
pub proof fn lemma_declared_variable(m: AnalyzerModel, name: String, t: VelaRiType, span: Span)
    requires
        m.scopes.len() >= 1,
    ensures
        expr_check(declare(m, name@, t), Expr::Variable(name, span)) == (
            Ok::<VelaRiType, ()>(t),
            Seq::<ErrorModel>::empty(),
        ),
{
    let d = declare(m, name@, t);
    assert(d.scopes.last() == m.scopes.last().push((name@, t)));
    assert(d.scopes.last().drop_last() =~= m.scopes.last());
}

/// A name that no scope declares cannot be read: reading it fails with the
/// error that names it.
pub proof fn lemma_undeclared_variable(m: AnalyzerModel, name: String, span: Span)
    requires
        scopes_lookup(m.scopes, name@) is None,
    ensures
        expr_check(m, Expr::Variable(name, span)) == (
            Err::<VelaRiType, ()>(()),
            seq![("variable `"@ + name@ + "` used before initialization"@, span)],
        ),
{
}

/// `let NAME be VALUE` with no annotation, where `NAME` is new in the
/// innermost scope and `VALUE` has type `t`, declares `NAME` with type `t`
/// there and reports only the value's errors.
pub proof fn lemma_let_declares(m: AnalyzerModel, name: String, value: Expr, span: Span, t: VelaRiType)
    requires
        m.scopes.len() >= 1,
        assoc_get(m.scopes.last(), name@) is None,
        expr_check(m, value).0 == Ok::<VelaRiType, ()>(t),
    ensures
        ({
            let (m2, es) = stmt_check(m, Stmt::Let { name, annotation: None, value, span });
            &&& es == expr_check(m, value).1
            &&& scopes_lookup(m2.scopes, name@) == Some(t)
            &&& m2.scopes.len() == m.scopes.len()
        }),
{
    let (m2, es) = stmt_check(m, Stmt::Let { name, annotation: None, value, span });
    assert(es =~= expr_check(m, value).1);
    assert(m2.scopes.last().drop_last() =~= m.scopes.last());
}

/// `let NAME: T be VALUE` where `VALUE`'s type cannot stand for `T` reports
/// the mismatch, naming both types, at the statement.
pub proof fn lemma_let_annotation_mismatch(
    m: AnalyzerModel,
    name: String,
    annotation: Type,
    value: Expr,
    span: Span,
    t: VelaRiType,
)
    requires
        expr_check(m, value).0 == Ok::<VelaRiType, ()>(t),
        !compatible_spec(from_ast_spec(annotation), t),
    ensures
        stmt_check(m, Stmt::Let { name, annotation: Some(annotation), value, span }).1.contains(
            (
                "type mismatch: expected "@ + type_name_spec(from_ast_spec(annotation)) + ", found "@
                    + type_name_spec(t),
                span,
            ),
        ),
{
    let es = stmt_check(m, Stmt::Let { name, annotation: Some(annotation), value, span }).1;
    let e1 = expr_check(m, value).1;
    assert(es[e1.len() as int] == (mismatch_message(from_ast_spec(annotation), t), span));
}

/// Where a declared type accepts a value's type, and neither is `Unknown`,
/// the value's type widens to the declared one.
pub proof fn lemma_compatible_widens(expected: VelaRiType, actual: VelaRiType)
    requires
        compatible_spec(expected, actual),
        expected != VelaRiType::Unknown,
        actual != VelaRiType::Unknown,
    ensures
        merge_spec(expected, actual) == expected,
        unify_spec(actual, expected) == Some(expected),
{
}

/// The type of every array element that has one is no wider than the type
/// the elements unified to.
proof fn lemma_elements_bound(m: AnalyzerModel, es: Seq<Expr>, i: int, a: VelaRiType)
    requires
        0 <= i < es.len(),
        expr_check(m, es[i]).0 == Ok::<VelaRiType, ()>(a),
        elements_check(m, es).0 is Some,
    ensures
        narrower(a, elements_check(m, es).0->0),
    decreases es.len(),
{
    let init = es.drop_last();
    let t0 = elements_check(m, init).0;
    if i == es.len() - 1 {
        lemma_unify_upper(t0->0, a);
    } else {
        assert(init[i] == es[i]);
        lemma_elements_bound(m, init, i, a);
        match expr_check(m, es.last()).0 {
            Ok(t) => lemma_step_bound(a, t0->0, t),
            Err(_) => {},
        }
    }
}

/// The same for the values of a map literal.
proof fn lemma_entries_bound(m: AnalyzerModel, es: Seq<(String, Expr)>, i: int, a: VelaRiType)
    requires
        0 <= i < es.len(),
        expr_check(m, es[i].1).0 == Ok::<VelaRiType, ()>(a),
        entries_check(m, es).0 is Some,
    ensures
        narrower(a, entries_check(m, es).0->0),
    decreases es.len(),
{
    let init = es.drop_last();
    let t0 = entries_check(m, init).0;
    if i == es.len() - 1 {
        lemma_unify_upper(t0->0, a);
    } else {
        assert(init[i] == es[i]);
        lemma_entries_bound(m, init, i, a);
        match expr_check(m, es.last().1).0 {
            Ok(t) => lemma_step_bound(a, t0->0, t),
            Err(_) => {},
        }
    }
}

/// An array literal with two elements of conflicting types (such as `1` and
/// `"wrong"`) has the element type `Unknown`, whatever its other elements
/// and their order; so it never passes for an array of either type.
pub proof fn lemma_conflicting_elements(
    m: AnalyzerModel,
    elements: Vec<Expr>,
    span: Span,
    i: int,
    j: int,
    a: VelaRiType,
    b: VelaRiType,
)
    requires
        0 <= i < elements@.len(),
        0 <= j < elements@.len(),
        expr_check(m, elements@[i]).0 == Ok::<VelaRiType, ()>(a),
        expr_check(m, elements@[j]).0 == Ok::<VelaRiType, ()>(b),
        unify_spec(a, b) is None,
    ensures
        elements_check(m, elements@).0 is None,
        expr_check(m, Expr::Array(elements, span)).0 == Ok::<VelaRiType, ()>(
            VelaRiType::Array(Box::new(VelaRiType::Unknown)),
        ),
{
    if elements_check(m, elements@).0 is Some {
        let c = elements_check(m, elements@).0->0;
        lemma_elements_bound(m, elements@, i, a);
        lemma_elements_bound(m, elements@, j, b);
        lemma_unify_below(a, b, c);
    }
}

/// A map literal with two values of conflicting types has the value type
/// `Unknown`, whatever its other entries and their order.
pub proof fn lemma_conflicting_entries(
    m: AnalyzerModel,
    entries: Vec<(String, Expr)>,
    span: Span,
    i: int,
    j: int,
    a: VelaRiType,
    b: VelaRiType,
)
    requires
        0 <= i < entries@.len(),
        0 <= j < entries@.len(),
        expr_check(m, entries@[i].1).0 == Ok::<VelaRiType, ()>(a),
        expr_check(m, entries@[j].1).0 == Ok::<VelaRiType, ()>(b),
        unify_spec(a, b) is None,
    ensures
        entries_check(m, entries@).0 is None,
        expr_check(m, Expr::Mapping(entries, span)).0 == Ok::<VelaRiType, ()>(
            VelaRiType::Mapping(Box::new(VelaRiType::String), Box::new(VelaRiType::Unknown)),
        ),
{
    if entries_check(m, entries@).0 is Some {
        let c = entries_check(m, entries@).0->0;
        lemma_entries_bound(m, entries@, i, a);
        lemma_entries_bound(m, entries@, j, b);
        lemma_unify_below(a, b, c);
    }
}

/// The errors of arguments whose types are not used.
pub open spec fn arguments_errors(m: AnalyzerModel, es: Seq<Expr>) -> Seq<ErrorModel>
    decreases es, 0nat,
{
    if es.len() == 0 {
        Seq::empty()
    } else {
        arguments_errors(m, es.drop_last()) + expr_check(m, es.last()).1
    }
}

/// The errors of call arguments checked against parameter types by position.
pub open spec fn call_check(m: AnalyzerModel, params: Seq<VelaRiType>, es: Seq<Expr>) -> Seq<
    ErrorModel,
>
    decreases es, 0nat,
{
    if es.len() == 0 {
        Seq::empty()
    } else {
        let position = es.len() - 1;
        let (r, e1) = expr_check(m, es.last());
        let e2 = match r {
            Ok(actual) => if position < params.len() {
                mismatch(params[position], actual, expr_span(es.last()))
            } else {
                Seq::empty()
            },
            Err(_) => Seq::empty(),
        };
        call_check(m, params, es.drop_last()) + e1 + e2
    }
}


/// `m` with a new innermost scope.
pub open spec fn enter_scope(m: AnalyzerModel) -> AnalyzerModel {
    AnalyzerModel { scopes: m.scopes.push(Seq::empty()), ..m }
}

/// `m` without its innermost scope.
pub open spec fn leave_scope(m: AnalyzerModel) -> AnalyzerModel {
    AnalyzerModel { scopes: m.scopes.drop_last(), ..m }
}

/// `m` with `name` declared of type `t` in its innermost scope.
pub open spec fn declare(m: AnalyzerModel, name: Seq<char>, t: VelaRiType) -> AnalyzerModel {
    AnalyzerModel {
        scopes: m.scopes.update(m.scopes.len() - 1, m.scopes.last().push((name, t))),
        ..m
    }
}

/// The type of an optional annotation, `Unknown` where there is none.
pub open spec fn annotation_type(a: Option<Type>) -> VelaRiType {
    match a {
        Some(t) => from_ast_spec(t),
        None => VelaRiType::Unknown,
    }
}

/// `m` with the parameters declared in order.
pub open spec fn declare_parameters(m: AnalyzerModel, ps: Seq<(String, Option<Type>)>) -> AnalyzerModel
    decreases ps.len(),
{
    if ps.len() == 0 {
        m
    } else {
        declare(declare_parameters(m, ps.drop_last()), ps.last().0@, annotation_type(ps.last().1))
    }
}

/// Whether every path through `s` ends in a `return`.
pub open spec fn statement_returns_spec(s: Stmt) -> bool
    decreases s, 1nat,
{
    match s {
        Stmt::Return { .. } => true,
        Stmt::Block(ss) => block_returns_spec(ss@),
        Stmt::Conditional { then_branch, otherwise_branch, .. } => match otherwise_branch {
            Some(o) => block_returns_spec(then_branch@) && block_returns_spec(o@),
            None => false,
        },
        _ => false,
    }
}

/// Whether some statement of the block returns on every path.
pub open spec fn block_returns_spec(ss: Seq<Stmt>) -> bool
    decreases ss, 0nat,
{
    if ss.len() == 0 {
        false
    } else {
        block_returns_spec(ss.drop_last()) || statement_returns_spec(ss.last())
    }
}

/// Whether a checked expression has the given type.
pub open spec fn has_type(r: Result<VelaRiType, ()>, t: VelaRiType) -> bool {
    r == Ok::<VelaRiType, ()>(t)
}

pub open spec fn has_numeric_type(r: Result<VelaRiType, ()>) -> bool {
    match r {
        Ok(t) => is_numeric(t),
        Err(_) => false,
    }
}

pub open spec fn error_if(cond: bool, message: Seq<char>, span: Span) -> Seq<ErrorModel> {
    if cond {
        seq![(message, span)]
    } else {
        Seq::empty()
    }
}

/// The state after a statement and the errors found in it, in order.
pub open spec fn stmt_check(m: AnalyzerModel, s: Stmt) -> (AnalyzerModel, Seq<ErrorModel>)
    decreases s, 1nat,
{
    match s {
        Stmt::Block(ss) => stmts_check(m, ss@),
        Stmt::Let { name, annotation, value, span } => {
            let (r, e1) = expr_check(m, value);
            match r {
                Err(_) => (m, e1),
                Ok(actual) => {
                    let e2 = match annotation {
                        Some(a) => mismatch(from_ast_spec(a), actual, span),
                        None => Seq::empty(),
                    };
                    if assoc_get(m.scopes.last(), name@) is Some {
                        (
                            m,
                            e1 + e2 + seq![
                                ("variable `"@ + name@ + "` is already declared in this scope"@, span),
                            ],
                        )
                    } else {
                        let t = match annotation {
                            Some(a) => from_ast_spec(a),
                            None => actual,
                        };
                        (declare(m, name@, t), e1 + e2)
                    }
                },
            }
        },
        Stmt::Assign { name, value, span } => {
            let expected = scopes_lookup(m.scopes, name@);
            let e0 = error_if(expected is None, undeclared_message(name@), span);
            let (r, e1) = expr_check(m, value);
            let e2 = match (r, expected) {
                (Ok(actual), Some(x)) => mismatch(x, actual, span),
                _ => Seq::empty(),
            };
            (m, e0 + e1 + e2)
        },
        Stmt::Print(e) => (m, expr_check(m, e).1),
        Stmt::Assert(e) => {
            let (r, e1) = expr_check(m, e);
            (
                m,
                e1 + error_if(
                    !has_type(r, VelaRiType::Boolean),
                    "assert condition must be Boolean"@,
                    expr_span(e),
                ),
            )
        },
        Stmt::Return { value, span } => {
            let e0 = error_if(!m.in_function, "return is only valid inside a function"@, span);
            let (actual, e1) = match value {
                Some(x) => {
                    let (r, es) = expr_check(m, x);
                    (
                        match r {
                            Ok(t) => t,
                            Err(_) => VelaRiType::Unknown,
                        },
                        es,
                    )
                },
                None => (VelaRiType::Null, Seq::empty()),
            };
            let e2 = match m.return_type {
                Some(x) => mismatch(x, actual, span),
                None => Seq::empty(),
            };
            (m, e0 + e1 + e2)
        },
        Stmt::Function { name, parameters, return_type, body, span } => {
            let m1 = declare_parameters(enter_scope(m), parameters@);
            let m2 = AnalyzerModel {
                in_function: true,
                return_type: match return_type {
                    Some(t) => Some(from_ast_spec(t)),
                    None => None,
                },
                ..m1
            };
            let (m3, e1) = stmts_check(m2, body@);
            let e2 = error_if(
                !block_returns_spec(body@),
                "function `"@ + name@ + "` can fall through without returning"@,
                span,
            );
            (
                AnalyzerModel {
                    scopes: m3.scopes.drop_last(),
                    functions: m3.functions,
                    in_function: m.in_function,
                    return_type: m.return_type,
                },
                e1 + e2,
            )
        },
        Stmt::Conditional { condition, then_branch, otherwise_branch, .. } => {
            let (r, e0) = expr_check(m, condition);
            let e1 = error_if(
                !has_type(r, VelaRiType::Boolean),
                "if condition must be Boolean"@,
                expr_span(condition),
            );
            let (m1, e2) = stmts_check(enter_scope(m), then_branch@);
            let m2 = leave_scope(m1);
            match otherwise_branch {
                Some(o) => {
                    let (m3, e3) = stmts_check(enter_scope(m2), o@);
                    (leave_scope(m3), e0 + e1 + e2 + e3)
                },
                None => (m2, e0 + e1 + e2),
            }
        },
        Stmt::RepeatLoop { iterations, body, .. } => {
            let (r, e0) = expr_check(m, iterations);
            let e1 = error_if(
                !has_numeric_type(r),
                "repeat count must be Number"@,
                expr_span(iterations),
            );
            let (m1, e2) = stmts_check(enter_scope(m), body@);
            (leave_scope(m1), e0 + e1 + e2)
        },
        Stmt::CreateWindow { width, height, .. } => {
            let (rw, ew) = expr_check(m, width);
            let (rh, eh) = expr_check(m, height);
            (
                m,
                ew + error_if(
                    !has_numeric_type(rw),
                    "window dimensions must be Number"@,
                    expr_span(width),
                ) + eh + error_if(
                    !has_numeric_type(rh),
                    "window dimensions must be Number"@,
                    expr_span(height),
                ),
            )
        },
    }
}

/// The state after a sequence of statements and their errors, in order.
pub open spec fn stmts_check(m: AnalyzerModel, ss: Seq<Stmt>) -> (AnalyzerModel, Seq<ErrorModel>)
    decreases ss, 0nat,
{
    if ss.len() == 0 {
        (m, Seq::empty())
    } else {
        let (m1, e1) = stmts_check(m, ss.drop_last());
        let (m2, e2) = stmt_check(m1, ss.last());
        (m2, e1 + e2)
    }
}

/// The names that `let` statements declare in the scope a statement runs
/// in: its own `let`, and those of blocks nested directly in it.
pub open spec fn let_names(s: Stmt) -> Set<Seq<char>>
    decreases s, 1nat,
{
    match s {
        Stmt::Let { name, .. } => set![name@],
        Stmt::Block(ss) => let_names_all(ss@),
        _ => Set::empty(),
    }
}

pub open spec fn let_names_all(ss: Seq<Stmt>) -> Set<Seq<char>>
    decreases ss, 0nat,
{
    if ss.len() == 0 {
        Set::empty()
    } else {
        let_names_all(ss.drop_last()).union(let_names(ss.last()))
    }
}

/// From `m` to `m2` only the innermost scope grew, by declarations of
/// `names`: the number of scopes, the outer scopes, the functions and the
/// function context stay, and the innermost scope keeps its declarations.
pub open spec fn frame_kept(m: AnalyzerModel, m2: AnalyzerModel, names: Set<Seq<char>>) -> bool {
    let n = m.scopes.len();
    &&& m2.scopes.len() == n
    &&& m2.functions == m.functions
    &&& m2.in_function == m.in_function
    &&& m2.return_type == m.return_type
    &&& m2.scopes.take(n - 1) == m.scopes.take(n - 1)
    &&& m.scopes.last().is_prefix_of(m2.scopes.last())
    &&& forall|i: int|
        m.scopes.last().len() <= i < m2.scopes.last().len() ==> names.contains(
            #[trigger] m2.scopes.last()[i].0,
        )
}

proof fn lemma_frame_trans(
    m: AnalyzerModel,
    m1: AnalyzerModel,
    m2: AnalyzerModel,
    a: Set<Seq<char>>,
    b: Set<Seq<char>>,
)
    requires
        m.scopes.len() >= 1,
        frame_kept(m, m1, a),
        frame_kept(m1, m2, b),
    ensures
        frame_kept(m, m2, a.union(b)),
{
    let n = m.scopes.len();
    assert(m2.scopes.take(n - 1) =~= m.scopes.take(n - 1));
    assert(m.scopes.last().is_prefix_of(m2.scopes.last()));
    assert forall|i: int|
        m.scopes.last().len() <= i < m2.scopes.last().len() implies a.union(b).contains(
            #[trigger] m2.scopes.last()[i].0,
        ) by {
        if i < m1.scopes.last().len() {
            assert(m2.scopes.last()[i] == m1.scopes.last()[i]);
            assert(a.contains(m1.scopes.last()[i].0));
        } else {
            assert(b.contains(m2.scopes.last()[i].0));
        }
    }
}

/// Declaring parameters changes only the innermost scope.
proof fn lemma_parameters_frame(m: AnalyzerModel, ps: Seq<(String, Option<Type>)>)
    requires
        m.scopes.len() >= 1,
    ensures
        declare_parameters(m, ps).scopes.len() == m.scopes.len(),
        declare_parameters(m, ps).scopes.drop_last() == m.scopes.drop_last(),
        declare_parameters(m, ps).functions == m.functions,
    decreases ps.len(),
{
    if ps.len() > 0 {
        lemma_parameters_frame(m, ps.drop_last());
        let d = declare_parameters(m, ps.drop_last());
        assert(declare_parameters(m, ps).scopes.drop_last() =~= d.scopes.drop_last());
    }
}

/// A nested scope, checked and closed again, leaves the scopes as they
/// were and the functions too.
proof fn lemma_nested_scope(m: AnalyzerModel, inner: AnalyzerModel, ss: Seq<Stmt>)
    requires
        m.scopes.len() >= 1,
        inner.scopes.len() == m.scopes.len() + 1,
        inner.scopes.drop_last() == m.scopes,
        inner.functions == m.functions,
    ensures
        stmts_check(inner, ss).0.scopes.drop_last() == m.scopes,
        stmts_check(inner, ss).0.functions == m.functions,
        stmts_check(inner, ss).0.scopes.len() == m.scopes.len() + 1,
        stmts_check(inner, ss).0.in_function == inner.in_function,
        stmts_check(inner, ss).0.return_type == inner.return_type,
    decreases ss, 1nat,
{
    lemma_stmts_frame(inner, ss);
    let r = stmts_check(inner, ss).0;
    let n = inner.scopes.len();
    assert(r.scopes.drop_last() =~= r.scopes.take(n - 1));
    assert(inner.scopes.drop_last() =~= inner.scopes.take(n - 1));
}

/// The statement checker keeps its frame: the number of scopes, the outer
/// scopes, the functions and whether and what it returns inside a function
/// stay; the innermost scope keeps every declaration it had and gains only
/// names that `let` statements reached through blocks declare.
pub proof fn lemma_stmt_frame(m: AnalyzerModel, s: Stmt)
    requires
        m.scopes.len() >= 1,
    ensures
        frame_kept(m, stmt_check(m, s).0, let_names(s)),
    decreases s, 1nat,
{
    let n = m.scopes.len();
    assert(m.scopes.last().is_prefix_of(m.scopes.last()));
    match s {
        Stmt::Block(ss) => {
            lemma_stmts_frame(m, ss@);
        },
        Stmt::Let { name, annotation, value, span } => {
            let r = stmt_check(m, s).0;
            if r != m {
                assert(r.scopes.take(n - 1) =~= m.scopes.take(n - 1));
                assert(m.scopes.last().is_prefix_of(r.scopes.last()));
                assert(r.scopes.last()[m.scopes.last().len() as int].0 == name@);
            }
        },
        Stmt::Function { name, parameters, return_type, body, span } => {
            let e = enter_scope(m);
            assert(e.scopes.drop_last() =~= m.scopes);
            lemma_parameters_frame(e, parameters@);
            let m1 = declare_parameters(e, parameters@);
            let m2 = AnalyzerModel {
                in_function: true,
                return_type: match return_type {
                    Some(t) => Some(from_ast_spec(t)),
                    None => None,
                },
                ..m1
            };
            lemma_nested_scope(m, m2, body@);
            let r = stmt_check(m, s).0;
            assert(r.scopes =~= m.scopes);
        },
        Stmt::Conditional { condition, then_branch, otherwise_branch, .. } => {
            let e = enter_scope(m);
            assert(e.scopes.drop_last() =~= m.scopes);
            lemma_nested_scope(m, e, then_branch@);
            let m2 = leave_scope(stmts_check(e, then_branch@).0);
            assert(m2.scopes =~= m.scopes);
            match otherwise_branch {
                Some(o) => {
                    let e2 = enter_scope(m2);
                    assert(e2.scopes.drop_last() =~= m.scopes);
                    lemma_nested_scope(m, e2, o@);
                    assert(stmt_check(m, s).0.scopes =~= m.scopes);
                },
                None => {},
            }
        },
        Stmt::RepeatLoop { iterations, body, .. } => {
            let e = enter_scope(m);
            assert(e.scopes.drop_last() =~= m.scopes);
            lemma_nested_scope(m, e, body@);
            assert(stmt_check(m, s).0.scopes =~= m.scopes);
        },
        _ => {},
    }
}

/// The same frame for a sequence of statements.
pub proof fn lemma_stmts_frame(m: AnalyzerModel, ss: Seq<Stmt>)
    requires
        m.scopes.len() >= 1,
    ensures
        frame_kept(m, stmts_check(m, ss).0, let_names_all(ss)),
    decreases ss, 0nat,
{
    if ss.len() == 0 {
        assert(m.scopes.last().is_prefix_of(m.scopes.last()));
    } else {
        lemma_stmts_frame(m, ss.drop_last());
        let m1 = stmts_check(m, ss.drop_last()).0;
        lemma_stmt_frame(m1, ss.last());
        lemma_frame_trans(m, m1, stmt_check(m1, ss.last()).0, let_names_all(ss.drop_last()), let_names(ss.last()));
    }
}

/// The signature that a function declaration gives.
pub open spec fn declared_sig(
    parameters: Seq<(String, Option<Type>)>,
    return_type: Option<Type>,
) -> SigModel {
    SigModel {
        parameters: parameters.map_values(|p: (String, Option<Type>)| annotation_type(p.1)),
        result: annotation_type(return_type),
    }
}

/// The function table after recording the declarations in `s`: blocks are
/// searched recursively, function bodies are not.
pub open spec fn collect_spec(fs: Seq<(Seq<char>, SigModel)>, s: Stmt) -> Seq<(Seq<char>, SigModel)>
    decreases s, 1nat,
{
    match s {
        Stmt::Block(ss) => collect_all_spec(fs, ss@),
        Stmt::Function { name, parameters, return_type, .. } => fs.push(
            (name@, declared_sig(parameters@, return_type)),
        ),
        _ => fs,
    }
}

pub open spec fn collect_all_spec(fs: Seq<(Seq<char>, SigModel)>, ss: Seq<Stmt>) -> Seq<
    (Seq<char>, SigModel),
>
    decreases ss, 0nat,
{
    if ss.len() == 0 {
        fs
    } else {
        collect_spec(collect_all_spec(fs, ss.drop_last()), ss.last())
    }
}

/// What `analyze` does to a state: record the program's functions, then check it.
pub open spec fn analyze_spec(m: AnalyzerModel, root: Stmt) -> (AnalyzerModel, Seq<ErrorModel>) {
    stmt_check(AnalyzerModel { functions: collect_spec(m.functions, root), ..m }, root)
}


/// Appends one error to the list.
fn report(errors: &mut Vec<SemanticError>, message: String, span: Span)
    ensures
        errors_model(final(errors)@) == errors_model(old(errors)@).push((message@, span)),
{
    let ghost m = message@;
    errors.push(SemanticError { message, span });
    proof {
        assert(errors_model(errors@) =~= errors_model(old(errors)@).push((m, span)));
    }
}

/// `"<before><middle><after>"`.
fn message3(before: &str, middle: &str, after: &str) -> (r: String)
    ensures
        r@ == before@ + middle@ + after@,
{
    let mut s = string_of(before);
    push_str(&mut s, middle);
    push_str(&mut s, after);
    s
}

fn undeclared(name: &String) -> (r: String)
    ensures
        r@ == undeclared_message(name@),
{
    message3("variable `", name.as_str(), "` used before initialization")
}

fn mismatch_text(expected: &VelaRiType, actual: &VelaRiType) -> (r: String)
    ensures
        r@ == mismatch_message(*expected, *actual),
{
    let a = name_of_type(expected);
    let b = name_of_type(actual);
    let mut s = string_of("type mismatch: expected ");
    push_str(&mut s, a.as_str());
    push_str(&mut s, ", found ");
    push_str(&mut s, b.as_str());
    s
}

fn op_text(op: Op) -> (r: String)
    ensures
        r@ == op_name(op),
{
    match op {
        Op::Add => string_of("Add"),
        Op::Sub => string_of("Sub"),
        Op::Mul => string_of("Mul"),
        Op::Div => string_of("Div"),
        Op::Eq => string_of("Eq"),
        Op::And => string_of("And"),
        Op::Or => string_of("Or"),
        Op::Neg => string_of("Neg"),
    }
}

impl SemanticAnalyzer {
    /// The analyzer's state.
    pub closed spec fn model(&self) -> AnalyzerModel {
        AnalyzerModel {
            scopes: self.scopes@.map_values(|f: Vec<(String, VelaRiType)>| frame_model(f@)),
            functions: self.functions@.map_values(
                |p: (String, FunctionSig)| (p.0@, sig_model(p.1)),
            ),
            in_function: self.in_function,
            return_type: self.return_type,
        }
    }

    /// The analyzer has at least one scope.
    pub closed spec fn wf(&self) -> bool {
        self.scopes@.len() > 0
    }

    pub fn new() -> (r: Self)
        ensures
            r.wf(),
            r.model() == (AnalyzerModel {
                scopes: seq![Seq::empty()],
                functions: Seq::empty(),
                in_function: false,
                return_type: None,
            }),
    {
        let mut scopes: Vec<Vec<(String, VelaRiType)>> = Vec::new();
        scopes.push(Vec::new());
        let r = SemanticAnalyzer {
            scopes,
            functions: Vec::new(),
            in_function: false,
            return_type: None,
        };
        proof {
            assert(frame_model(r.scopes@[0]@) =~= Seq::<(Seq<char>, VelaRiType)>::empty());
            assert(r.model().scopes =~= seq![Seq::<(Seq<char>, VelaRiType)>::empty()]);
            assert(r.model().functions =~= Seq::<(Seq<char>, SigModel)>::empty());
        }
        r
    }

    /// Records the functions declared in `root`, then checks `root`. Succeeds
    /// exactly when no error is found; otherwise returns every error in the
    /// order in which it was found.
    pub fn analyze(&mut self, root: &Stmt) -> (r: Result<(), Vec<SemanticError>>)
        requires
            old(self).wf(),
        ensures
            final(self).wf(),
            final(self).model() == analyze_spec(old(self).model(), *root).0,
            r is Ok <==> analyze_spec(old(self).model(), *root).1.len() == 0,
            r matches Err(es) ==> errors_model(es@) == analyze_spec(old(self).model(), *root).1,
    {
        let mut errors: Vec<SemanticError> = Vec::new();
        self.collect_functions(root);
        self.stmt(root, &mut errors);
        proof {
            assert(errors_model(Seq::<SemanticError>::empty()) =~= Seq::<ErrorModel>::empty());
        }
        if errors.len() == 0 {
            Ok(())
        } else {
            Err(errors)
        }
    }

    fn collect_functions(&mut self, statement: &Stmt)
        requires
            old(self).wf(),
        ensures
            final(self).wf(),
            final(self).model() == (AnalyzerModel {
                functions: collect_spec(old(self).model().functions, *statement),
                ..old(self).model()
            }),
        decreases statement,
    {
        match statement {
            Stmt::Block(statements) => {
                let mut i: usize = 0;
                while i < statements.len()
                    invariant
                        i <= statements.len(),
                        self.wf(),
                        self.model() == (AnalyzerModel {
                            functions: collect_all_spec(
                                old(self).model().functions,
                                statements@.take(i as int),
                            ),
                            ..old(self).model()
                        }),
                        forall|j: int|
                            0 <= j < statements@.len() ==> decreases_to!(*statement => #[trigger] statements@[j]),
                    decreases statements.len() - i,
                {
                    self.collect_functions(&statements[i]);
                    proof {
                        assert(statements@.take(i + 1).drop_last() =~= statements@.take(i as int));
                    }
                    i += 1;
                }
                proof {
                    assert(statements@.take(statements@.len() as int) =~= statements@);
                }
            },
            Stmt::Function { name, parameters, return_type, .. } => {
                let mut types: Vec<VelaRiType> = Vec::new();
                let mut i: usize = 0;
                while i < parameters.len()
                    invariant
                        i <= parameters.len(),
                        types@ =~= parameters@.take(i as int).map_values(
                            |p: (String, Option<Type>)| annotation_type(p.1),
                        ),
                    decreases parameters.len() - i,
                {
                    let t = match &parameters[i].1 {
                        Some(a) => type_from_ast(a),
                        None => VelaRiType::Unknown,
                    };
                    types.push(t);
                    i += 1;
                }
                let result = match return_type {
                    Some(a) => type_from_ast(a),
                    None => VelaRiType::Unknown,
                };
                let ghost before = self.model();
                let sig = FunctionSig { parameters: types, result };
                proof {
                    assert(parameters@.take(parameters@.len() as int) =~= parameters@);
                    assert(sig_model(sig) == declared_sig(parameters@, *return_type));
                }
                self.functions.push((copy_string(name), sig));
                proof {
                    assert(self.model().functions =~= before.functions.push(
                        (name@, declared_sig(parameters@, *return_type)),
                    ));
                }
            },
            _ => {},
        }
    }

    fn push(&mut self)
        requires
            old(self).wf(),
        ensures
            final(self).wf(),
            final(self).model() == enter_scope(old(self).model()),
            final(self).scopes@.len() == old(self).scopes@.len() + 1,
    {
        self.scopes.push(Vec::new());
        proof {
            assert(frame_model(self.scopes@.last()@) =~= Seq::<(Seq<char>, VelaRiType)>::empty());
            assert(self.model().scopes =~= old(self).model().scopes.push(Seq::empty()));
        }
    }

    fn pop(&mut self)
        requires
            old(self).scopes@.len() > 1,
        ensures
            final(self).wf(),
            final(self).model() == leave_scope(old(self).model()),
            final(self).scopes@.len() == old(self).scopes@.len() - 1,
    {
        self.scopes.pop();
        proof {
            assert(self.model().scopes =~= old(self).model().scopes.drop_last());
        }
    }

    fn define(&mut self, name: String, ty: VelaRiType)
        requires
            old(self).wf(),
        ensures
            final(self).wf(),
            final(self).model() == declare(old(self).model(), name@, ty),
            final(self).scopes@.len() == old(self).scopes@.len(),
    {
        let last = self.scopes.len() - 1;
        let ghost n = name@;
        let ghost t = ty;
        let mut frame = Vec::new();
        std::mem::swap(&mut frame, &mut self.scopes[last]);
        let ghost old_frame = frame@;
        frame.push((name, ty));
        self.scopes.set(last, frame);
        proof {
            let om = old(self).model();
            assert(frame_model(self.scopes@[last as int]@) =~= frame_model(old_frame).push((n, t)));
            assert(self.model().scopes =~= om.scopes.update(
                om.scopes.len() - 1,
                om.scopes.last().push((n, t)),
            ));
        }
    }

    /// Whether the innermost scope declares `name`.
    fn declared_here(&self, name: &String) -> (r: bool)
        requires
            self.wf(),
        ensures
            r == (assoc_get(self.model().scopes.last(), name@) is Some),
    {
        let frame = &self.scopes[self.scopes.len() - 1];
        let r = frame_get(frame, name);
        r.is_some()
    }

    fn lookup(&self, name: &String) -> (r: Option<VelaRiType>)
        ensures
            r == scopes_lookup(self.model().scopes, name@),
    {
        let ghost sm = self.model().scopes;
        let mut i = self.scopes.len();
        proof {
            assert(sm.take(sm.len() as int) =~= sm);
        }
        while i > 0
            invariant
                i <= self.scopes@.len(),
                sm == self.model().scopes,
                scopes_lookup(sm, name@) == scopes_lookup(sm.take(i as int), name@),
            decreases i,
        {
            let found = frame_get(&self.scopes[i - 1], name);
            proof {
                assert(sm.take(i as int).drop_last() =~= sm.take(i - 1));
                assert(sm.take(i as int).last() == frame_model(self.scopes@[i - 1]@));
            }
            if found.is_some() {
                return found;
            }
            i -= 1;
        }
        proof {
            assert(sm.take(0) =~= Seq::<Seq<(Seq<char>, VelaRiType)>>::empty());
        }
        None
    }

    fn function_sig(&self, name: &String) -> (r: Option<usize>)
        ensures
            match r {
                Some(i) => i < self.functions@.len() && assoc_get(self.model().functions, name@)
                    == Some(sig_model(self.functions@[i as int].1)),
                None => assoc_get(self.model().functions, name@) is None,
            },
    {
        let ghost fm = self.model().functions;
        let mut i = self.functions.len();
        proof {
            assert(fm.take(fm.len() as int) =~= fm);
        }
        while i > 0
            invariant
                i <= self.functions@.len(),
                fm == self.model().functions,
                assoc_get(fm, name@) == assoc_get(fm.take(i as int), name@),
            decreases i,
        {
            proof {
                assert(fm.take(i as int).drop_last() =~= fm.take(i - 1));
            }
            if same_string(&self.functions[i - 1].0, name) {
                return Some(i - 1);
            }
            i -= 1;
        }
        proof {
            assert(fm.take(0) =~= Seq::<(Seq<char>, SigModel)>::empty());
        }
        None
    }

    fn report_mismatch(
        &self,
        expected: &VelaRiType,
        actual: &VelaRiType,
        span: Span,
        errors: &mut Vec<SemanticError>,
    )
        ensures
            errors_model(final(errors)@) == errors_model(old(errors)@) + mismatch(
                *expected,
                *actual,
                span,
            ),
    {
        if !compatible(expected, actual) {
            report(errors, mismatch_text(expected, actual), span);
        } else {
            proof {
                assert(errors_model(errors@) =~= errors_model(errors@) + Seq::<ErrorModel>::empty());
            }
        }
    }
}

impl SemanticAnalyzer {
    #[verifier::loop_isolation(false)]
    /// Checks an expression: its type, or `Err` where it has none, with the
    /// errors found appended to `errors`. Errors are only ever appended, a
    /// failing check always appends one, and literals, array and map
    /// literals and calls always have a type.
    pub fn expr(&self, expression: &Expr, errors: &mut Vec<SemanticError>) -> (r: Result<
        VelaRiType,
        (),
    >)
        ensures
            r == expr_check(self.model(), *expression).0,
            errors_model(final(errors)@) == errors_model(old(errors)@) + expr_check(
                self.model(),
                *expression,
            ).1,
            errors_model(final(errors)@).take(old(errors)@.len() as int) == errors_model(old(errors)@),
            r is Err ==> final(errors)@.len() > old(errors)@.len(),
            (*expression is Literal || *expression is Array || *expression is Mapping
                || *expression is Call) ==> r is Ok,
        decreases expression, 1nat,
    {
        proof {
            lemma_failure_is_reported(self.model(), *expression);
        }
        let ghost m = self.model();
        let ghost start = errors_model(errors@);
        match expression {
            Expr::Literal(value, _) => {
                proof {
                    assert(errors_model(errors@) =~= start + Seq::<ErrorModel>::empty());
                }
                Ok(value_type(value))
            },
            Expr::Variable(name, span) => match self.lookup(name) {
                Some(t) => {
                    proof {
                        assert(errors_model(errors@) =~= start + Seq::<ErrorModel>::empty());
                    }
                    Ok(t)
                },
                None => {
                    report(errors, undeclared(name), *span);
                    proof {
                        assert(errors_model(errors@) =~= start + seq![(undeclared_message(name@), *span)]);
                    }
                    Err(())
                },
            },
            Expr::Array(elements, _) => {
                let mut element_type = Some(VelaRiType::Unknown);
                let mut i: usize = 0;
                while i < elements.len()
                    invariant
                        i <= elements.len(),
                        element_type == elements_check(m, elements@.take(i as int)).0,
                        errors_model(errors@) == start + elements_check(m, elements@.take(i as int)).1,
                    decreases elements.len() - i,
                {
                    proof {
                        assert(decreases_to!(elements => elements@));
                        assert(decreases_to!(elements@ => elements@[i as int]));
                        assert(elements@.take(i + 1).drop_last() =~= elements@.take(i as int));
                    }
                    let r = self.expr(&elements[i], errors);
                    if let Ok(ty) = r {
                        element_type = unify_next(element_type, &ty);
                    }
                    proof {
                        let (t0, e0) = elements_check(m, elements@.take(i as int));
                        let (_, e1) = expr_check(m, elements@[i as int]);
                        assert(start + e0 + e1 =~= start + (e0 + e1));
                    }
                    i += 1;
                }
                proof {
                    assert(elements@.take(elements@.len() as int) =~= elements@);
                }
                Ok(VelaRiType::Array(Box::new(settled(element_type))))
            },
            Expr::Mapping(entries, _) => {
                let mut value_type = Some(VelaRiType::Unknown);
                let mut i: usize = 0;
                while i < entries.len()
                    invariant
                        i <= entries.len(),
                        value_type == entries_check(m, entries@.take(i as int)).0,
                        errors_model(errors@) == start + entries_check(m, entries@.take(i as int)).1,
                    decreases entries.len() - i,
                {
                    proof {
                        assert(decreases_to!(entries => entries@));
                        assert(decreases_to!(entries@ => entries@[i as int]));
                        assert(decreases_to!(entries@[i as int] => entries@[i as int].1));
                        assert(entries@.take(i + 1).drop_last() =~= entries@.take(i as int));
                    }
                    let r = self.expr(&entries[i].1, errors);
                    if let Ok(ty) = r {
                        value_type = unify_next(value_type, &ty);
                    }
                    proof {
                        let (t0, e0) = entries_check(m, entries@.take(i as int));
                        let (_, e1) = expr_check(m, entries@[i as int].1);
                        assert(start + e0 + e1 =~= start + (e0 + e1));
                    }
                    i += 1;
                }
                proof {
                    assert(entries@.take(entries@.len() as int) =~= entries@);
                }
                Ok(VelaRiType::Mapping(Box::new(VelaRiType::String), Box::new(settled(value_type))))
            },
            Expr::Index { .. } => self.index_expr(expression, errors),
            Expr::Call { .. } => self.call_expr(expression, errors),
            Expr::Unary { .. } => self.unary_expr(expression, errors),
            Expr::Binary { .. } => self.binary_expr(expression, errors),
        }
    }

    #[verifier::loop_isolation(false)]
    fn index_expr(&self, expression: &Expr, errors: &mut Vec<SemanticError>) -> (r: Result<VelaRiType, ()>)
        requires
            expression is Index,
        ensures
            r == expr_check(self.model(), *expression).0,
            errors_model(final(errors)@) == errors_model(old(errors)@) + expr_check(
                self.model(),
                *expression,
            ).1,
        decreases expression, 0nat,
    {
        let ghost m = self.model();
        let ghost start = errors_model(errors@);
        match expression {
            Expr::Index { target, index, span } => {
                let target_type = match self.expr(target, errors) {
                    Ok(t) => t,
                    Err(e) => return Err(e),
                };
                let ghost e1 = expr_check(m, **target).1;
                let index_type = match self.expr(index, errors) {
                    Ok(t) => t,
                    Err(e) => {
                        proof {
                            assert(start + e1 + expr_check(m, **index).1 =~= start + (e1 + expr_check(m, **index).1));
                        }
                        return Err(e);
                    },
                };
                let ghost e2 = expr_check(m, **index).1;
                let ghost mid = errors_model(errors@);
                proof {
                    assert(mid =~= start + (e1 + e2));
                }
                match target_type {
                    VelaRiType::Array(element) => {
                        self.report_mismatch(&VelaRiType::Int, &index_type, *span, errors);
                        proof {
                            assert(errors_model(errors@) =~= start + (e1 + e2 + mismatch(VelaRiType::Int, index_type, *span)));
                        }
                        Ok(*element)
                    },
                    VelaRiType::Mapping(key, value) => {
                        self.report_mismatch(&key, &index_type, *span, errors);
                        proof {
                            assert(errors_model(errors@) =~= start + (e1 + e2 + mismatch(*key, index_type, *span)));
                        }
                        Ok(*value)
                    },
                    VelaRiType::Unknown => Ok(VelaRiType::Unknown),
                    actual => {
                        let ghost tt = actual;
                        let name = name_of_type(&actual);
                        let mut message = string_of("cannot index value of type ");
                        push_str(&mut message, name.as_str());
                        report(errors, message, *span);
                        proof {
                            assert(errors_model(errors@) =~= start + (e1 + e2 + seq![("cannot index value of type "@ + type_name_spec(tt), *span)]));
                        }
                        Err(())
                    },
                }
                        },
            _ => {
                assert(false);
                Err(())
            },
        }
    }

    #[verifier::loop_isolation(false)]
    fn call_expr(&self, expression: &Expr, errors: &mut Vec<SemanticError>) -> (r: Result<VelaRiType, ()>)
        requires
            expression is Call,
        ensures
            r == expr_check(self.model(), *expression).0,
            errors_model(final(errors)@) == errors_model(old(errors)@) + expr_check(
                self.model(),
                *expression,
            ).1,
        decreases expression, 0nat,
    {
        let ghost m = self.model();
        let ghost start = errors_model(errors@);
        match expression {
            Expr::Call { name, arguments, span } => {
                if string_is(name, "length") {
                    if arguments.len() != 1 {
                        report(errors, string_of("length expects one argument"), *span);
                    }
                    let ghost e0 = if arguments@.len() != 1 {
                        seq![("length expects one argument"@, *span)]
                    } else {
                        Seq::<ErrorModel>::empty()
                    };
                    proof {
                        assert(errors_model(errors@) =~= start + e0);
                    }
                    self.arguments(arguments, errors);
                    proof {
                        assert(start + e0 + arguments_errors(m, arguments@) =~= start + (e0 + arguments_errors(m, arguments@)));
                    }
                    return Ok(VelaRiType::Int);
                }
                match self.function_sig(name) {
                    None => {
                        report(errors, message3("unknown function `", name.as_str(), "`"), *span);
                        self.arguments(arguments, errors);
                        proof {
                            let e0 = seq![("unknown function `"@ + name@ + "`"@, *span)];
                            assert(start + e0 + arguments_errors(m, arguments@) =~= start + (e0 + arguments_errors(m, arguments@)));
                        }
                        Ok(VelaRiType::Unknown)
                    },
                    Some(k) => {
                        let signature = &self.functions[k].1;
                        let ghost sig = sig_model(*signature);
                        if signature.parameters.len() != arguments.len() {
                            let mut message = message3("function `", name.as_str(), "` expects ");
                            let p = usize_to_string(signature.parameters.len());
                            push_str(&mut message, p.as_str());
                            push_str(&mut message, " arguments, got ");
                            let a = usize_to_string(arguments.len());
                            push_str(&mut message, a.as_str());
                            report(errors, message, *span);
                        }
                        let ghost e0 = if sig.parameters.len() != arguments@.len() {
                            seq![(arity_message(name@, sig.parameters.len(), arguments@.len()), *span)]
                        } else {
                            Seq::<ErrorModel>::empty()
                        };
                        proof {
                            assert(errors_model(errors@) =~= start + e0);
                        }
                        self.call_arguments(&signature.parameters, arguments, errors);
                        proof {
                            assert(start + e0 + call_check(m, sig.parameters, arguments@) =~= start + (e0 + call_check(m, sig.parameters, arguments@)));
                        }
                        Ok(signature.result.duplicate())
                    },
                }
                        },
            _ => {
                assert(false);
                Err(())
            },
        }
    }

    #[verifier::loop_isolation(false)]
    fn unary_expr(&self, expression: &Expr, errors: &mut Vec<SemanticError>) -> (r: Result<VelaRiType, ()>)
        requires
            expression is Unary,
        ensures
            r == expr_check(self.model(), *expression).0,
            errors_model(final(errors)@) == errors_model(old(errors)@) + expr_check(
                self.model(),
                *expression,
            ).1,
        decreases expression, 0nat,
    {
        let ghost m = self.model();
        let ghost start = errors_model(errors@);
        match expression {
            Expr::Unary { op, expr, span } => {
                let ty = match self.expr(expr, errors) {
                    Ok(t) => t,
                    Err(e) => return Err(e),
                };
                let ghost e1 = expr_check(m, **expr).1;
                if *op == Op::Neg && ty.is_numeric() {
                    Ok(ty)
                } else {
                    report(errors, string_of("unary minus requires Number"), *span);
                    proof {
                        assert(errors_model(errors@) =~= start + (e1 + seq![("unary minus requires Number"@, *span)]));
                    }
                    Err(())
                }
                        },
            _ => {
                assert(false);
                Err(())
            },
        }
    }

    #[verifier::loop_isolation(false)]
    fn binary_expr(&self, expression: &Expr, errors: &mut Vec<SemanticError>) -> (r: Result<VelaRiType, ()>)
        requires
            expression is Binary,
        ensures
            r == expr_check(self.model(), *expression).0,
            errors_model(final(errors)@) == errors_model(old(errors)@) + expr_check(
                self.model(),
                *expression,
            ).1,
        decreases expression, 0nat,
    {
        let ghost m = self.model();
        let ghost start = errors_model(errors@);
        match expression {
            Expr::Binary { left, op, right, span } => {
                let left_type = match self.expr(left, errors) {
                    Ok(t) => t,
                    Err(e) => return Err(e),
                };
                let ghost e1 = expr_check(m, **left).1;
                let right_type = match self.expr(right, errors) {
                    Ok(t) => t,
                    Err(e) => {
                        proof {
                            assert(start + e1 + expr_check(m, **right).1 =~= start + (e1 + expr_check(m, **right).1));
                        }
                        return Err(e);
                    },
                };
                let ghost e2 = expr_check(m, **right).1;
                proof {
                    assert(errors_model(errors@) =~= start + (e1 + e2));
                }
                let arithmetic = *op == Op::Add || *op == Op::Sub || *op == Op::Mul || *op == Op::Div;
                let unknown = matches!(left_type, VelaRiType::Unknown) || matches!(right_type, VelaRiType::Unknown);
                if arithmetic && ((left_type.is_numeric() && right_type.is_numeric()) || unknown) {
                    Ok(merge_types(&left_type, &right_type))
                } else if *op == Op::Add && matches!(left_type, VelaRiType::String) && matches!(right_type, VelaRiType::String) {
                    Ok(VelaRiType::String)
                } else if *op == Op::Eq && compatible(&left_type, &right_type) {
                    Ok(VelaRiType::Boolean)
                } else if (*op == Op::And || *op == Op::Or) && matches!(left_type, VelaRiType::Boolean) && matches!(right_type, VelaRiType::Boolean) {
                    Ok(VelaRiType::Boolean)
                } else {
                    let mut message = string_of("invalid operation ");
                    let o = op_text(*op);
                    push_str(&mut message, o.as_str());
                    push_str(&mut message, " for ");
                    let a = name_of_type(&left_type);
                    push_str(&mut message, a.as_str());
                    push_str(&mut message, " and ");
                    let b = name_of_type(&right_type);
                    push_str(&mut message, b.as_str());
                    let ghost mm = message@;
                    report(errors, message, *span);
                    proof {
                        assert(errors_model(errors@) =~= start + (e1 + e2 + seq![(mm, *span)]));
                    }
                    Err(())
                }
                        },
            _ => {
                assert(false);
                Err(())
            },
        }
    }

    /// Checks arguments whose types are not used.
    #[verifier::loop_isolation(false)]
    fn arguments(&self, arguments: &Vec<Expr>, errors: &mut Vec<SemanticError>)
        ensures
            errors_model(final(errors)@) == errors_model(old(errors)@) + arguments_errors(
                self.model(),
                arguments@,
            ),
        decreases arguments, 0nat,
    {
        let ghost m = self.model();
        let ghost start = errors_model(errors@);
        let mut i: usize = 0;
        while i < arguments.len()
            invariant
                i <= arguments.len(),
                errors_model(errors@) == start + arguments_errors(m, arguments@.take(i as int)),
            decreases arguments.len() - i,
        {
            proof {
                assert(arguments@.take(i + 1).drop_last() =~= arguments@.take(i as int));
            }
            let _ = self.expr(&arguments[i], errors);
            proof {
                let e0 = arguments_errors(m, arguments@.take(i as int));
                assert(start + e0 + expr_check(m, arguments@[i as int]).1 =~= start + (e0 + expr_check(m, arguments@[i as int]).1));
            }
            i += 1;
        }
        proof {
            assert(arguments@.take(arguments@.len() as int) =~= arguments@);
        }
    }
}

impl SemanticAnalyzer {
    /// Checks call arguments against the parameter types by position.
    #[verifier::loop_isolation(false)]
    fn call_arguments(
        &self,
        parameters: &Vec<VelaRiType>,
        arguments: &Vec<Expr>,
        errors: &mut Vec<SemanticError>,
    )
        ensures
            errors_model(final(errors)@) == errors_model(old(errors)@) + call_check(
                self.model(),
                parameters@,
                arguments@,
            ),
        decreases arguments, 0nat,
    {
        let ghost m = self.model();
        let ghost start = errors_model(errors@);
        let mut i: usize = 0;
        while i < arguments.len()
            invariant
                i <= arguments.len(),
                errors_model(errors@) == start + call_check(m, parameters@, arguments@.take(i as int)),
            decreases arguments.len() - i,
        {
            proof {
                assert(arguments@.take(i + 1).drop_last() =~= arguments@.take(i as int));
            }
            let ghost e0 = call_check(m, parameters@, arguments@.take(i as int));
            let r = self.expr(&arguments[i], errors);
            let ghost e1 = expr_check(m, arguments@[i as int]).1;
            let ghost mid = errors_model(errors@);
            if let Ok(actual) = &r {
                if i < parameters.len() {
                    let sp = arguments[i].span();
                    self.report_mismatch(&parameters[i], actual, sp, errors);
                }
            }
            proof {
                let e2 = match r {
                    Ok(actual) => if i < parameters@.len() {
                        mismatch(parameters@[i as int], actual, expr_span(arguments@[i as int]))
                    } else {
                        Seq::empty()
                    },
                    Err(_) => Seq::empty(),
                };
                assert(errors_model(errors@) =~= mid + e2);
                assert(start + e0 + e1 + e2 =~= start + (e0 + e1 + e2));
            }
            i += 1;
        }
        proof {
            assert(arguments@.take(arguments@.len() as int) =~= arguments@);
        }
    }
}


impl SemanticAnalyzer {
    /// Checks a statement, updating the analyzer as `stmt_check` says and
    /// appending the errors found. The analyzer keeps its frame: see
    /// `frame_kept` (the number of scopes, the outer scopes, the functions and
    /// the function context stay; the innermost scope keeps its declarations
    /// and gains only names that `let` statements reached through blocks
    /// declare), and errors are only ever appended.
    pub fn stmt(&mut self, statement: &Stmt, errors: &mut Vec<SemanticError>)
        requires
            old(self).wf(),
        ensures
            final(self).wf(),
            final(self).model().scopes.len() == old(self).model().scopes.len(),
            final(self).model() == stmt_check(old(self).model(), *statement).0,
            errors_model(final(errors)@) == errors_model(old(errors)@) + stmt_check(
                old(self).model(),
                *statement,
            ).1,
            old(self).model().scopes.len() >= 1 ==> frame_kept(
                old(self).model(),
                final(self).model(),
                let_names(*statement),
            ),
            errors_model(final(errors)@).take(old(errors)@.len() as int) == errors_model(old(errors)@),
        decreases statement, 1nat,
    {
        proof {
            if self.model().scopes.len() >= 1 {
                lemma_stmt_frame(self.model(), *statement);
            }
        }
        match statement {
            Stmt::Block(statements) => self.stmts(statements, errors),
            Stmt::Let { .. } => self.let_stmt(statement, errors),
            Stmt::Assign { .. } => self.assign_stmt(statement, errors),
            Stmt::Print(expression) => {
                let _ = self.expr(expression, errors);
            },
            Stmt::Assert(expression) => {
                let ghost m = self.model();
                let ghost start = errors_model(errors@);
                let r = self.expr(expression, errors);
                let ghost e1 = expr_check(m, *expression).1;
                if !matches!(r, Ok(VelaRiType::Boolean)) {
                    report(errors, string_of("assert condition must be Boolean"), expression.span());
                }
                proof {
                    let e2 = error_if(!has_type(r, VelaRiType::Boolean), "assert condition must be Boolean"@, expr_span(*expression));
                    assert(errors_model(errors@) =~= start + (e1 + e2));
                }
            },
            Stmt::Return { .. } => self.return_stmt(statement, errors),
            Stmt::Function { .. } => self.function_stmt(statement, errors),
            Stmt::Conditional { .. } => self.conditional_stmt(statement, errors),
            Stmt::RepeatLoop { .. } => self.repeat_stmt(statement, errors),
            Stmt::CreateWindow { .. } => self.window_stmt(statement, errors),
        }
    }

    #[verifier::loop_isolation(false)]
    #[verifier::spinoff_prover]
    #[verifier::rlimit(50)]
    fn stmts(&mut self, statements: &Vec<Stmt>, errors: &mut Vec<SemanticError>)
        requires
            old(self).wf(),
        ensures
            final(self).wf(),
            final(self).scopes@.len() == old(self).scopes@.len(),
            final(self).model() == stmts_check(old(self).model(), statements@).0,
            errors_model(final(errors)@) == errors_model(old(errors)@) + stmts_check(
                old(self).model(),
                statements@,
            ).1,
        decreases statements, 0nat,
    {
        let ghost m = self.model();
        let ghost start = errors_model(errors@);
        let ghost len = self.scopes@.len();
        let mut i: usize = 0;
        while i < statements.len()
            invariant
                i <= statements.len(),
                self.wf(),
                self.scopes@.len() == len,
                self.model() == stmts_check(m, statements@.take(i as int)).0,
                errors_model(errors@) == start + stmts_check(m, statements@.take(i as int)).1,
            decreases statements.len() - i,
        {
            proof {
                assert(statements@.take(i + 1).drop_last() =~= statements@.take(i as int));
            }
            let ghost e0 = stmts_check(m, statements@.take(i as int)).1;
            let ghost m0 = self.model();
            self.stmt(&statements[i], errors);
            proof {
                let e1 = stmt_check(m0, statements@[i as int]).1;
                assert(start + e0 + e1 =~= start + (e0 + e1));
            }
            i += 1;
        }
        proof {
            assert(statements@.take(statements@.len() as int) =~= statements@);
        }
    }

    fn let_stmt(&mut self, statement: &Stmt, errors: &mut Vec<SemanticError>)
        requires
            old(self).wf(),
            statement is Let,
        ensures
            final(self).wf(),
            final(self).scopes@.len() == old(self).scopes@.len(),
            final(self).model() == stmt_check(old(self).model(), *statement).0,
            errors_model(final(errors)@) == errors_model(old(errors)@) + stmt_check(
                old(self).model(),
                *statement,
            ).1,
        decreases statement, 0nat,
    {
        let ghost m = self.model();
        let ghost start = errors_model(errors@);
        match statement {
            Stmt::Let { name, annotation, value, span } => {
                let r = self.expr(value, errors);
                let ghost e1 = expr_check(m, *value).1;
                if let Ok(actual) = r {
                    if let Some(annotation) = annotation {
                        let expected = type_from_ast(annotation);
                        self.report_mismatch(&expected, &actual, *span, errors);
                    }
                    let ghost e2 = match annotation {
                        Some(a) => mismatch(from_ast_spec(*a), actual, *span),
                        None => Seq::<ErrorModel>::empty(),
                    };
                    proof {
                        assert(errors_model(errors@) =~= start + (e1 + e2));
                    }
                    if self.declared_here(name) {
                        let message = message3("variable `", name.as_str(), "` is already declared in this scope");
                        report(errors, message, *span);
                        proof {
                            assert(errors_model(errors@) =~= start + (e1 + e2 + seq![("variable `"@ + name@ + "` is already declared in this scope"@, *span)]));
                        }
                    } else {
                        let t = match annotation {
                            Some(a) => type_from_ast(a),
                            None => actual,
                        };
                        self.define(copy_string(name), t);
                    }
                }
            },
            _ => {
                assert(false);
            },
        }
    }

    #[verifier::spinoff_prover]
    fn assign_stmt(&mut self, statement: &Stmt, errors: &mut Vec<SemanticError>)
        requires
            old(self).wf(),
            statement is Assign,
        ensures
            final(self).wf(),
            final(self).scopes@.len() == old(self).scopes@.len(),
            final(self).model() == stmt_check(old(self).model(), *statement).0,
            errors_model(final(errors)@) == errors_model(old(errors)@) + stmt_check(
                old(self).model(),
                *statement,
            ).1,
        decreases statement, 0nat,
    {
        let ghost m = self.model();
        let ghost start = errors_model(errors@);
        match statement {
            Stmt::Assign { name, value, span } => {
                let expected = self.lookup(name);
                if expected.is_none() {
                    report(errors, undeclared(name), *span);
                }
                let ghost e0 = error_if(expected is None, undeclared_message(name@), *span);
                proof {
                    assert(errors_model(errors@) =~= start + e0);
                }
                let r = self.expr(value, errors);
                let ghost e1 = expr_check(m, *value).1;
                let ghost mid = errors_model(errors@);
                if let Ok(actual) = &r {
                    if let Some(expected) = &expected {
                        self.report_mismatch(expected, actual, *span, errors);
                    }
                }
                proof {
                    let e2 = match (r, expected) {
                        (Ok(actual), Some(x)) => mismatch(x, actual, *span),
                        _ => Seq::<ErrorModel>::empty(),
                    };
                    assert(errors_model(errors@) =~= mid + e2);
                    assert(start + e0 + e1 + e2 =~= start + (e0 + e1 + e2));
                }
            },
            _ => {
                assert(false);
            },
        }
    }

    #[verifier::rlimit(40)]
    fn return_stmt(&mut self, statement: &Stmt, errors: &mut Vec<SemanticError>)
        requires
            old(self).wf(),
            statement is Return,
        ensures
            final(self).wf(),
            final(self).scopes@.len() == old(self).scopes@.len(),
            final(self).model() == stmt_check(old(self).model(), *statement).0,
            errors_model(final(errors)@) == errors_model(old(errors)@) + stmt_check(
                old(self).model(),
                *statement,
            ).1,
        decreases statement, 0nat,
    {
        let ghost m = self.model();
        let ghost start = errors_model(errors@);
        match statement {
            Stmt::Return { value, span } => {
                if !self.in_function {
                    report(errors, string_of("return is only valid inside a function"), *span);
                }
                let ghost e0 = error_if(!m.in_function, "return is only valid inside a function"@, *span);
                proof {
                    assert(errors_model(errors@) =~= start + e0);
                }
                let actual = match value {
                    Some(expression) => match self.expr(expression, errors) {
                        Ok(t) => t,
                        Err(_) => VelaRiType::Unknown,
                    },
                    None => VelaRiType::Null,
                };
                let ghost e1 = match value {
                    Some(x) => expr_check(m, *x).1,
                    None => Seq::<ErrorModel>::empty(),
                };
                proof {
                    assert(errors_model(errors@) =~= start + e0 + e1);
                }
                let ghost mid = errors_model(errors@);
                if let Some(expected) = &self.return_type {
                    self.report_mismatch(expected, &actual, *span, errors);
                }
                proof {
                    let e2 = match m.return_type {
                        Some(x) => mismatch(x, actual, *span),
                        None => Seq::<ErrorModel>::empty(),
                    };
                    assert(errors_model(errors@) =~= mid + e2);
                    assert(start + e0 + e1 + e2 =~= start + (e0 + e1 + e2));
                }
            },
            _ => {
                assert(false);
            },
        }
    }

    fn function_stmt(&mut self, statement: &Stmt, errors: &mut Vec<SemanticError>)
        requires
            old(self).wf(),
            statement is Function,
        ensures
            final(self).wf(),
            final(self).scopes@.len() == old(self).scopes@.len(),
            final(self).model() == stmt_check(old(self).model(), *statement).0,
            errors_model(final(errors)@) == errors_model(old(errors)@) + stmt_check(
                old(self).model(),
                *statement,
            ).1,
        decreases statement, 0nat,
    {
        let ghost m = self.model();
        let ghost start = errors_model(errors@);
        match statement {
            Stmt::Function { name, parameters, body, return_type, span } => {
                self.push();
                let mut i: usize = 0;
                while i < parameters.len()
                    invariant
                        i <= parameters.len(),
                        self.wf(),
                        self.scopes@.len() == old(self).scopes@.len() + 1,
                        self.model() == declare_parameters(enter_scope(m), parameters@.take(i as int)),
                        errors_model(errors@) == start,
                    decreases parameters.len() - i,
                {
                    let t = match &parameters[i].1 {
                        Some(a) => type_from_ast(a),
                        None => VelaRiType::Unknown,
                    };
                    proof {
                        assert(parameters@.take(i + 1).drop_last() =~= parameters@.take(i as int));
                    }
                    self.define(copy_string(&parameters[i].0), t);
                    i += 1;
                }
                proof {
                    assert(parameters@.take(parameters@.len() as int) =~= parameters@);
                }
                proof {
                    lemma_declare_parameters(enter_scope(m), parameters@);
                }
                let old_in_function = self.in_function;
                let old_return_type = match &self.return_type {
                    Some(t) => Some(t.duplicate()),
                    None => None,
                };
                self.in_function = true;
                self.return_type = match return_type {
                    Some(t) => Some(type_from_ast(t)),
                    None => None,
                };
                let ghost m2 = AnalyzerModel {
                    in_function: true,
                    return_type: match return_type {
                        Some(t) => Some(from_ast_spec(*t)),
                        None => None,
                    },
                    ..declare_parameters(enter_scope(m), parameters@)
                };
                assert(self.model() == m2);
                self.stmts(body, errors);
                let ghost m3 = self.model();
                assert(m3 == stmts_check(m2, body@).0);
                let ghost e1 = errors_model(errors@);
                if !block_returns(body) {
                    report(errors, message3("function `", name.as_str(), "` can fall through without returning"), *span);
                }
                proof {
                    let e2 = error_if(!block_returns_spec(body@), "function `"@ + name@ + "` can fall through without returning"@, *span);
                    assert(errors_model(errors@) =~= e1 + e2);
                }
                self.in_function = old_in_function;
                self.return_type = old_return_type;
                self.pop();
                assert(self.model().scopes == m3.scopes.drop_last());
                assert(self.model().functions == m3.functions);
                assert(self.model().in_function == m.in_function);
                assert(self.model().return_type == m.return_type);
            },
            _ => {
                assert(false);
            },
        }
    }

    fn conditional_stmt(&mut self, statement: &Stmt, errors: &mut Vec<SemanticError>)
        requires
            old(self).wf(),
            statement is Conditional,
        ensures
            final(self).wf(),
            final(self).scopes@.len() == old(self).scopes@.len(),
            final(self).model() == stmt_check(old(self).model(), *statement).0,
            errors_model(final(errors)@) == errors_model(old(errors)@) + stmt_check(
                old(self).model(),
                *statement,
            ).1,
        decreases statement, 0nat,
    {
        let ghost m = self.model();
        let ghost start = errors_model(errors@);
        match statement {
            Stmt::Conditional { condition, then_branch, otherwise_branch, .. } => {
                let r = self.expr(condition, errors);
                let ghost e0 = expr_check(m, *condition).1;
                if !matches!(r, Ok(VelaRiType::Boolean)) {
                    report(errors, string_of("if condition must be Boolean"), condition.span());
                }
                let ghost e1 = error_if(!has_type(r, VelaRiType::Boolean), "if condition must be Boolean"@, expr_span(*condition));
                proof {
                    assert(errors_model(errors@) =~= start + e0 + e1);
                }
                self.push();
                self.stmts(then_branch, errors);
                self.pop();
                if let Some(otherwise_branch) = otherwise_branch {
                    self.push();
                    self.stmts(otherwise_branch, errors);
                    self.pop();
                }
                proof {
                    let (m1, e2) = stmts_check(enter_scope(m), then_branch@);
                    match otherwise_branch {
                        Some(o) => {
                            let (m3, e3) = stmts_check(enter_scope(leave_scope(m1)), o@);
                            assert(start + e0 + e1 + e2 + e3 =~= start + (e0 + e1 + e2 + e3));
                        },
                        None => {
                            assert(start + e0 + e1 + e2 =~= start + (e0 + e1 + e2));
                        },
                    }
                }
            },
            _ => {
                assert(false);
            },
        }
    }

    fn repeat_stmt(&mut self, statement: &Stmt, errors: &mut Vec<SemanticError>)
        requires
            old(self).wf(),
            statement is RepeatLoop,
        ensures
            final(self).wf(),
            final(self).scopes@.len() == old(self).scopes@.len(),
            final(self).model() == stmt_check(old(self).model(), *statement).0,
            errors_model(final(errors)@) == errors_model(old(errors)@) + stmt_check(
                old(self).model(),
                *statement,
            ).1,
        decreases statement, 0nat,
    {
        let ghost m = self.model();
        let ghost start = errors_model(errors@);
        match statement {
            Stmt::RepeatLoop { iterations, body, .. } => {
                let r = self.expr(iterations, errors);
                let ghost e0 = expr_check(m, *iterations).1;
                if !matches!(r, Ok(VelaRiType::Int) | Ok(VelaRiType::Number)) {
                    report(errors, string_of("repeat count must be Number"), iterations.span());
                }
                let ghost e1 = error_if(!has_numeric_type(r), "repeat count must be Number"@, expr_span(*iterations));
                proof {
                    assert(errors_model(errors@) =~= start + e0 + e1);
                }
                self.push();
                self.stmts(body, errors);
                self.pop();
                proof {
                    let (m1, e2) = stmts_check(enter_scope(m), body@);
                    assert(start + e0 + e1 + e2 =~= start + (e0 + e1 + e2));
                }
            },
            _ => {
                assert(false);
            },
        }
    }

    fn window_stmt(&mut self, statement: &Stmt, errors: &mut Vec<SemanticError>)
        requires
            old(self).wf(),
            statement is CreateWindow,
        ensures
            final(self).wf(),
            final(self).scopes@.len() == old(self).scopes@.len(),
            final(self).model() == stmt_check(old(self).model(), *statement).0,
            errors_model(final(errors)@) == errors_model(old(errors)@) + stmt_check(
                old(self).model(),
                *statement,
            ).1,
        decreases statement, 0nat,
    {
        let ghost m = self.model();
        let ghost start = errors_model(errors@);
        match statement {
            Stmt::CreateWindow { width, height, .. } => {
                let rw = self.expr(width, errors);
                if !matches!(rw, Ok(VelaRiType::Int) | Ok(VelaRiType::Number)) {
                    report(errors, string_of("window dimensions must be Number"), width.span());
                }
                let ghost ew = expr_check(m, *width).1;
                let ghost fw = error_if(!has_numeric_type(rw), "window dimensions must be Number"@, expr_span(*width));
                proof {
                    assert(errors_model(errors@) =~= start + ew + fw);
                }
                let rh = self.expr(height, errors);
                if !matches!(rh, Ok(VelaRiType::Int) | Ok(VelaRiType::Number)) {
                    report(errors, string_of("window dimensions must be Number"), height.span());
                }
                proof {
                    let eh = expr_check(m, *height).1;
                    let fh = error_if(!has_numeric_type(rh), "window dimensions must be Number"@, expr_span(*height));
                    assert(errors_model(errors@) =~= start + (ew + fw + eh + fh));
                }
            },
            _ => {
                assert(false);
            },
        }
    }
}

/// Whether some statement of the block returns on every path.
#[verifier::loop_isolation(false)]
fn block_returns(statements: &Vec<Stmt>) -> (r: bool)
    ensures
        r == block_returns_spec(statements@),
    decreases statements, 0nat,
{
    let mut i: usize = 0;
    while i < statements.len()
        invariant
            i <= statements.len(),
            !block_returns_spec(statements@.take(i as int)),
        decreases statements.len() - i,
    {
        proof {
            assert(statements@.take(i + 1).drop_last() =~= statements@.take(i as int));
        }
        if statement_returns(&statements[i]) {
            proof {
                lemma_block_returns_extend(statements@, i as int);
            }
            return true;
        }
        i += 1;
    }
    proof {
        assert(statements@.take(statements@.len() as int) =~= statements@);
    }
    false
}

/// Whether every path through the statement ends in a `return`.
fn statement_returns(statement: &Stmt) -> (r: bool)
    ensures
        r == statement_returns_spec(*statement),
    decreases statement, 1nat,
{
    match statement {
        Stmt::Return { .. } => true,
        Stmt::Block(statements) => block_returns(statements),
        Stmt::Conditional { then_branch, otherwise_branch: Some(otherwise_branch), .. } => {
            block_returns(then_branch) && block_returns(otherwise_branch)
        },
        _ => false,
    }
}

/// Declaring parameters changes nothing but the innermost scope.
proof fn lemma_declare_parameters(m: AnalyzerModel, ps: Seq<(String, Option<Type>)>)
    requires
        m.scopes.len() > 0,
    ensures
        declare_parameters(m, ps).in_function == m.in_function,
        declare_parameters(m, ps).return_type == m.return_type,
        declare_parameters(m, ps).functions == m.functions,
        declare_parameters(m, ps).scopes.len() == m.scopes.len(),
    decreases ps.len(),
{
    if ps.len() > 0 {
        lemma_declare_parameters(m, ps.drop_last());
    }
}

/// A block returns as soon as one of its statements does.
proof fn lemma_block_returns_extend(ss: Seq<Stmt>, i: int)
    requires
        0 <= i < ss.len(),
        statement_returns_spec(ss[i]),
    ensures
        block_returns_spec(ss),
    decreases ss.len(),
{
    if i < ss.len() - 1 {
        lemma_block_returns_extend(ss.drop_last(), i);
    }
}

/// The type of the last declaration of `name` in a scope.
fn frame_get(frame: &Vec<(String, VelaRiType)>, name: &String) -> (r: Option<VelaRiType>)
    ensures
        r == assoc_get(frame_model(frame@), name@),
{
    let ghost fm = frame_model(frame@);
    let mut i = frame.len();
    proof {
        assert(fm.take(fm.len() as int) =~= fm);
    }
    while i > 0
        invariant
            i <= frame@.len(),
            fm == frame_model(frame@),
            assoc_get(fm, name@) == assoc_get(fm.take(i as int), name@),
        decreases i,
    {
        proof {
            assert(fm.take(i as int).drop_last() =~= fm.take(i - 1));
        }
        if same_string(&frame[i - 1].0, name) {
            return Some(frame[i - 1].1.duplicate());
        }
        i -= 1;
    }
    proof {
        assert(fm.take(0) =~= Seq::<(Seq<char>, VelaRiType)>::empty());
    }
    None
}

} // verus!
