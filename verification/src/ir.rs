//! Lowering of the syntax tree to a typed, backend-neutral instruction list.
use vstd::prelude::*;
use crate::ast::{expr_span, value_model, Expr, Op, Stmt, Type, Value, ValueModel};
use crate::lexer::Span;
use crate::semantic::{
    entries_type, from_ast_spec, integral_literal, settle, unify_spec, unify_step, value_type_spec, values_type,
    VelaRiType,
};
use crate::semantic::literal_is_integral;
use crate::text::{copy_string, decimal, push_str, same_string, string_of, usize_to_string};

verus! {

#[derive(Debug, PartialEq)]
pub enum Instruction {
    Const { dest: String, value: Value, ty: Type },
    Load { dest: String, name: String, ty: Type },
    Store { name: String, value: String, ty: Type },
    Binary { dest: String, op: Op, left: String, right: String, ty: Type },
    Call { dest: String, name: String, args: Vec<String>, ty: Type },
    Index { dest: String, target: String, index: String, ty: Type },
    Aggregate { dest: String, elements: Vec<String>, ty: Type },
    Print { value: String },
    Assert { value: String },
    Return(Option<String>),
    Label(String),
    Branch { condition: String, then_label: String, else_label: String },
    Jump(String),
}

#[derive(Debug, PartialEq)]
pub struct IrFunction {
    pub name: String,
    pub parameters: Vec<(String, Type)>,
    pub return_type: Type,
    pub instructions: Vec<Instruction>,
}

#[derive(Debug, PartialEq)]
pub struct IrProgram {
    pub functions: Vec<IrFunction>,
}

/// The content of an instruction.
pub enum InstrModel {
    Const { dest: Seq<char>, value: ValueModel, ty: Type },
    Load { dest: Seq<char>, name: Seq<char>, ty: Type },
    Store { name: Seq<char>, value: Seq<char>, ty: Type },
    Binary { dest: Seq<char>, op: Op, left: Seq<char>, right: Seq<char>, ty: Type },
    Call { dest: Seq<char>, name: Seq<char>, args: Seq<Seq<char>>, ty: Type },
    Index { dest: Seq<char>, target: Seq<char>, index: Seq<char>, ty: Type },
    Aggregate { dest: Seq<char>, elements: Seq<Seq<char>>, ty: Type },
    Print { value: Seq<char> },
    Assert { value: Seq<char> },
    Return(Option<Seq<char>>),
    Label(Seq<char>),
    Branch { condition: Seq<char>, then_label: Seq<char>, else_label: Seq<char> },
    Jump(Seq<char>),
}

/// The content of a function.
pub struct FunctionModel {
    pub name: Seq<char>,
    pub parameters: Seq<(Seq<char>, Type)>,
    pub return_type: Type,
    pub instructions: Seq<InstrModel>,
}

pub open spec fn strings_model(xs: Seq<String>) -> Seq<Seq<char>> {
    xs.map_values(|s: String| s@)
}

pub open spec fn instr_model(i: Instruction) -> InstrModel {
    match i {
        Instruction::Const { dest, value, ty } => InstrModel::Const { dest: dest@, value: value_model(value), ty },
        Instruction::Load { dest, name, ty } => InstrModel::Load { dest: dest@, name: name@, ty },
        Instruction::Store { name, value, ty } => InstrModel::Store { name: name@, value: value@, ty },
        Instruction::Binary { dest, op, left, right, ty } => InstrModel::Binary {
            dest: dest@,
            op,
            left: left@,
            right: right@,
            ty,
        },
        Instruction::Call { dest, name, args, ty } => InstrModel::Call {
            dest: dest@,
            name: name@,
            args: strings_model(args@),
            ty,
        },
        Instruction::Index { dest, target, index, ty } => InstrModel::Index {
            dest: dest@,
            target: target@,
            index: index@,
            ty,
        },
        Instruction::Aggregate { dest, elements, ty } => InstrModel::Aggregate {
            dest: dest@,
            elements: strings_model(elements@),
            ty,
        },
        Instruction::Print { value } => InstrModel::Print { value: value@ },
        Instruction::Assert { value } => InstrModel::Assert { value: value@ },
        Instruction::Return(v) => InstrModel::Return(
            match v {
                Some(s) => Some(s@),
                None => None,
            },
        ),
        Instruction::Label(l) => InstrModel::Label(l@),
        Instruction::Branch { condition, then_label, else_label } => InstrModel::Branch {
            condition: condition@,
            then_label: then_label@,
            else_label: else_label@,
        },
        Instruction::Jump(l) => InstrModel::Jump(l@),
    }
}

pub open spec fn instrs_model(xs: Seq<Instruction>) -> Seq<InstrModel> {
    xs.map_values(|i: Instruction| instr_model(i))
}

pub open spec fn params_model(xs: Seq<(String, Type)>) -> Seq<(Seq<char>, Type)> {
    xs.map_values(|p: (String, Type)| (p.0@, p.1))
}

pub open spec fn function_model(f: IrFunction) -> FunctionModel {
    FunctionModel {
        name: f.name@,
        parameters: params_model(f.parameters@),
        return_type: f.return_type,
        instructions: instrs_model(f.instructions@),
    }
}

pub open spec fn program_model(p: IrProgram) -> Seq<FunctionModel> {
    p.functions@.map_values(|f: IrFunction| function_model(f))
}

/// The least common type of two types, `Unknown` where none exists.
pub open spec fn merge_spec(left: Type, right: Type) -> Type
    decreases left,
{
    if left == Type::Unknown {
        right
    } else if right == Type::Unknown || left == right {
        left
    } else {
        match (left, right) {
            (Type::Array(a), Type::Array(b)) => Type::Array(Box::new(merge_spec(*a, *b))),
            (Type::Mapping(k1, v1), Type::Mapping(k2, v2)) => Type::Mapping(
                Box::new(merge_spec(*k1, *k2)),
                Box::new(merge_spec(*v1, *v2)),
            ),
            (Type::Int, Type::Float) => Type::Float,
            (Type::Float, Type::Int) => Type::Float,
            _ => Type::Unknown,
        }
    }
}

/// Merging two types does not depend on their order, a type merged with
/// itself is that type, and `Unknown` leaves the other type as it is.
pub proof fn lemma_merge_laws(a: Type, b: Type)
    ensures
        merge_spec(a, b) == merge_spec(b, a),
        merge_spec(a, a) == a,
        merge_spec(Type::Unknown, a) == a,
        merge_spec(a, Type::Unknown) == a,
    decreases a,
{
    match (a, b) {
        (Type::Array(x), Type::Array(y)) => {
            lemma_merge_laws(*x, *y);
        },
        (Type::Mapping(k1, v1), Type::Mapping(k2, v2)) => {
            lemma_merge_laws(*k1, *k2);
            lemma_merge_laws(*v1, *v2);
        },
        _ => {},
    }
}

/// The least common type of two element types, `None` where they conflict:
/// `Unknown` gives way to any type, `Int` widens to `Float`, and
/// collections unify element by element.
pub open spec fn unify_ir(left: Type, right: Type) -> Option<Type>
    decreases left,
{
    if left == Type::Unknown {
        Some(right)
    } else if right == Type::Unknown || left == right {
        Some(left)
    } else {
        match (left, right) {
            (Type::Int, Type::Float) => Some(Type::Float),
            (Type::Float, Type::Int) => Some(Type::Float),
            (Type::Array(a), Type::Array(b)) => match unify_ir(*a, *b) {
                Some(t) => Some(Type::Array(Box::new(t))),
                None => None,
            },
            (Type::Mapping(k1, v1), Type::Mapping(k2, v2)) => match (unify_ir(*k1, *k2), unify_ir(*v1, *v2)) {
                (Some(k), Some(v)) => Some(Type::Mapping(Box::new(k), Box::new(v))),
                _ => None,
            },
            _ => None,
        }
    }
}

/// One more element type after the elements so far; a conflict stays.
pub open spec fn unify_ir_step(acc: Option<Type>, t: Type) -> Option<Type> {
    match acc {
        Some(a) => unify_ir(a, t),
        None => None,
    }
}

/// The type elements settle on: `Unknown` after a conflict.
pub open spec fn settle_ir(acc: Option<Type>) -> Type {
    match acc {
        Some(t) => t,
        None => Type::Unknown,
    }
}

/// The type of a literal value.
pub open spec fn infer_spec(v: Value) -> Type
    decreases v, 1nat,
{
    match v {
        Value::Number(t) => if integral_literal(t@) {
            Type::Int
        } else {
            Type::Float
        },
        Value::Boolean(_) => Type::Bool,
        Value::String(_) => Type::String,
        Value::Null => Type::Null,
        Value::Array(xs) => Type::Array(Box::new(settle_ir(infer_values(xs@)))),
        Value::Mapping(xs) => Type::Mapping(Box::new(Type::String), Box::new(settle_ir(infer_entries(xs@)))),
    }
}

/// The unified type of the values of an array literal, `None` once two
/// conflict. Lowering types collections as the checker does, so a mixed
/// collection such as `[1, "a", 2]` is an array of `Unknown`, whatever the
/// order of its elements, rather than of the type left by merging them in
/// order.
pub open spec fn infer_values(xs: Seq<Value>) -> Option<Type>
    decreases xs, 0nat,
{
    if xs.len() == 0 {
        Some(Type::Unknown)
    } else {
        unify_ir_step(infer_values(xs.drop_last()), infer_spec(xs.last()))
    }
}

/// The unified type of the values of a map literal, `None` once two
/// conflict.
pub open spec fn infer_entries(xs: Seq<(String, Value)>) -> Option<Type>
    decreases xs, 0nat,
{
    if xs.len() == 0 {
        Some(Type::Unknown)
    } else {
        unify_ir_step(infer_entries(xs.drop_last()), infer_spec(xs.last().1))
    }
}

/// Lowering `left op right` first lowers `left`, then `right`, and then
/// applies `op` with the temporary holding `left`'s value as its left
/// operand and the one holding `right`'s value as its right operand; the
/// result is the temporary that instruction defines.
pub proof fn lemma_binary_operands(ft: FnTable, st: LowerState, left: Expr, op: Op, right: Expr, span: Span)
    ensures
        ({
            let r = lower_expr(ft, st, Expr::Binary { left: Box::new(left), op, right: Box::new(right), span });
            let (st1, lv, _) = lower_expr(ft, st, left);
            let (st2, rv, _) = lower_expr(ft, st1, right);
            &&& r.0.instructions.drop_last() == st2.instructions
            &&& r.0.instructions.last() matches InstrModel::Binary { dest, op: o, left: l, right: rr, .. }
                && dest == r.1 && o == op && l == lv && rr == rv
        }),
{
    let r = lower_expr(ft, st, Expr::Binary { left: Box::new(left), op, right: Box::new(right), span });
    let (st1, lv, _) = lower_expr(ft, st, left);
    let (st2, rv, _) = lower_expr(ft, st1, right);
    assert(r.0.instructions.drop_last() =~= st2.instructions);
}

/// Lowering `target[index]` indexes the temporary holding the target's value
/// by the one holding the index's value.
pub proof fn lemma_index_operands(ft: FnTable, st: LowerState, target: Expr, index: Expr, span: Span)
    ensures
        ({
            let r = lower_expr(ft, st, Expr::Index { target: Box::new(target), index: Box::new(index), span });
            let (st1, tv, _) = lower_expr(ft, st, target);
            let (st2, iv, _) = lower_expr(ft, st1, index);
            &&& r.0.instructions.drop_last() == st2.instructions
            &&& r.0.instructions.last() matches InstrModel::Index { dest, target: t, index: i, .. }
                && dest == r.1 && t == tv && i == iv
        }),
{
    let r = lower_expr(ft, st, Expr::Index { target: Box::new(target), index: Box::new(index), span });
    let (st1, tv, _) = lower_expr(ft, st, target);
    let (st2, iv, _) = lower_expr(ft, st1, index);
    assert(r.0.instructions.drop_last() =~= st2.instructions);
}

/// A literal lowers to one constant instruction holding exactly that value,
/// and a variable to one load of exactly that name; each defines the
/// temporary that holds the result.
pub proof fn lemma_leaf_lowering(ft: FnTable, st: LowerState, v: Value, name: String, span: Span)
    ensures
        ({
            let r = lower_expr(ft, st, Expr::Literal(v, span));
            &&& r.0.instructions == st.instructions.push(r.0.instructions.last())
            &&& r.0.instructions.last() matches InstrModel::Const { dest, value, .. } && dest == r.1
                && value == value_model(v)
        }),
        ({
            let r = lower_expr(ft, st, Expr::Variable(name, span));
            &&& r.0.instructions == st.instructions.push(r.0.instructions.last())
            &&& r.0.instructions.last() matches InstrModel::Load { dest, name: n, .. } && dest == r.1 && n
                == name@
        }),
{
}

/// `let NAME be VALUE` lowers the value, then stores the temporary holding
/// it under `NAME`, and records `NAME` as a variable.
pub proof fn lemma_let_lowering(ft: FnTable, st: LowerState, name: String, annotation: Option<Type>, value: Expr, span: Span)
    ensures
        ({
            let r = lower_stmt(ft, st, Stmt::Let { name, annotation, value, span });
            let (st1, v, _) = lower_expr(ft, st, value);
            &&& r.instructions.drop_last() == st1.instructions
            &&& r.instructions.last() matches InstrModel::Store { name: n, value: x, .. } && n == name@ && x == v
            &&& r.variables.last().0 == name@
            &&& r.variables.drop_last() == st1.variables
        }),
{
    let r = lower_stmt(ft, st, Stmt::Let { name, annotation, value, span });
    let (st1, v, _) = lower_expr(ft, st, value);
    assert(r.instructions.drop_last() =~= st1.instructions);
    assert(r.variables.drop_last() =~= st1.variables);
}

/// A call lowers its arguments in order and passes the temporaries holding
/// them, in that order, to the function it names.
pub proof fn lemma_call_lowering(ft: FnTable, st: LowerState, name: String, arguments: Vec<Expr>, span: Span)
    ensures
        ({
            let r = lower_expr(ft, st, Expr::Call { name, arguments, span });
            let (st1, args) = lower_arguments(ft, st, arguments@);
            &&& r.0.instructions.drop_last() == st1.instructions
            &&& r.0.instructions.last() matches InstrModel::Call { dest, name: n, args: a, .. } && dest == r.1
                && n == name@ && a == args
            &&& args.len() == arguments@.len()
        }),
{
    let r = lower_expr(ft, st, Expr::Call { name, arguments, span });
    let (st1, args) = lower_arguments(ft, st, arguments@);
    assert(r.0.instructions.drop_last() =~= st1.instructions);
    lemma_arguments_count(ft, st, arguments@);
}

proof fn lemma_arguments_count(ft: FnTable, st: LowerState, es: Seq<Expr>)
    ensures
        lower_arguments(ft, st, es).1.len() == es.len(),
    decreases es.len(),
{
    if es.len() > 0 {
        lemma_arguments_count(ft, st, es.drop_last());
    }
}

/// A semantic element type for an annotation-level one.
pub open spec fn lift_type(t: Option<Type>) -> Option<VelaRiType> {
    match t {
        Some(t) => Some(from_ast_spec(t)),
        None => None,
    }
}

proof fn lemma_from_ast_injective(a: Type, b: Type)
    ensures
        from_ast_spec(a) == from_ast_spec(b) ==> a == b,
    decreases a,
{
    match (a, b) {
        (Type::Array(x), Type::Array(y)) => lemma_from_ast_injective(*x, *y),
        (Type::Mapping(k1, v1), Type::Mapping(k2, v2)) => {
            lemma_from_ast_injective(*k1, *k2);
            lemma_from_ast_injective(*v1, *v2);
        },
        _ => {},
    }
}

/// Unifying annotation types and then reading them as semantic types is the
/// same as unifying the semantic types.
proof fn lemma_unify_lifts(a: Type, b: Type)
    ensures
        unify_spec(from_ast_spec(a), from_ast_spec(b)) == lift_type(unify_ir(a, b)),
    decreases a,
{
    lemma_from_ast_injective(a, b);
    match (a, b) {
        (Type::Array(x), Type::Array(y)) => lemma_unify_lifts(*x, *y),
        (Type::Mapping(k1, v1), Type::Mapping(k2, v2)) => {
            lemma_unify_lifts(*k1, *k2);
            lemma_unify_lifts(*v1, *v2);
        },
        _ => {},
    }
}

proof fn lemma_step_lifts(acc: Option<Type>, t: Type)
    ensures
        unify_step(lift_type(acc), from_ast_spec(t)) == lift_type(unify_ir_step(acc, t)),
{
    if acc is Some {
        lemma_unify_lifts(acc->0, t);
    }
}

/// Semantic analysis and lowering give every literal value the same type:
/// the analyzer's type is the annotation type the lowerer infers, read
/// through `type_from_ast`.
pub proof fn lemma_literal_types_agree(v: Value)
    ensures
        value_type_spec(v) == from_ast_spec(infer_spec(v)),
    decreases v, 1nat,
{
    assert(from_ast_spec(Type::Unknown) == VelaRiType::Unknown);
    assert(from_ast_spec(Type::String) == VelaRiType::String);
    match v {
        Value::Number(t) => {
            if integral_literal(t@) {
                assert(infer_spec(v) == Type::Int);
            } else {
                assert(infer_spec(v) == Type::Float);
            }
        },
        Value::Array(xs) => {
            lemma_values_agree(xs@);
            assert(settle(values_type(xs@)) == from_ast_spec(settle_ir(infer_values(xs@))));
        },
        Value::Mapping(xs) => {
            lemma_entries_agree(xs@);
            assert(settle(entries_type(xs@)) == from_ast_spec(settle_ir(infer_entries(xs@))));
        },
        _ => {},
    }
}

proof fn lemma_values_agree(xs: Seq<Value>)
    ensures
        values_type(xs) == lift_type(infer_values(xs)),
    decreases xs, 0nat,
{
    if xs.len() > 0 {
        lemma_values_agree(xs.drop_last());
        lemma_literal_types_agree(xs.last());
        lemma_step_lifts(infer_values(xs.drop_last()), infer_spec(xs.last()));
    }
}

proof fn lemma_entries_agree(xs: Seq<(String, Value)>)
    ensures
        entries_type(xs) == lift_type(infer_entries(xs)),
    decreases xs, 0nat,
{
    if xs.len() > 0 {
        lemma_entries_agree(xs.drop_last());
        lemma_literal_types_agree(xs.last().1);
        lemma_step_lifts(infer_entries(xs.drop_last()), infer_spec(xs.last().1));
    }
}

/// The type of a binary operation's result.
pub open spec fn binary_spec(op: Op, left: Type, right: Type) -> Type {
    if op == Op::Eq || op == Op::And || op == Op::Or {
        Type::Bool
    } else if op == Op::Add || op == Op::Sub || op == Op::Mul || op == Op::Div {
        merge_spec(left, right)
    } else {
        Type::Unknown
    }
}

fn merge_types(left: &Type, right: &Type) -> (r: Type)
    ensures
        r == merge_spec(*left, *right),
    decreases left,
{
    if matches!(left, Type::Unknown) {
        return right.duplicate();
    }
    if matches!(right, Type::Unknown) || left.same(right) {
        return left.duplicate();
    }
    match (left, right) {
        (Type::Array(a), Type::Array(b)) => Type::Array(Box::new(merge_types(a, b))),
        (Type::Mapping(k1, v1), Type::Mapping(k2, v2)) => Type::Mapping(
            Box::new(merge_types(k1, k2)),
            Box::new(merge_types(v1, v2)),
        ),
        (Type::Int, Type::Float) | (Type::Float, Type::Int) => Type::Float,
        _ => Type::Unknown,
    }
}

fn unify_types(left: &Type, right: &Type) -> (r: Option<Type>)
    ensures
        r == unify_ir(*left, *right),
    decreases left,
{
    if matches!(left, Type::Unknown) {
        return Some(right.duplicate());
    }
    if matches!(right, Type::Unknown) || left.same(right) {
        return Some(left.duplicate());
    }
    match (left, right) {
        (Type::Int, Type::Float) | (Type::Float, Type::Int) => Some(Type::Float),
        (Type::Array(a), Type::Array(b)) => match unify_types(a, b) {
            Some(t) => Some(Type::Array(Box::new(t))),
            None => None,
        },
        (Type::Mapping(k1, v1), Type::Mapping(k2, v2)) => {
            let k = unify_types(k1, k2);
            let v = unify_types(v1, v2);
            match (k, v) {
                (Some(k), Some(v)) => Some(Type::Mapping(Box::new(k), Box::new(v))),
                _ => None,
            }
        },
        _ => None,
    }
}

fn unify_next(acc: Option<Type>, t: &Type) -> (r: Option<Type>)
    ensures
        r == unify_ir_step(acc, *t),
{
    match acc {
        Some(a) => unify_types(&a, t),
        None => None,
    }
}

fn settled(acc: Option<Type>) -> (r: Type)
    ensures
        r == settle_ir(acc),
{
    match acc {
        Some(t) => t,
        None => Type::Unknown,
    }
}

fn infer_value(value: &Value) -> (r: Type)
    ensures
        r == infer_spec(*value),
    decreases value,
{
    match value {
        Value::Number(t) => if literal_is_integral(t) {
            Type::Int
        } else {
            Type::Float
        },
        Value::Boolean(_) => Type::Bool,
        Value::String(_) => Type::String,
        Value::Null => Type::Null,
        Value::Array(xs) => {
            let mut acc = Some(Type::Unknown);
            let mut i: usize = 0;
            while i < xs.len()
                invariant
                    i <= xs.len(),
                    acc == infer_values(xs@.take(i as int)),
                    forall|j: int| 0 <= j < xs@.len() ==> decreases_to!(*value => #[trigger] xs@[j]),
                decreases xs.len() - i,
            {
                let t = infer_value(&xs[i]);
                acc = unify_next(acc, &t);
                proof {
                    assert(xs@.take(i + 1).drop_last() =~= xs@.take(i as int));
                }
                i += 1;
            }
            proof {
                assert(xs@.take(xs@.len() as int) =~= xs@);
            }
            Type::Array(Box::new(settled(acc)))
        },
        Value::Mapping(xs) => {
            let mut acc = Some(Type::Unknown);
            let mut i: usize = 0;
            while i < xs.len()
                invariant
                    i <= xs.len(),
                    acc == infer_entries(xs@.take(i as int)),
                    forall|j: int| 0 <= j < xs@.len() ==> decreases_to!(*value => #[trigger] xs@[j].1),
                decreases xs.len() - i,
            {
                let t = infer_value(&xs[i].1);
                acc = unify_next(acc, &t);
                proof {
                    assert(xs@.take(i + 1).drop_last() =~= xs@.take(i as int));
                }
                i += 1;
            }
            proof {
                assert(xs@.take(xs@.len() as int) =~= xs@);
            }
            Type::Mapping(Box::new(Type::String), Box::new(settled(acc)))
        },
    }
}

fn binary_type(op: Op, left: &Type, right: &Type) -> (r: Type)
    ensures
        r == binary_spec(op, *left, *right),
{
    match op {
        Op::Eq | Op::And | Op::Or => Type::Bool,
        Op::Add | Op::Sub | Op::Mul | Op::Div => merge_types(left, right),
        _ => Type::Unknown,
    }
}


/// Known functions: name, parameters and result type; a later entry
/// shadows an earlier one.
pub type FnTable = Seq<(Seq<char>, (Seq<(Seq<char>, Type)>, Type))>;

/// The state of lowering one function: the next fresh number, the types of
/// the variables seen (a later entry shadows an earlier one) and the
/// instructions emitted so far.
pub struct LowerState {
    pub next: nat,
    pub variables: Seq<(Seq<char>, Type)>,
    pub instructions: Seq<InstrModel>,
}

/// The name of the `n`th temporary.
pub open spec fn temp_name(n: nat) -> Seq<char> {
    "%"@ + decimal(n)
}

pub open spec fn emit(st: LowerState, i: InstrModel) -> LowerState {
    LowerState { instructions: st.instructions.push(i), ..st }
}

pub open spec fn bump(st: LowerState, k: nat) -> LowerState {
    LowerState { next: st.next + k, ..st }
}

pub open spec fn or_unknown(t: Option<Type>) -> Type {
    match t {
        Some(t) => t,
        None => Type::Unknown,
    }
}

/// The type that indexing a value of type `t` gives.
pub open spec fn element_of(t: Type) -> Type {
    match t {
        Type::Array(e) => *e,
        Type::Mapping(_, v) => *v,
        _ => Type::Unknown,
    }
}

/// The result type of a known function, `Unknown` otherwise.
pub open spec fn result_of(ft: FnTable, name: Seq<char>) -> Type {
    match crate::semantic::assoc_get(ft, name) {
        Some(sig) => sig.1,
        None => Type::Unknown,
    }
}

/// Lowering an expression: the new state, the temporary that holds its
/// value and its type.
pub open spec fn lower_expr(ft: FnTable, st: LowerState, e: Expr) -> (LowerState, Seq<char>, Type)
    decreases e, 1nat,
{
    match e {
        Expr::Literal(v, _) => {
            let d = temp_name(st.next);
            let ty = infer_spec(v);
            (emit(bump(st, 1), InstrModel::Const { dest: d, value: value_model(v), ty }), d, ty)
        },
        Expr::Variable(name, _) => {
            let d = temp_name(st.next);
            let ty = or_unknown(crate::semantic::assoc_get(st.variables, name@));
            (emit(bump(st, 1), InstrModel::Load { dest: d, name: name@, ty }), d, ty)
        },
        Expr::Array(elements, _) => {
            let (st1, values, et) = lower_elements(ft, st, elements@);
            let ty = Type::Array(Box::new(settle_ir(et)));
            let d = temp_name(st1.next);
            (emit(bump(st1, 1), InstrModel::Aggregate { dest: d, elements: values, ty }), d, ty)
        },
        Expr::Mapping(entries, _) => {
            let (st1, values, vt) = lower_entries(ft, st, entries@);
            let ty = Type::Mapping(Box::new(Type::String), Box::new(settle_ir(vt)));
            let d = temp_name(st1.next);
            (emit(bump(st1, 1), InstrModel::Aggregate { dest: d, elements: values, ty }), d, ty)
        },
        Expr::Index { target, index, .. } => {
            let (st1, tv, tt) = lower_expr(ft, st, *target);
            let (st2, iv, _) = lower_expr(ft, st1, *index);
            let ty = element_of(tt);
            let d = temp_name(st2.next);
            (
                emit(bump(st2, 1), InstrModel::Index { dest: d, target: tv, index: iv, ty }),
                d,
                ty,
            )
        },
        Expr::Binary { left, op, right, .. } => {
            let (st1, lv, lt) = lower_expr(ft, st, *left);
            let (st2, rv, rt) = lower_expr(ft, st1, *right);
            let ty = binary_spec(op, lt, rt);
            let d = temp_name(st2.next);
            (
                emit(bump(st2, 1), InstrModel::Binary { dest: d, op, left: lv, right: rv, ty }),
                d,
                ty,
            )
        },
        Expr::Unary { op, expr, .. } => {
            let (st1, v, ty) = lower_expr(ft, st, *expr);
            if op == Op::Neg {
                let z = temp_name(st1.next);
                let st2 = emit(bump(st1, 1), InstrModel::Const { dest: z, value: ValueModel::Number("0"@), ty: Type::Int });
                let d = temp_name(st2.next);
                (emit(bump(st2, 1), InstrModel::Binary { dest: d, op: Op::Sub, left: z, right: v, ty }), d, ty)
            } else {
                (st1, v, ty)
            }
        },
        Expr::Call { name, arguments, .. } => {
            let (st1, args) = lower_arguments(ft, st, arguments@);
            let ty = result_of(ft, name@);
            let d = temp_name(st1.next);
            (emit(bump(st1, 1), InstrModel::Call { dest: d, name: name@, args, ty }), d, ty)
        },
    }
}

/// Lowering array elements in order: the temporaries and the unified type
/// (`None` once two conflict, as for literals and in the checker).
pub open spec fn lower_elements(ft: FnTable, st: LowerState, es: Seq<Expr>) -> (
    LowerState,
    Seq<Seq<char>>,
    Option<Type>,
)
    decreases es, 0nat,
{
    if es.len() == 0 {
        (st, Seq::empty(), Some(Type::Unknown))
    } else {
        let (st1, vs, t) = lower_elements(ft, st, es.drop_last());
        let (st2, v, ty) = lower_expr(ft, st1, es.last());
        (st2, vs.push(v), unify_ir_step(t, ty))
    }
}

/// Lowering map values in order: the temporaries and the unified type
/// (`None` once two conflict).
pub open spec fn lower_entries(ft: FnTable, st: LowerState, es: Seq<(String, Expr)>) -> (
    LowerState,
    Seq<Seq<char>>,
    Option<Type>,
)
    decreases es, 0nat,
{
    if es.len() == 0 {
        (st, Seq::empty(), Some(Type::Unknown))
    } else {
        let (st1, vs, t) = lower_entries(ft, st, es.drop_last());
        let (st2, v, ty) = lower_expr(ft, st1, es.last().1);
        (st2, vs.push(v), unify_ir_step(t, ty))
    }
}

/// Lowering call arguments in order: their temporaries.
pub open spec fn lower_arguments(ft: FnTable, st: LowerState, es: Seq<Expr>) -> (
    LowerState,
    Seq<Seq<char>>,
)
    decreases es, 0nat,
{
    if es.len() == 0 {
        (st, Seq::empty())
    } else {
        let (st1, vs) = lower_arguments(ft, st, es.drop_last());
        let (st2, v, _) = lower_expr(ft, st1, es.last());
        (st2, vs.push(v))
    }
}

/// How many fresh numbers lowering an expression takes.
pub open spec fn expr_cost(e: Expr) -> nat
    decreases e, 1nat,
{
    match e {
        Expr::Literal(..) => 1,
        Expr::Variable(..) => 1,
        Expr::Array(elements, _) => exprs_cost(elements@) + 1,
        Expr::Mapping(entries, _) => entries_cost(entries@) + 1,
        Expr::Index { target, index, .. } => expr_cost(*target) + expr_cost(*index) + 1,
        Expr::Binary { left, right, .. } => expr_cost(*left) + expr_cost(*right) + 1,
        Expr::Unary { op, expr, .. } => expr_cost(*expr) + if op == Op::Neg {
            2nat
        } else {
            0nat
        },
        Expr::Call { arguments, .. } => exprs_cost(arguments@) + 1,
    }
}

pub open spec fn exprs_cost(es: Seq<Expr>) -> nat
    decreases es, 0nat,
{
    if es.len() == 0 {
        0
    } else {
        exprs_cost(es.drop_last()) + expr_cost(es.last())
    }
}

pub open spec fn entries_cost(es: Seq<(String, Expr)>) -> nat
    decreases es, 0nat,
{
    if es.len() == 0 {
        0
    } else {
        entries_cost(es.drop_last()) + expr_cost(es.last().1)
    }
}


/// Lowering a statement: the new state.
pub open spec fn lower_stmt(ft: FnTable, st: LowerState, s: Stmt) -> LowerState
    decreases s, 1nat,
{
    match s {
        Stmt::Block(ss) => lower_stmts(ft, st, ss@),
        Stmt::Let { name, annotation, value, .. } => {
            let (st1, v, inferred) = lower_expr(ft, st, value);
            let ty = match annotation {
                Some(a) => a,
                None => inferred,
            };
            let st2 = LowerState { variables: st1.variables.push((name@, ty)), ..st1 };
            emit(st2, InstrModel::Store { name: name@, value: v, ty })
        },
        Stmt::Assign { name, value, .. } => {
            let (st1, v, inferred) = lower_expr(ft, st, value);
            let ty = match crate::semantic::assoc_get(st1.variables, name@) {
                Some(t) => t,
                None => inferred,
            };
            emit(st1, InstrModel::Store { name: name@, value: v, ty })
        },
        Stmt::Print(e) => {
            let (st1, v, _) = lower_expr(ft, st, e);
            emit(st1, InstrModel::Print { value: v })
        },
        Stmt::Assert(e) => {
            let (st1, v, _) = lower_expr(ft, st, e);
            emit(st1, InstrModel::Assert { value: v })
        },
        Stmt::Return { value, .. } => match value {
            Some(e) => {
                let (st1, v, _) = lower_expr(ft, st, e);
                emit(st1, InstrModel::Return(Some(v)))
            },
            None => emit(st, InstrModel::Return(None)),
        },
        Stmt::Conditional { condition, then_branch, otherwise_branch, .. } => {
            let (st1, c, _) = lower_expr(ft, st, condition);
            let then_label = "then"@ + decimal(st1.next);
            let else_label = "else"@ + decimal(st1.next + 1);
            let join_label = "join"@ + decimal(st1.next + 2);
            let st2 = emit(
                emit(
                    bump(st1, 3),
                    InstrModel::Branch { condition: c, then_label, else_label },
                ),
                InstrModel::Label(then_label),
            );
            let st3 = lower_stmts(ft, st2, then_branch@);
            let st4 = emit(emit(st3, InstrModel::Jump(join_label)), InstrModel::Label(else_label));
            let st5 = match otherwise_branch {
                Some(o) => lower_stmts(ft, st4, o@),
                None => st4,
            };
            emit(emit(st5, InstrModel::Jump(join_label)), InstrModel::Label(join_label))
        },
        Stmt::RepeatLoop { iterations, body, .. } => {
            let (st1, it, _) = lower_expr(ft, st, iterations);
            let body_label = "repeat_body"@ + decimal(st1.next);
            let exit_label = "repeat_exit"@ + decimal(st1.next + 1);
            let st2 = emit(
                emit(
                    bump(st1, 2),
                    InstrModel::Branch { condition: it, then_label: body_label, else_label: exit_label },
                ),
                InstrModel::Label(body_label),
            );
            let st3 = lower_stmts(ft, st2, body@);
            emit(emit(st3, InstrModel::Jump(exit_label)), InstrModel::Label(exit_label))
        },
        _ => st,
    }
}

/// Lowering statements in order.
pub open spec fn lower_stmts(ft: FnTable, st: LowerState, ss: Seq<Stmt>) -> LowerState
    decreases ss, 0nat,
{
    if ss.len() == 0 {
        st
    } else {
        lower_stmt(ft, lower_stmts(ft, st, ss.drop_last()), ss.last())
    }
}

/// How many fresh numbers lowering a statement takes.
pub open spec fn stmt_cost(s: Stmt) -> nat
    decreases s, 1nat,
{
    match s {
        Stmt::Block(ss) => stmts_cost(ss@),
        Stmt::Let { value, .. } => expr_cost(value),
        Stmt::Assign { value, .. } => expr_cost(value),
        Stmt::Print(e) => expr_cost(e),
        Stmt::Assert(e) => expr_cost(e),
        Stmt::Return { value, .. } => match value {
            Some(e) => expr_cost(e),
            None => 0,
        },
        Stmt::Conditional { condition, then_branch, otherwise_branch, .. } => expr_cost(condition)
            + 3 + stmts_cost(then_branch@) + match otherwise_branch {
            Some(o) => stmts_cost(o@),
            None => 0,
        },
        Stmt::RepeatLoop { iterations, body, .. } => expr_cost(iterations) + 2 + stmts_cost(body@),
        _ => 0,
    }
}

pub open spec fn stmts_cost(ss: Seq<Stmt>) -> nat
    decreases ss, 0nat,
{
    if ss.len() == 0 {
        0
    } else {
        stmts_cost(ss.drop_last()) + stmt_cost(ss.last())
    }
}

/// Parameters with their annotations, `Unknown` where there is none.
pub open spec fn parameter_types(ps: Seq<(String, Option<Type>)>) -> Seq<(Seq<char>, Type)> {
    ps.map_values(|p: (String, Option<Type>)| (p.0@, or_unknown(p.1)))
}

/// The function table after recording the declarations in `s`: blocks are
/// searched recursively, function bodies are not.
pub open spec fn collect_spec(ft: FnTable, s: Stmt) -> FnTable
    decreases s, 1nat,
{
    match s {
        Stmt::Block(ss) => collect_all_spec(ft, ss@),
        Stmt::Function { name, parameters, return_type, .. } => ft.push(
            (name@, (parameter_types(parameters@), or_unknown(return_type))),
        ),
        _ => ft,
    }
}

pub open spec fn collect_all_spec(ft: FnTable, ss: Seq<Stmt>) -> FnTable
    decreases ss, 0nat,
{
    if ss.len() == 0 {
        ft
    } else {
        collect_spec(collect_all_spec(ft, ss.drop_last()), ss.last())
    }
}

/// Lowering one function body, numbering from `next`: the function and the
/// next free number.
pub open spec fn lower_function_spec(
    ft: FnTable,
    next: nat,
    name: Seq<char>,
    parameters: Seq<(Seq<char>, Type)>,
    return_type: Type,
    body: Seq<Stmt>,
) -> (FunctionModel, nat) {
    let st = lower_stmts(
        ft,
        LowerState { next, variables: parameters, instructions: Seq::empty() },
        body,
    );
    (FunctionModel { name, parameters, return_type, instructions: st.instructions }, st.next)
}

/// Lowering the function declarations among `ss`, in order, numbering from `next`.
pub open spec fn lower_declarations(ft: FnTable, next: nat, ss: Seq<Stmt>) -> (
    Seq<FunctionModel>,
    nat,
)
    decreases ss.len(),
{
    if ss.len() == 0 {
        (Seq::empty(), next)
    } else {
        let (fs, n) = lower_declarations(ft, next, ss.drop_last());
        match ss.last() {
            Stmt::Function { name, parameters, return_type, body, .. } => {
                let (f, n2) = lower_function_spec(
                    ft,
                    n,
                    name@,
                    parameter_types(parameters@),
                    or_unknown(return_type),
                    body@,
                );
                (fs.push(f), n2)
            },
            _ => (fs, n),
        }
    }
}

/// How many fresh numbers lowering the declarations among `ss` takes.
pub open spec fn declarations_cost(ss: Seq<Stmt>) -> nat
    decreases ss.len(),
{
    if ss.len() == 0 {
        0
    } else {
        declarations_cost(ss.drop_last()) + match ss.last() {
            Stmt::Function { body, .. } => stmts_cost(body@),
            _ => 0,
        }
    }
}

/// The lowered program: when the root is a block, first `main`, made of its
/// statements (declarations lower to nothing), then each top-level function
/// in order, all numbered by one counter from 0; otherwise no function.
pub open spec fn lower_spec(root: Stmt) -> Seq<FunctionModel> {
    let ft = collect_spec(Seq::empty(), root);
    match root {
        Stmt::Block(ss) => {
            let (main, n) = lower_function_spec(ft, 0, "main"@, Seq::empty(), Type::Null, ss@);
            seq![main] + lower_declarations(ft, n, ss@).0
        },
        _ => Seq::empty(),
    }
}

/// How many fresh numbers lowering a program takes.
pub open spec fn program_cost(root: Stmt) -> nat {
    match root {
        Stmt::Block(ss) => stmts_cost(ss@) + declarations_cost(ss@),
        _ => 0,
    }
}


proof fn lemma_exprs_cost_prefix(es: Seq<Expr>, j: int)
    requires
        0 <= j <= es.len(),
    ensures
        exprs_cost(es.take(j)) <= exprs_cost(es),
    decreases es.len(),
{
    if j < es.len() {
        lemma_exprs_cost_prefix(es.drop_last(), j);
        assert(es.drop_last().take(j) =~= es.take(j));
    } else {
        assert(es.take(j) =~= es);
    }
}

proof fn lemma_entries_cost_prefix(es: Seq<(String, Expr)>, j: int)
    requires
        0 <= j <= es.len(),
    ensures
        entries_cost(es.take(j)) <= entries_cost(es),
    decreases es.len(),
{
    if j < es.len() {
        lemma_entries_cost_prefix(es.drop_last(), j);
        assert(es.drop_last().take(j) =~= es.take(j));
    } else {
        assert(es.take(j) =~= es);
    }
}

proof fn lemma_stmts_cost_prefix(ss: Seq<Stmt>, j: int)
    requires
        0 <= j <= ss.len(),
    ensures
        stmts_cost(ss.take(j)) <= stmts_cost(ss),
    decreases ss.len(),
{
    if j < ss.len() {
        lemma_stmts_cost_prefix(ss.drop_last(), j);
        assert(ss.drop_last().take(j) =~= ss.take(j));
    } else {
        assert(ss.take(j) =~= ss);
    }
}

proof fn lemma_declarations_cost_prefix(ss: Seq<Stmt>, j: int)
    requires
        0 <= j <= ss.len(),
    ensures
        declarations_cost(ss.take(j)) <= declarations_cost(ss),
    decreases ss.len(),
{
    if j < ss.len() {
        lemma_declarations_cost_prefix(ss.drop_last(), j);
        assert(ss.drop_last().take(j) =~= ss.take(j));
    } else {
        assert(ss.take(j) =~= ss);
    }
}

/// `a + b`, or `None` when the sum does not fit in `usize`.
fn add_size(a: usize, b: usize) -> (r: Option<usize>)
    ensures
        r matches Some(n) ==> n == a + b,
        r is None ==> a + b > usize::MAX,
{
    a.checked_add(b)
}

/// The cost of lowering an expression, when it fits in `usize`.
#[verifier::loop_isolation(false)]
fn expr_size(e: &Expr) -> (r: Option<usize>)
    ensures
        r matches Some(n) ==> n == expr_cost(*e),
        r is None ==> expr_cost(*e) > usize::MAX,
    decreases e,
{
    match e {
        Expr::Literal(..) => Some(1),
        Expr::Variable(..) => Some(1),
        Expr::Array(elements, _) => {
            let mut total: usize = 0;
            let mut i: usize = 0;
            while i < elements.len()
                invariant
                    i <= elements@.len(),
                    total == exprs_cost(elements@.take(i as int)),
                decreases elements@.len() - i,
            {
                proof {
                    assert(decreases_to!(elements => elements@));
                    assert(decreases_to!(elements@ => elements@[i as int]));
                    assert(elements@.take(i + 1).drop_last() =~= elements@.take(i as int));
                    assert(elements@.take(i + 1).last() == elements@[i as int]);
                    lemma_exprs_cost_prefix(elements@, i + 1);
                }
                let part = expr_size(&elements[i]);
                match part {
                    Some(c) => match add_size(total, c) {
                        Some(t) => {
                            total = t;
                        },
                        None => return None,
                    },
                    None => return None,
                }
                i += 1;
            }
            proof {
                assert(elements@.take(elements@.len() as int) =~= elements@);
            }
            add_size(total, 1)
        },
        Expr::Mapping(entries, _) => {
            let mut total: usize = 0;
            let mut i: usize = 0;
            while i < entries.len()
                invariant
                    i <= entries@.len(),
                    total == entries_cost(entries@.take(i as int)),
                decreases entries@.len() - i,
            {
                proof {
                    assert(decreases_to!(entries => entries@));
                    assert(decreases_to!(entries@ => entries@[i as int]));
                    assert(decreases_to!(entries@[i as int] => entries@[i as int].1));
                    assert(entries@.take(i + 1).drop_last() =~= entries@.take(i as int));
                    assert(entries@.take(i + 1).last() == entries@[i as int]);
                    lemma_entries_cost_prefix(entries@, i + 1);
                }
                let part = expr_size(&entries[i].1);
                match part {
                    Some(c) => match add_size(total, c) {
                        Some(t) => {
                            total = t;
                        },
                        None => return None,
                    },
                    None => return None,
                }
                i += 1;
            }
            proof {
                assert(entries@.take(entries@.len() as int) =~= entries@);
            }
            add_size(total, 1)
        },
        Expr::Index { target, index, .. } => match (expr_size(target), expr_size(index)) {
            (Some(a), Some(b)) => match add_size(a, b) {
                Some(c) => add_size(c, 1),
                None => None,
            },
            _ => None,
        },
        Expr::Binary { left, right, .. } => match (expr_size(left), expr_size(right)) {
            (Some(a), Some(b)) => match add_size(a, b) {
                Some(c) => add_size(c, 1),
                None => None,
            },
            _ => None,
        },
        Expr::Unary { op, expr, .. } => match expr_size(expr) {
            Some(a) => match op {
                Op::Neg => add_size(a, 2),
                _ => Some(a),
            },
            None => None,
        },
        Expr::Call { arguments, .. } => {
            let mut total: usize = 0;
            let mut i: usize = 0;
            while i < arguments.len()
                invariant
                    i <= arguments@.len(),
                    total == exprs_cost(arguments@.take(i as int)),
                decreases arguments@.len() - i,
            {
                proof {
                    assert(decreases_to!(arguments => arguments@));
                    assert(decreases_to!(arguments@ => arguments@[i as int]));
                    assert(arguments@.take(i + 1).drop_last() =~= arguments@.take(i as int));
                    assert(arguments@.take(i + 1).last() == arguments@[i as int]);
                    lemma_exprs_cost_prefix(arguments@, i + 1);
                }
                let part = expr_size(&arguments[i]);
                match part {
                    Some(c) => match add_size(total, c) {
                        Some(t) => {
                            total = t;
                        },
                        None => return None,
                    },
                    None => return None,
                }
                i += 1;
            }
            proof {
                assert(arguments@.take(arguments@.len() as int) =~= arguments@);
            }
            add_size(total, 1)
        },
    }
}

/// The cost of lowering a list of statements, when it fits in `usize`.
#[verifier::loop_isolation(false)]
fn stmts_size(ss: &Vec<Stmt>) -> (r: Option<usize>)
    ensures
        r matches Some(n) ==> n == stmts_cost(ss@),
        r is None ==> stmts_cost(ss@) > usize::MAX,
    decreases ss, 0nat,
{
    let mut total: usize = 0;
    let mut i: usize = 0;
    while i < ss.len()
        invariant
            i <= ss@.len(),
            total == stmts_cost(ss@.take(i as int)),
        decreases ss@.len() - i,
    {
        proof {
            assert(decreases_to!(ss => ss@));
            assert(decreases_to!(ss@ => ss@[i as int]));
            assert(ss@.take(i + 1).drop_last() =~= ss@.take(i as int));
            assert(ss@.take(i + 1).last() == ss@[i as int]);
            lemma_stmts_cost_prefix(ss@, i + 1);
        }
        let part = stmt_size(&ss[i]);
        match part {
            Some(c) => match add_size(total, c) {
                Some(t) => {
                    total = t;
                },
                None => return None,
            },
            None => return None,
        }
        i += 1;
    }
    proof {
        assert(ss@.take(ss@.len() as int) =~= ss@);
    }
    Some(total)
}

/// The cost of lowering a statement, when it fits in `usize`.
fn stmt_size(s: &Stmt) -> (r: Option<usize>)
    ensures
        r matches Some(n) ==> n == stmt_cost(*s),
        r is None ==> stmt_cost(*s) > usize::MAX,
    decreases s, 1nat,
{
    match s {
        Stmt::Block(ss) => stmts_size(ss),
        Stmt::Let { value, .. } => expr_size(value),
        Stmt::Assign { value, .. } => expr_size(value),
        Stmt::Print(e) => expr_size(e),
        Stmt::Assert(e) => expr_size(e),
        Stmt::Return { value, .. } => match value {
            Some(e) => expr_size(e),
            None => Some(0),
        },
        Stmt::Conditional { condition, then_branch, otherwise_branch, .. } => {
            let a = match expr_size(condition) {
                Some(a) => a,
                None => return None,
            };
            let b = match stmts_size(then_branch) {
                Some(b) => b,
                None => return None,
            };
            let c = match otherwise_branch {
                Some(o) => match stmts_size(o) {
                    Some(c) => c,
                    None => return None,
                },
                None => 0,
            };
            match add_size(a, 3) {
                Some(x) => match add_size(x, b) {
                    Some(y) => add_size(y, c),
                    None => None,
                },
                None => None,
            }
        },
        Stmt::RepeatLoop { iterations, body, .. } => {
            let a = match expr_size(iterations) {
                Some(a) => a,
                None => return None,
            };
            let b = match stmts_size(body) {
                Some(b) => b,
                None => return None,
            };
            match add_size(a, 2) {
                Some(x) => add_size(x, b),
                None => None,
            }
        },
        _ => Some(0),
    }
}

/// How many fresh numbers lowering `root` takes, or `None` when that number
/// does not fit in `usize` (then `Lowerer::lower` cannot number them all).
#[verifier::loop_isolation(false)]
pub fn program_size(root: &Stmt) -> (r: Option<usize>)
    ensures
        r matches Some(n) ==> n == program_cost(*root),
        r is None ==> program_cost(*root) > usize::MAX,
{
    match root {
        Stmt::Block(ss) => {
            let a = match stmts_size(ss) {
                Some(a) => a,
                None => return None,
            };
            let mut total: usize = 0;
            let mut i: usize = 0;
            while i < ss.len()
                invariant
                    i <= ss@.len(),
                    a == stmts_cost(ss@),
                    total == declarations_cost(ss@.take(i as int)),
                decreases ss@.len() - i,
            {
                proof {
                    assert(ss@.take(i + 1).drop_last() =~= ss@.take(i as int));
                    assert(ss@.take(i + 1).last() == ss@[i as int]);
                    lemma_declarations_cost_prefix(ss@, i + 1);
                }
                match &ss[i] {
                    Stmt::Function { body, .. } => {
                        let part = match stmts_size(body) {
                            Some(c) => c,
                            None => return None,
                        };
                        match add_size(total, part) {
                            Some(t) => {
                                total = t;
                            },
                            None => return None,
                        }
                    },
                    _ => {},
                }
                i += 1;
            }
            proof {
                assert(ss@.take(ss@.len() as int) =~= ss@);
            }
            add_size(a, total)
        },
        _ => Some(0),
    }
}

/// The known functions as lowering records them.
pub type FnEntries = Vec<(String, (Vec<(String, Type)>, Type))>;

pub open spec fn table_model(fs: Seq<(String, (Vec<(String, Type)>, Type))>) -> FnTable {
    fs.map_values(|p: (String, (Vec<(String, Type)>, Type))| (p.0@, (params_model(p.1.0@), p.1.1)))
}

/// Lowering of one function body.
struct FunctionLowerer {
    next: usize,
    variables: Vec<(String, Type)>,
    instructions: Vec<Instruction>,
}

impl FunctionLowerer {
    spec fn model(&self) -> LowerState {
        LowerState {
            next: self.next as nat,
            variables: params_model(self.variables@),
            instructions: instrs_model(self.instructions@),
        }
    }

    fn push(&mut self, i: Instruction)
        ensures
            final(self).model() == emit(old(self).model(), instr_model(i)),
            final(self).next == old(self).next,
    {
        let ghost im = instr_model(i);
        self.instructions.push(i);
        proof {
            assert(instrs_model(self.instructions@) =~= instrs_model(old(self).instructions@).push(im));
        }
    }

    fn temp(&mut self) -> (r: String)
        requires
            old(self).next < usize::MAX,
        ensures
            r@ == temp_name(old(self).next as nat),
            final(self).model() == bump(old(self).model(), 1),
            final(self).next == old(self).next + 1,
    {
        let mut name = string_of("%");
        let n = usize_to_string(self.next);
        push_str(&mut name, n.as_str());
        self.next += 1;
        name
    }

    fn label(&mut self, prefix: &str) -> (r: String)
        requires
            old(self).next < usize::MAX,
        ensures
            r@ == prefix@ + decimal(old(self).next as nat),
            final(self).model() == bump(old(self).model(), 1),
            final(self).next == old(self).next + 1,
    {
        let mut name = string_of(prefix);
        let n = usize_to_string(self.next);
        push_str(&mut name, n.as_str());
        self.next += 1;
        name
    }

    /// The type of the last record of `name`.
    fn variable(&self, name: &String) -> (r: Option<Type>)
        ensures
            r == crate::semantic::assoc_get(params_model(self.variables@), name@),
    {
        let ghost vm = params_model(self.variables@);
        let mut i = self.variables.len();
        proof {
            assert(vm.take(vm.len() as int) =~= vm);
        }
        while i > 0
            invariant
                i <= self.variables@.len(),
                vm == params_model(self.variables@),
                crate::semantic::assoc_get(vm, name@) == crate::semantic::assoc_get(vm.take(i as int), name@),
            decreases i,
        {
            proof {
                assert(vm.take(i as int).drop_last() =~= vm.take(i - 1));
            }
            if same_string(&self.variables[i - 1].0, name) {
                return Some(self.variables[i - 1].1.duplicate());
            }
            i -= 1;
        }
        proof {
            assert(vm.take(0) =~= Seq::<(Seq<char>, Type)>::empty());
        }
        None
    }
}

/// The result type recorded for `name`, `Unknown` where it is not known.
fn result_type(ft: &FnEntries, name: &String) -> (r: Type)
    ensures
        r == result_of(table_model(ft@), name@),
{
    let ghost fm = table_model(ft@);
    let mut i = ft.len();
    proof {
        assert(fm.take(fm.len() as int) =~= fm);
    }
    while i > 0
        invariant
            i <= ft@.len(),
            fm == table_model(ft@),
            crate::semantic::assoc_get(fm, name@) == crate::semantic::assoc_get(fm.take(i as int), name@),
        decreases i,
    {
        proof {
            assert(fm.take(i as int).drop_last() =~= fm.take(i - 1));
        }
        if same_string(&ft[i - 1].0, name) {
            return ft[i - 1].1.1.duplicate();
        }
        i -= 1;
    }
    proof {
        assert(fm.take(0) =~= FnTable::empty());
    }
    Type::Unknown
}


impl FunctionLowerer {
    fn expr(&mut self, ft: &FnEntries, expression: &Expr) -> (r: (String, Type))
        requires
            old(self).next + expr_cost(*expression) <= usize::MAX,
        ensures
            final(self).model() == lower_expr(table_model(ft@), old(self).model(), *expression).0,
            r.0@ == lower_expr(table_model(ft@), old(self).model(), *expression).1,
            r.1 == lower_expr(table_model(ft@), old(self).model(), *expression).2,
            final(self).next == old(self).next + expr_cost(*expression),
        decreases expression, 1nat,
    {
        match expression {
            Expr::Literal(value, _) => {
                let dest = self.temp();
                let ty = infer_value(value);
                self.push(Instruction::Const { dest: copy_string(&dest), value: value.duplicate(), ty: ty.duplicate() });
                (dest, ty)
            },
            Expr::Variable(name, _) => {
                let dest = self.temp();
                let ty = match self.variable(name) {
                    Some(t) => t,
                    None => Type::Unknown,
                };
                self.push(Instruction::Load { dest: copy_string(&dest), name: copy_string(name), ty: ty.duplicate() });
                (dest, ty)
            },
            Expr::Array(..) => self.array_expr(ft, expression),
            Expr::Mapping(..) => self.mapping_expr(ft, expression),
            Expr::Index { .. } => self.index_expr(ft, expression),
            Expr::Binary { .. } => self.binary_expr(ft, expression),
            Expr::Unary { op, expr, .. } => {
                let (value, ty) = self.expr(ft, expr);
                match op {
                    Op::Neg => {
                        let zero = self.temp();
                        self.push(Instruction::Const {
                            dest: copy_string(&zero),
                            value: Value::Number(string_of("0")),
                            ty: Type::Int,
                        });
                        let dest = self.temp();
                        self.push(Instruction::Binary {
                            dest: copy_string(&dest),
                            op: Op::Sub,
                            left: zero,
                            right: value,
                            ty: ty.duplicate(),
                        });
                        (dest, ty)
                    },
                    _ => (value, ty),
                }
            },
            Expr::Call { .. } => self.call_expr(ft, expression),
        }
    }

    #[verifier::loop_isolation(false)]
    fn array_expr(&mut self, ft: &FnEntries, expression: &Expr) -> (r: (String, Type))
        requires
            old(self).next + expr_cost(*expression) <= usize::MAX,
            expression is Array,
        ensures
            final(self).model() == lower_expr(table_model(ft@), old(self).model(), *expression).0,
            r.0@ == lower_expr(table_model(ft@), old(self).model(), *expression).1,
            r.1 == lower_expr(table_model(ft@), old(self).model(), *expression).2,
            final(self).next == old(self).next + expr_cost(*expression),
        decreases expression, 0nat,
    {
        let ghost t = table_model(ft@);
        let ghost m = self.model();
        match expression {
            Expr::Array(elements, _) => {
                let mut values: Vec<String> = Vec::new();
                let mut element_type = Some(Type::Unknown);
                let mut i: usize = 0;
                while i < elements.len()
                    invariant
                        i <= elements.len(),
                        self.model() == lower_elements(t, m, elements@.take(i as int)).0,
                        strings_model(values@) == lower_elements(t, m, elements@.take(i as int)).1,
                        element_type == lower_elements(t, m, elements@.take(i as int)).2,
                        self.next == m.next + exprs_cost(elements@.take(i as int)),
                    decreases elements.len() - i,
                {
                    proof {
                        assert(decreases_to!(elements => elements@));
                        assert(decreases_to!(elements@ => elements@[i as int]));
                        assert(elements@.take(i + 1).drop_last() =~= elements@.take(i as int));
                        lemma_exprs_cost_prefix(elements@, i + 1);
                    }
                    let (value, ty) = self.expr(ft, &elements[i]);
                    let ghost vs = values@;
                    values.push(value);
                    proof {
                        assert(strings_model(values@) =~= strings_model(vs).push(values@.last()@));
                    }
                    element_type = unify_next(element_type, &ty);
                    i += 1;
                }
                proof {
                    assert(elements@.take(elements@.len() as int) =~= elements@);
                }
                let ty = Type::Array(Box::new(settled(element_type)));
                let dest = self.temp();
                self.push(Instruction::Aggregate { dest: copy_string(&dest), elements: values, ty: ty.duplicate() });
                (dest, ty)
            },
            _ => {
                assert(false);
                (String::new(), Type::Unknown)
            },
        }
    }

    #[verifier::loop_isolation(false)]
    fn mapping_expr(&mut self, ft: &FnEntries, expression: &Expr) -> (r: (String, Type))
        requires
            old(self).next + expr_cost(*expression) <= usize::MAX,
            expression is Mapping,
        ensures
            final(self).model() == lower_expr(table_model(ft@), old(self).model(), *expression).0,
            r.0@ == lower_expr(table_model(ft@), old(self).model(), *expression).1,
            r.1 == lower_expr(table_model(ft@), old(self).model(), *expression).2,
            final(self).next == old(self).next + expr_cost(*expression),
        decreases expression, 0nat,
    {
        let ghost t = table_model(ft@);
        let ghost m = self.model();
        match expression {
            Expr::Mapping(entries, _) => {
                let mut values: Vec<String> = Vec::new();
                let mut value_type = Some(Type::Unknown);
                let mut i: usize = 0;
                while i < entries.len()
                    invariant
                        i <= entries.len(),
                        self.model() == lower_entries(t, m, entries@.take(i as int)).0,
                        strings_model(values@) == lower_entries(t, m, entries@.take(i as int)).1,
                        value_type == lower_entries(t, m, entries@.take(i as int)).2,
                        self.next == m.next + entries_cost(entries@.take(i as int)),
                    decreases entries.len() - i,
                {
                    proof {
                        assert(decreases_to!(entries => entries@));
                        assert(decreases_to!(entries@ => entries@[i as int]));
                        assert(decreases_to!(entries@[i as int] => entries@[i as int].1));
                        assert(entries@.take(i + 1).drop_last() =~= entries@.take(i as int));
                        lemma_entries_cost_prefix(entries@, i + 1);
                    }
                    let (value, ty) = self.expr(ft, &entries[i].1);
                    let ghost vs = values@;
                    values.push(value);
                    proof {
                        assert(strings_model(values@) =~= strings_model(vs).push(values@.last()@));
                    }
                    value_type = unify_next(value_type, &ty);
                    i += 1;
                }
                proof {
                    assert(entries@.take(entries@.len() as int) =~= entries@);
                }
                let ty = Type::Mapping(Box::new(Type::String), Box::new(settled(value_type)));
                let dest = self.temp();
                self.push(Instruction::Aggregate { dest: copy_string(&dest), elements: values, ty: ty.duplicate() });
                (dest, ty)
            },
            _ => {
                assert(false);
                (String::new(), Type::Unknown)
            },
        }
    }

    #[verifier::loop_isolation(false)]
    fn index_expr(&mut self, ft: &FnEntries, expression: &Expr) -> (r: (String, Type))
        requires
            old(self).next + expr_cost(*expression) <= usize::MAX,
            expression is Index,
        ensures
            final(self).model() == lower_expr(table_model(ft@), old(self).model(), *expression).0,
            r.0@ == lower_expr(table_model(ft@), old(self).model(), *expression).1,
            r.1 == lower_expr(table_model(ft@), old(self).model(), *expression).2,
            final(self).next == old(self).next + expr_cost(*expression),
        decreases expression, 0nat,
    {
        let ghost t = table_model(ft@);
        let ghost m = self.model();
        match expression {
            Expr::Index { target, index, .. } => {
                let (target_value, target_type) = self.expr(ft, target);
                let (index_value, _) = self.expr(ft, index);
                let ty = match target_type {
                    Type::Array(element_type) => *element_type,
                    Type::Mapping(_, value_type) => *value_type,
                    _ => Type::Unknown,
                };
                let dest = self.temp();
                self.push(Instruction::Index { dest: copy_string(&dest), target: target_value, index: index_value, ty: ty.duplicate() });
                (dest, ty)
            },
            _ => {
                assert(false);
                (String::new(), Type::Unknown)
            },
        }
    }

    #[verifier::loop_isolation(false)]
    fn binary_expr(&mut self, ft: &FnEntries, expression: &Expr) -> (r: (String, Type))
        requires
            old(self).next + expr_cost(*expression) <= usize::MAX,
            expression is Binary,
        ensures
            final(self).model() == lower_expr(table_model(ft@), old(self).model(), *expression).0,
            r.0@ == lower_expr(table_model(ft@), old(self).model(), *expression).1,
            r.1 == lower_expr(table_model(ft@), old(self).model(), *expression).2,
            final(self).next == old(self).next + expr_cost(*expression),
        decreases expression, 0nat,
    {
        let ghost t = table_model(ft@);
        let ghost m = self.model();
        match expression {
            Expr::Binary { left, op, right, .. } => {
                let (left_value, left_type) = self.expr(ft, left);
                let (right_value, right_type) = self.expr(ft, right);
                let ty = binary_type(*op, &left_type, &right_type);
                let dest = self.temp();
                self.push(Instruction::Binary { dest: copy_string(&dest), op: *op, left: left_value, right: right_value, ty: ty.duplicate() });
                (dest, ty)
            },
            _ => {
                assert(false);
                (String::new(), Type::Unknown)
            },
        }
    }

    #[verifier::loop_isolation(false)]
    fn call_expr(&mut self, ft: &FnEntries, expression: &Expr) -> (r: (String, Type))
        requires
            old(self).next + expr_cost(*expression) <= usize::MAX,
            expression is Call,
        ensures
            final(self).model() == lower_expr(table_model(ft@), old(self).model(), *expression).0,
            r.0@ == lower_expr(table_model(ft@), old(self).model(), *expression).1,
            r.1 == lower_expr(table_model(ft@), old(self).model(), *expression).2,
            final(self).next == old(self).next + expr_cost(*expression),
        decreases expression, 0nat,
    {
        let ghost t = table_model(ft@);
        let ghost m = self.model();
        match expression {
            Expr::Call { name, arguments, .. } => {
                let mut args: Vec<String> = Vec::new();
                let mut i: usize = 0;
                while i < arguments.len()
                    invariant
                        i <= arguments.len(),
                        self.model() == lower_arguments(t, m, arguments@.take(i as int)).0,
                        strings_model(args@) == lower_arguments(t, m, arguments@.take(i as int)).1,
                        self.next == m.next + exprs_cost(arguments@.take(i as int)),
                    decreases arguments.len() - i,
                {
                    proof {
                        assert(decreases_to!(arguments => arguments@));
                        assert(decreases_to!(arguments@ => arguments@[i as int]));
                        assert(arguments@.take(i + 1).drop_last() =~= arguments@.take(i as int));
                        lemma_exprs_cost_prefix(arguments@, i + 1);
                    }
                    let (value, _) = self.expr(ft, &arguments[i]);
                    let ghost vs = args@;
                    args.push(value);
                    proof {
                        assert(strings_model(args@) =~= strings_model(vs).push(args@.last()@));
                    }
                    i += 1;
                }
                proof {
                    assert(arguments@.take(arguments@.len() as int) =~= arguments@);
                }
                let ty = result_type(ft, name);
                let dest = self.temp();
                self.push(Instruction::Call { dest: copy_string(&dest), name: copy_string(name), args, ty: ty.duplicate() });
                (dest, ty)
            },
            _ => {
                assert(false);
                (String::new(), Type::Unknown)
            },
        }
    }
}


impl FunctionLowerer {
    fn stmt(&mut self, ft: &FnEntries, statement: &Stmt)
        requires
            old(self).next + stmt_cost(*statement) <= usize::MAX,
        ensures
            final(self).model() == lower_stmt(table_model(ft@), old(self).model(), *statement),
            final(self).next == old(self).next + stmt_cost(*statement),
        decreases statement, 1nat,
    {
        match statement {
            Stmt::Block(statements) => self.stmts(ft, statements),
            Stmt::Let { name, annotation, value, .. } => {
                let (value, inferred_type) = self.expr(ft, value);
                let ty = match annotation {
                    Some(a) => a.duplicate(),
                    None => inferred_type,
                };
                let ghost vs = self.variables@;
                self.variables.push((copy_string(name), ty.duplicate()));
                proof {
                    assert(params_model(self.variables@) =~= params_model(vs).push((name@, ty)));
                }
                self.push(Instruction::Store { name: copy_string(name), value, ty });
            },
            Stmt::Assign { name, value, .. } => {
                let (value, inferred_type) = self.expr(ft, value);
                let ty = match self.variable(name) {
                    Some(t) => t,
                    None => inferred_type,
                };
                self.push(Instruction::Store { name: copy_string(name), value, ty });
            },
            Stmt::Print(expression) => {
                let (value, _) = self.expr(ft, expression);
                self.push(Instruction::Print { value });
            },
            Stmt::Assert(expression) => {
                let (value, _) = self.expr(ft, expression);
                self.push(Instruction::Assert { value });
            },
            Stmt::Return { value, .. } => {
                let value = match value {
                    Some(expression) => Some(self.expr(ft, expression).0),
                    None => None,
                };
                self.push(Instruction::Return(value));
            },
            Stmt::Conditional { .. } => self.conditional_stmt(ft, statement),
            Stmt::RepeatLoop { .. } => self.repeat_stmt(ft, statement),
            Stmt::Function { .. } | Stmt::CreateWindow { .. } => {},
        }
    }

    #[verifier::loop_isolation(false)]
    fn stmts(&mut self, ft: &FnEntries, statements: &Vec<Stmt>)
        requires
            old(self).next + stmts_cost(statements@) <= usize::MAX,
        ensures
            final(self).model() == lower_stmts(table_model(ft@), old(self).model(), statements@),
            final(self).next == old(self).next + stmts_cost(statements@),
        decreases statements, 0nat,
    {
        let ghost t = table_model(ft@);
        let ghost m = self.model();
        let mut i: usize = 0;
        while i < statements.len()
            invariant
                i <= statements.len(),
                self.model() == lower_stmts(t, m, statements@.take(i as int)),
                self.next == m.next + stmts_cost(statements@.take(i as int)),
            decreases statements.len() - i,
        {
            proof {
                assert(statements@.take(i + 1).drop_last() =~= statements@.take(i as int));
                lemma_stmts_cost_prefix(statements@, i + 1);
            }
            self.stmt(ft, &statements[i]);
            i += 1;
        }
        proof {
            assert(statements@.take(statements@.len() as int) =~= statements@);
        }
    }

    #[verifier::loop_isolation(false)]
    fn conditional_stmt(&mut self, ft: &FnEntries, statement: &Stmt)
        requires
            old(self).next + stmt_cost(*statement) <= usize::MAX,
            statement is Conditional,
        ensures
            final(self).model() == lower_stmt(table_model(ft@), old(self).model(), *statement),
            final(self).next == old(self).next + stmt_cost(*statement),
        decreases statement, 0nat,
    {
        let ghost t = table_model(ft@);
        let ghost m = self.model();
        match statement {
            Stmt::Conditional { condition, then_branch, otherwise_branch, .. } => {
                let (condition, _) = self.expr(ft, condition);
                let then_label = self.label("then");
                let else_label = self.label("else");
                let join_label = self.label("join");
                self.push(Instruction::Branch {
                    condition,
                    then_label: copy_string(&then_label),
                    else_label: copy_string(&else_label),
                });
                self.push(Instruction::Label(then_label));
                self.stmts(ft, then_branch);
                self.push(Instruction::Jump(copy_string(&join_label)));
                self.push(Instruction::Label(else_label));
                if let Some(otherwise_branch) = otherwise_branch {
                    self.stmts(ft, otherwise_branch);
                }
                self.push(Instruction::Jump(copy_string(&join_label)));
                self.push(Instruction::Label(join_label));
            },
            _ => {
                assert(false);
            },
        }
    }

    #[verifier::loop_isolation(false)]
    fn repeat_stmt(&mut self, ft: &FnEntries, statement: &Stmt)
        requires
            old(self).next + stmt_cost(*statement) <= usize::MAX,
            statement is RepeatLoop,
        ensures
            final(self).model() == lower_stmt(table_model(ft@), old(self).model(), *statement),
            final(self).next == old(self).next + stmt_cost(*statement),
        decreases statement, 0nat,
    {
        let ghost t = table_model(ft@);
        let ghost m = self.model();
        match statement {
            Stmt::RepeatLoop { iterations, body, .. } => {
                let (iterations, _) = self.expr(ft, iterations);
                let body_label = self.label("repeat_body");
                let exit_label = self.label("repeat_exit");
                self.push(Instruction::Branch {
                    condition: iterations,
                    then_label: copy_string(&body_label),
                    else_label: copy_string(&exit_label),
                });
                self.push(Instruction::Label(body_label));
                self.stmts(ft, body);
                self.push(Instruction::Jump(copy_string(&exit_label)));
                self.push(Instruction::Label(exit_label));
            },
            _ => {
                assert(false);
            },
        }
    }
}


/// Lowers a program to its typed intermediate representation.
pub struct Lowerer {
    next: usize,
    functions: FnEntries,
}

impl Lowerer {
    /// The lowerer has numbered nothing yet and knows no function.
    pub closed spec fn is_fresh(&self) -> bool {
        self.next == 0 && self.functions@.len() == 0
    }
}

impl Default for Lowerer {
    fn default() -> (r: Self)
        ensures
            r.is_fresh(),
    {
        Lowerer { next: 0, functions: Vec::new() }
    }
}

/// A copy of a parameter list.
fn copy_parameters(ps: &[(String, Type)]) -> (r: Vec<(String, Type)>)
    ensures
        params_model(r@) == params_model(ps@),
{
    let mut out: Vec<(String, Type)> = Vec::new();
    let mut i: usize = 0;
    while i < ps.len()
        invariant
            i <= ps@.len(),
            params_model(out@) =~= params_model(ps@.take(i as int)),
        decreases ps.len() - i,
    {
        let ghost before = out@;
        out.push((copy_string(&ps[i].0), ps[i].1.duplicate()));
        proof {
            assert(params_model(out@) =~= params_model(before).push((ps@[i as int].0@, ps@[i as int].1)));
            assert(ps@.take(i + 1) =~= ps@.take(i as int).push(ps@[i as int]));
        }
        i += 1;
    }
    proof {
        assert(ps@.take(ps@.len() as int) =~= ps@);
    }
    out
}

/// The parameters of a declaration with their annotations, `Unknown` where
/// there is none.
fn declared_parameters(parameters: &Vec<(String, Option<Type>)>) -> (r: Vec<(String, Type)>)
    ensures
        params_model(r@) == parameter_types(parameters@),
{
    let mut out: Vec<(String, Type)> = Vec::new();
    let mut i: usize = 0;
    while i < parameters.len()
        invariant
            i <= parameters@.len(),
            params_model(out@) =~= parameter_types(parameters@.take(i as int)),
        decreases parameters.len() - i,
    {
        let ty = match &parameters[i].1 {
            Some(t) => t.duplicate(),
            None => Type::Unknown,
        };
        let ghost before = out@;
        out.push((copy_string(&parameters[i].0), ty));
        proof {
            assert(params_model(out@) =~= params_model(before).push((parameters@[i as int].0@, or_unknown(parameters@[i as int].1))));
            assert(parameters@.take(i + 1) =~= parameters@.take(i as int).push(parameters@[i as int]));
        }
        i += 1;
    }
    proof {
        assert(parameters@.take(parameters@.len() as int) =~= parameters@);
    }
    out
}

impl Lowerer {
    /// Lowers a program: when the root is a block, first a `main` function
    /// made of its top-level statements, then one function per top-level
    /// declaration, in order; temporaries and labels are numbered by one
    /// counter across the whole program.
    pub fn lower(root: &Stmt) -> (r: IrProgram)
        requires
            program_cost(*root) <= usize::MAX,
        ensures
            program_model(r) == lower_spec(*root),
    {
        let mut lowerer = Self::default();
        proof {
            assert(table_model(lowerer.functions@) =~= FnTable::empty());
        }
        lowerer.collect_functions(root);
        let ghost ft = table_model(lowerer.functions@);
        assert(ft == collect_spec(Seq::empty(), *root));
        let mut functions: Vec<IrFunction> = Vec::new();
        if let Stmt::Block(statements) = root {
            proof {
                lemma_stmts_cost_prefix(statements@, statements@.len() as int);
            }
            let no_parameters: Vec<(String, Type)> = Vec::new();
            proof {
                assert(params_model(no_parameters@) =~= Seq::empty());
            }
            let main = lowerer.lower_function(string_of("main"), no_parameters.as_slice(), Type::Null, statements);
            functions.push(main);
            let ghost n0 = lowerer.next as nat;
            let ghost main_model = lower_function_spec(ft, 0, "main"@, Seq::empty(), Type::Null, statements@).0;
            proof {
                assert(params_model(Seq::<(String, Type)>::empty()) =~= Seq::empty());
                assert(functions@.map_values(|g: IrFunction| function_model(g)) =~= seq![main_model]);
            }
            let mut i: usize = 0;
            while i < statements.len()
                invariant
                    i <= statements.len(),
                    table_model(lowerer.functions@) == ft,
                    n0 == stmts_cost(statements@),
                    n0 + declarations_cost(statements@) <= usize::MAX,
                    lowerer.next == n0 + declarations_cost(statements@.take(i as int)),
                    lower_declarations(ft, n0, statements@.take(i as int)).1 == lowerer.next,
                    functions@.map_values(|g: IrFunction| function_model(g)) == seq![main_model] + lower_declarations(
                        ft,
                        n0,
                        statements@.take(i as int),
                    ).0,
                decreases statements.len() - i,
            {
                proof {
                    assert(statements@.take(i + 1).drop_last() =~= statements@.take(i as int));
                    lemma_declarations_cost_prefix(statements@, i + 1);
                }
                let ghost before = functions@;
                if let Stmt::Function { name, parameters, return_type, body, .. } = &statements[i] {
                    let types = declared_parameters(parameters);
                    let result = match return_type {
                        Some(t) => t.duplicate(),
                        None => Type::Unknown,
                    };
                    let f = lowerer.lower_function(copy_string(name), types.as_slice(), result, body);
                    functions.push(f);
                    proof {
                        assert(functions@.map_values(|g: IrFunction| function_model(g)) =~= before.map_values(|g: IrFunction| function_model(g)).push(function_model(f)));
                    }
                }
                proof {
                    let prev = lower_declarations(ft, n0, statements@.take(i as int)).0;
                    match statements@[i as int] {
                        Stmt::Function { .. } => {
                            assert(seq![main_model] + prev.push(function_model(functions@.last())) =~= (seq![main_model] + prev).push(function_model(functions@.last())));
                        },
                        _ => {},
                    }
                }
                i += 1;
            }
            proof {
                assert(statements@.take(statements@.len() as int) =~= statements@);
            }
        } else {
            proof {
                assert(functions@.map_values(|g: IrFunction| function_model(g)) =~= Seq::empty());
            }
        }
        IrProgram { functions }
    }

    fn collect_functions(&mut self, statement: &Stmt)
        ensures
            table_model(final(self).functions@) == collect_spec(table_model(old(self).functions@), *statement),
            final(self).next == old(self).next,
        decreases statement,
    {
        match statement {
            Stmt::Block(statements) => {
                let mut i: usize = 0;
                while i < statements.len()
                    invariant
                        i <= statements.len(),
                        table_model(self.functions@) == collect_all_spec(
                            table_model(old(self).functions@),
                            statements@.take(i as int),
                        ),
                        self.next == old(self).next,
                        forall|j: int|
                            0 <= j < statements@.len() ==> decreases_to!(*statement => #[trigger] statements@[j]),
                    decreases statements.len() - i,
                {
                    self.collect_functions(&statements[i]);
                    proof {
                        assert(statements@.take(i + 1).drop_last() =~= statements@.take(i as int));
                    }
                    i += 1;
                }
                proof {
                    assert(statements@.take(statements@.len() as int) =~= statements@);
                }
            },
            Stmt::Function { name, parameters, return_type, .. } => {
                let types = declared_parameters(parameters);
                let result = match return_type {
                    Some(t) => t.duplicate(),
                    None => Type::Unknown,
                };
                let ghost before = self.functions@;
                self.functions.push((copy_string(name), (types, result)));
                proof {
                    assert(table_model(self.functions@) =~= table_model(before).push(
                        (name@, (parameter_types(parameters@), or_unknown(*return_type))),
                    ));
                }
            },
            _ => {},
        }
    }

    fn lower_function(
        &mut self,
        name: String,
        parameters: &[(String, Type)],
        return_type: Type,
        body: &Vec<Stmt>,
    ) -> (r: IrFunction)
        requires
            old(self).next + stmts_cost(body@) <= usize::MAX,
        ensures
            function_model(r) == lower_function_spec(
                table_model(old(self).functions@),
                old(self).next as nat,
                name@,
                params_model(parameters@),
                return_type,
                body@,
            ).0,
            final(self).next == lower_function_spec(
                table_model(old(self).functions@),
                old(self).next as nat,
                name@,
                params_model(parameters@),
                return_type,
                body@,
            ).1,
            final(self).next == old(self).next + stmts_cost(body@),
            final(self).functions == old(self).functions,
    {
        let mut function = FunctionLowerer {
            next: self.next,
            variables: copy_parameters(parameters),
            instructions: Vec::new(),
        };
        proof {
            assert(instrs_model(function.instructions@) =~= Seq::empty());
        }
        function.stmts(&self.functions, body);
        self.next = function.next;
        IrFunction {
            name,
            parameters: copy_parameters(parameters),
            return_type,
            instructions: function.instructions,
        }
    }
}

} // verus!
