//! How lowering numbers its temporaries: within each lowered function every
//! temporary is defined by one instruction only, and every temporary an
//! instruction reads is defined by an earlier instruction.
use vstd::prelude::*;
use crate::ast::{Expr, Op, Stmt, ValueModel};
use crate::ir::{
    lower_arguments, lower_declarations, lower_elements, lower_entries, lower_expr,
    lower_function_spec, lower_spec, lower_stmt, lower_stmts, temp_name, emit, bump, FnTable,
    InstrModel, LowerState, collect_spec,
};
use crate::ast::Type;
use crate::text::{decimal, digit_char};

verus! {

/// The temporary an instruction defines, if any.
pub open spec fn defines(i: InstrModel) -> Option<Seq<char>> {
    match i {
        InstrModel::Const { dest, .. } => Some(dest),
        InstrModel::Load { dest, .. } => Some(dest),
        InstrModel::Binary { dest, .. } => Some(dest),
        InstrModel::Call { dest, .. } => Some(dest),
        InstrModel::Index { dest, .. } => Some(dest),
        InstrModel::Aggregate { dest, .. } => Some(dest),
        _ => None,
    }
}

/// The temporaries an instruction reads.
pub open spec fn uses(i: InstrModel) -> Seq<Seq<char>> {
    match i {
        InstrModel::Store { value, .. } => seq![value],
        InstrModel::Binary { left, right, .. } => seq![left, right],
        InstrModel::Call { args, .. } => args,
        InstrModel::Index { target, index, .. } => seq![target, index],
        InstrModel::Aggregate { elements, .. } => elements,
        InstrModel::Print { value } => seq![value],
        InstrModel::Assert { value } => seq![value],
        InstrModel::Return(v) => match v {
            Some(v) => seq![v],
            None => Seq::empty(),
        },
        InstrModel::Branch { condition, .. } => seq![condition],
        _ => Seq::empty(),
    }
}

/// Some instruction at a position in `[from, to)` defines `t`.
pub open spec fn defined_between(is: Seq<InstrModel>, from: int, to: int, t: Seq<char>) -> bool {
    exists|j: int| from <= j < to && #[trigger] defines(is[j]) == Some(t)
}

/// Every temporary that an instruction from `from` on reads is defined by
/// an earlier instruction from `from` on.
pub open spec fn reads_defined(is: Seq<InstrModel>, from: int) -> bool {
    forall|i: int, k: int|
        from <= i < is.len() && 0 <= k < uses(is[i]).len() ==> defined_between(
            is,
            from,
            i,
            #[trigger] uses(is[i])[k],
        )
}

/// Every temporary defined by one instruction only.
pub open spec fn defined_once(is: Seq<InstrModel>) -> bool {
    forall|j1: int, j2: int|
        0 <= j1 < is.len() && 0 <= j2 < is.len() && j1 != j2 && #[trigger] defines(is[j1]) is Some
            && #[trigger] defines(is[j2]) is Some ==> defines(is[j1]) != defines(is[j2])
}

/// The temporaries of a function are well defined: each by one
/// instruction, each before it is read.
pub open spec fn temporaries_well_defined(is: Seq<InstrModel>) -> bool {
    defined_once(is) && reads_defined(is, 0)
}

/// The number written in decimal digits.
pub open spec fn digits_value(s: Seq<char>) -> int
    decreases s.len(),
{
    if s.len() == 0 {
        0
    } else {
        digits_value(s.drop_last()) * 10 + ((s.last() as int) - ('0' as int))
    }
}

/// The number of a temporary's name.
pub open spec fn temp_number(t: Seq<char>) -> int {
    digits_value(t.drop_first())
}

proof fn lemma_digit_value(d: nat)
    requires
        d < 10,
    ensures
        (digit_char(d) as int) - ('0' as int) == d,
{
}

proof fn lemma_decimal_value(n: nat)
    ensures
        digits_value(decimal(n)) == n,
    decreases n,
{
    if n < 10 {
        lemma_digit_value(n);
        let s = decimal(n);
        assert(s.drop_last() =~= Seq::<char>::empty());
        assert(s.last() == digit_char(n));
        assert(digits_value(s) == digits_value(s.drop_last()) * 10 + ((s.last() as int) - ('0' as int)));
    } else {
        lemma_decimal_value(n / 10);
        lemma_digit_value(n % 10);
        let s = decimal(n);
        assert(s.drop_last() =~= decimal(n / 10));
        assert(s.last() == digit_char(n % 10));
        assert(digits_value(s) == digits_value(s.drop_last()) * 10 + ((s.last() as int) - ('0' as int)));
        assert(n == (n / 10) * 10 + n % 10);
    }
}

proof fn lemma_temp_number(n: nat)
    ensures
        temp_number(temp_name(n)) == n,
{
    lemma_decimal_value(n);
    reveal_strlit("%");
    assert(temp_name(n).drop_first() =~= decimal(n));
}

/// The instructions from `from` on define temporaries numbered in `[lo, hi)`,
/// in increasing order.
pub open spec fn numbered(is: Seq<InstrModel>, from: int, lo: int, hi: int) -> bool {
    &&& forall|j: int|
        from <= j < is.len() && #[trigger] defines(is[j]) is Some ==> lo <= temp_number(
            defines(is[j])->0,
        ) < hi
    &&& forall|j1: int, j2: int|
        from <= j1 < j2 < is.len() && #[trigger] defines(is[j1]) is Some && #[trigger] defines(
            is[j2],
        ) is Some ==> temp_number(defines(is[j1])->0) < temp_number(defines(is[j2])->0)
}

/// From `a` to `b` lowering only appended instructions, whose temporaries
/// take fresh increasing numbers and are defined before they are read.
pub open spec fn grows(a: LowerState, b: LowerState) -> bool {
    &&& a.instructions.len() <= b.instructions.len()
    &&& b.instructions.take(a.instructions.len() as int) == a.instructions
    &&& a.next <= b.next
    &&& numbered(b.instructions, a.instructions.len() as int, a.next as int, b.next as int)
    &&& reads_defined(b.instructions, a.instructions.len() as int)
}

proof fn lemma_grows_refl(a: LowerState)
    ensures
        grows(a, a),
{
    assert(a.instructions.take(a.instructions.len() as int) =~= a.instructions);
}

/// A temporary defined in a state stays defined as it grows.
proof fn lemma_defined_kept(a: LowerState, b: LowerState, from: int, t: Seq<char>)
    requires
        grows(a, b),
        0 <= from,
        defined_between(a.instructions, from, a.instructions.len() as int, t),
    ensures
        defined_between(b.instructions, from, b.instructions.len() as int, t),
{
    let j = choose|j: int| from <= j < a.instructions.len() && #[trigger] defines(a.instructions[j]) == Some(t);
    assert(b.instructions.take(a.instructions.len() as int)[j] == b.instructions[j]);
    assert(defines(b.instructions[j]) == Some(t));
}

proof fn lemma_grows_trans(a: LowerState, b: LowerState, c: LowerState)
    requires
        grows(a, b),
        grows(b, c),
    ensures
        grows(a, c),
{
    let la = a.instructions.len() as int;
    let lb = b.instructions.len() as int;
    let bi = b.instructions;
    let ci = c.instructions;
    assert forall|j: int| 0 <= j < lb implies ci[j] == bi[j] by {
        assert(ci.take(lb)[j] == ci[j]);
    }
    assert(ci.take(la) =~= a.instructions) by {
        assert forall|j: int| 0 <= j < la implies ci.take(la)[j] == a.instructions[j] by {
            assert(bi.take(la)[j] == bi[j]);
        }
    }
    assert forall|j: int| la <= j < ci.len() && #[trigger] defines(ci[j]) is Some implies a.next
        <= temp_number(defines(ci[j])->0) < c.next by {
        if j < lb {
            assert(defines(bi[j]) is Some);
        }
    }
    assert forall|j1: int, j2: int|
        la <= j1 < j2 < ci.len() && #[trigger] defines(ci[j1]) is Some && #[trigger] defines(ci[j2])
            is Some implies temp_number(defines(ci[j1])->0) < temp_number(defines(ci[j2])->0) by {
        if j2 < lb {
            assert(defines(bi[j1]) is Some && defines(bi[j2]) is Some);
        } else if j1 < lb {
            assert(defines(bi[j1]) is Some);
        }
    }
    assert forall|i: int, k: int| la <= i < ci.len() && 0 <= k < uses(ci[i]).len() implies defined_between(
        ci,
        la,
        i,
        #[trigger] uses(ci[i])[k],
    ) by {
        let t = uses(ci[i])[k];
        if i < lb {
            assert(uses(bi[i])[k] == t);
            assert(defined_between(bi, la, i, t));
            let j = choose|j: int| la <= j < i && #[trigger] defines(bi[j]) == Some(t);
            assert(defines(ci[j]) == Some(t));
        } else {
            assert(defined_between(ci, lb, i, t));
            let j = choose|j: int| lb <= j < i && #[trigger] defines(ci[j]) == Some(t);
            assert(defines(ci[j]) == Some(t));
        }
    }
}

/// Appending one instruction after `k` fresh numbers keeps the growth when
/// the instruction defines nothing or the first of those numbers, and reads
/// only temporaries defined since `a`.
proof fn lemma_emit(a: LowerState, st: LowerState, k: nat, instr: InstrModel)
    requires
        grows(a, st),
        defines(instr) is None || (k >= 1 && defines(instr) == Some(temp_name(st.next))),
        forall|m: int|
            0 <= m < uses(instr).len() ==> defined_between(
                st.instructions,
                a.instructions.len() as int,
                st.instructions.len() as int,
                #[trigger] uses(instr)[m],
            ),
    ensures
        grows(a, emit(bump(st, k), instr)),
        defines(instr) is Some ==> defined_between(
            emit(bump(st, k), instr).instructions,
            a.instructions.len() as int,
            emit(bump(st, k), instr).instructions.len() as int,
            temp_name(st.next),
        ),
{
    let r = emit(bump(st, k), instr);
    let la = a.instructions.len() as int;
    let ls = st.instructions.len() as int;
    let ri = r.instructions;
    lemma_temp_number(st.next);
    assert(ri.take(ls) =~= st.instructions);
    assert forall|j: int| 0 <= j < ls implies ri[j] == st.instructions[j] by {}
    assert(ri.take(la) =~= a.instructions) by {
        assert forall|j: int| 0 <= j < la implies ri.take(la)[j] == a.instructions[j] by {
            assert(st.instructions.take(la)[j] == st.instructions[j]);
        }
    }
    assert forall|j: int| la <= j < ri.len() && #[trigger] defines(ri[j]) is Some implies a.next
        <= temp_number(defines(ri[j])->0) < r.next by {
        if j < ls {
            assert(defines(st.instructions[j]) is Some);
        }
    }
    assert forall|j1: int, j2: int|
        la <= j1 < j2 < ri.len() && #[trigger] defines(ri[j1]) is Some && #[trigger] defines(ri[j2])
            is Some implies temp_number(defines(ri[j1])->0) < temp_number(defines(ri[j2])->0) by {
        if j2 < ls {
            assert(defines(st.instructions[j1]) is Some && defines(st.instructions[j2]) is Some);
        } else {
            assert(defines(st.instructions[j1]) is Some);
        }
    }
    assert forall|i: int, m: int| la <= i < ri.len() && 0 <= m < uses(ri[i]).len() implies defined_between(
        ri,
        la,
        i,
        #[trigger] uses(ri[i])[m],
    ) by {
        let t = uses(ri[i])[m];
        if i < ls {
            assert(uses(st.instructions[i])[m] == t);
            assert(defined_between(st.instructions, la, i, t));
            let j = choose|j: int| la <= j < i && #[trigger] defines(st.instructions[j]) == Some(t);
            assert(defines(ri[j]) == Some(t));
        } else {
            assert(uses(instr)[m] == t);
            assert(defined_between(st.instructions, la, ls, t));
            let j = choose|j: int| la <= j < ls && #[trigger] defines(st.instructions[j]) == Some(t);
            assert(defines(ri[j]) == Some(t));
        }
    }
    if defines(instr) is Some {
        assert(defines(ri[ls]) == Some(temp_name(st.next)));
    }
}

proof fn lemma_defined_widen(is: Seq<InstrModel>, from: int, from2: int, to: int, t: Seq<char>)
    requires
        defined_between(is, from, to, t),
        from2 <= from,
    ensures
        defined_between(is, from2, to, t),
{
    let j = choose|j: int| from <= j < to && #[trigger] defines(is[j]) == Some(t);
    assert(defines(is[j]) == Some(t));
}

/// The negation of a value held in `v`: `0`, then `0 - v`.
pub open spec fn negation(st1: LowerState, v: Seq<char>, ty: Type) -> LowerState {
    let z = temp_name(st1.next);
    let st2 = emit(bump(st1, 1), InstrModel::Const { dest: z, value: ValueModel::Number("0"@), ty: Type::Int });
    emit(bump(st2, 1), InstrModel::Binary { dest: temp_name(st2.next), op: Op::Sub, left: z, right: v, ty })
}

proof fn lemma_negation_grows(st: LowerState, st1: LowerState, v: Seq<char>, ty: Type)
    requires
        grows(st, st1),
        defined_between(st1.instructions, st.instructions.len() as int, st1.instructions.len() as int, v),
    ensures
        grows(st, negation(st1, v, ty)),
        defined_between(
            negation(st1, v, ty).instructions,
            st.instructions.len() as int,
            negation(st1, v, ty).instructions.len() as int,
            temp_name(st1.next + 1),
        ),
        plain(segment(st, st1)) ==> plain(segment(st, negation(st1, v, ty))),
{
    let ls = st.instructions.len() as int;
    let z = temp_name(st1.next);
    let zero = InstrModel::Const { dest: z, value: ValueModel::Number("0"@), ty: Type::Int };
    let st2 = emit(bump(st1, 1), zero);
    lemma_grows_refl(st1);
    lemma_emit(st1, st1, 1, zero);
    lemma_emit(st, st1, 1, zero);
    lemma_defined_kept(st1, st2, ls, v);
    let instr = InstrModel::Binary { dest: temp_name(st2.next), op: Op::Sub, left: z, right: v, ty };
    lemma_emit(st, st2, 1, instr);
    if plain(segment(st, st1)) {
        lemma_plain_emit(st, st1, 1, zero);
        lemma_plain_emit(st, st2, 1, instr);
    }
}

/// Lowering an expression grows the state and defines the temporary that
/// holds its value.
proof fn lemma_expr_grows(ft: FnTable, st: LowerState, e: Expr)
    ensures
        grows(st, lower_expr(ft, st, e).0),
        defined_between(
            lower_expr(ft, st, e).0.instructions,
            st.instructions.len() as int,
            lower_expr(ft, st, e).0.instructions.len() as int,
            lower_expr(ft, st, e).1,
        ),
    decreases e, 1nat,
{
    let ls = st.instructions.len() as int;
    let r = lower_expr(ft, st, e);
    lemma_grows_refl(st);
    match e {
        Expr::Literal(..) | Expr::Variable(..) => {
            let instr = r.0.instructions.last();
            assert(r.0 == emit(bump(st, 1), instr));
            lemma_emit(st, st, 1, instr);
        },
        Expr::Array(elements, _) => {
            lemma_elements_grows(ft, st, elements@);
            let st1 = lower_elements(ft, st, elements@).0;
            let instr = r.0.instructions.last();
            assert(r.0 == emit(bump(st1, 1), instr));
            lemma_emit(st, st1, 1, instr);
        },
        Expr::Mapping(entries, _) => {
            lemma_entries_grows(ft, st, entries@);
            let st1 = lower_entries(ft, st, entries@).0;
            let instr = r.0.instructions.last();
            assert(r.0 == emit(bump(st1, 1), instr));
            lemma_emit(st, st1, 1, instr);
        },
        Expr::Call { arguments, .. } => {
            lemma_arguments_grows(ft, st, arguments@);
            let st1 = lower_arguments(ft, st, arguments@).0;
            let instr = r.0.instructions.last();
            assert(r.0 == emit(bump(st1, 1), instr));
            lemma_emit(st, st1, 1, instr);
        },
        Expr::Index { target, index, .. } => {
            let (st1, tv, _) = lower_expr(ft, st, *target);
            let (st2, iv, _) = lower_expr(ft, st1, *index);
            lemma_expr_grows(ft, st, *target);
            lemma_expr_grows(ft, st1, *index);
            lemma_grows_trans(st, st1, st2);
            lemma_defined_kept(st1, st2, ls, tv);
            lemma_defined_widen(st2.instructions, st1.instructions.len() as int, ls, st2.instructions.len() as int, iv);
            let instr = r.0.instructions.last();
            assert(r.0 == emit(bump(st2, 1), instr));
            lemma_emit(st, st2, 1, instr);
        },
        Expr::Binary { left, right, .. } => {
            let (st1, lv, _) = lower_expr(ft, st, *left);
            let (st2, rv, _) = lower_expr(ft, st1, *right);
            lemma_expr_grows(ft, st, *left);
            lemma_expr_grows(ft, st1, *right);
            lemma_grows_trans(st, st1, st2);
            lemma_defined_kept(st1, st2, ls, lv);
            lemma_defined_widen(st2.instructions, st1.instructions.len() as int, ls, st2.instructions.len() as int, rv);
            let instr = r.0.instructions.last();
            assert(r.0 == emit(bump(st2, 1), instr));
            lemma_emit(st, st2, 1, instr);
        },
        Expr::Unary { op, expr, .. } => {
            lemma_expr_grows(ft, st, *expr);
            let (st1, v, ty) = lower_expr(ft, st, *expr);
            if op == Op::Neg {
                lemma_negation_grows(st, st1, v, ty);
            }
        },
    }
}

proof fn lemma_elements_grows(ft: FnTable, st: LowerState, es: Seq<Expr>)
    ensures
        grows(st, lower_elements(ft, st, es).0),
        forall|m: int|
            0 <= m < lower_elements(ft, st, es).1.len() ==> defined_between(
                lower_elements(ft, st, es).0.instructions,
                st.instructions.len() as int,
                lower_elements(ft, st, es).0.instructions.len() as int,
                #[trigger] lower_elements(ft, st, es).1[m],
            ),
    decreases es, 0nat,
{
    lemma_grows_refl(st);
    if es.len() > 0 {
        let ls = st.instructions.len() as int;
        let (st1, vs, _) = lower_elements(ft, st, es.drop_last());
        let (st2, v, _) = lower_expr(ft, st1, es.last());
        lemma_elements_grows(ft, st, es.drop_last());
        lemma_expr_grows(ft, st1, es.last());
        lemma_grows_trans(st, st1, st2);
        let out = vs.push(v);
        assert forall|m: int| 0 <= m < out.len() implies defined_between(
            st2.instructions,
            ls,
            st2.instructions.len() as int,
            #[trigger] out[m],
        ) by {
            if m < vs.len() {
                assert(out[m] == vs[m]);
                lemma_defined_kept(st1, st2, ls, vs[m]);
            } else {
                lemma_defined_widen(st2.instructions, st1.instructions.len() as int, ls, st2.instructions.len() as int, v);
            }
        }
    }
}

proof fn lemma_entries_grows(ft: FnTable, st: LowerState, es: Seq<(String, Expr)>)
    ensures
        grows(st, lower_entries(ft, st, es).0),
        forall|m: int|
            0 <= m < lower_entries(ft, st, es).1.len() ==> defined_between(
                lower_entries(ft, st, es).0.instructions,
                st.instructions.len() as int,
                lower_entries(ft, st, es).0.instructions.len() as int,
                #[trigger] lower_entries(ft, st, es).1[m],
            ),
    decreases es, 0nat,
{
    lemma_grows_refl(st);
    if es.len() > 0 {
        let ls = st.instructions.len() as int;
        let (st1, vs, _) = lower_entries(ft, st, es.drop_last());
        let (st2, v, _) = lower_expr(ft, st1, es.last().1);
        lemma_entries_grows(ft, st, es.drop_last());
        lemma_expr_grows(ft, st1, es.last().1);
        lemma_grows_trans(st, st1, st2);
        let out = vs.push(v);
        assert forall|m: int| 0 <= m < out.len() implies defined_between(
            st2.instructions,
            ls,
            st2.instructions.len() as int,
            #[trigger] out[m],
        ) by {
            if m < vs.len() {
                assert(out[m] == vs[m]);
                lemma_defined_kept(st1, st2, ls, vs[m]);
            } else {
                lemma_defined_widen(st2.instructions, st1.instructions.len() as int, ls, st2.instructions.len() as int, v);
            }
        }
    }
}

proof fn lemma_arguments_grows(ft: FnTable, st: LowerState, es: Seq<Expr>)
    ensures
        grows(st, lower_arguments(ft, st, es).0),
        forall|m: int|
            0 <= m < lower_arguments(ft, st, es).1.len() ==> defined_between(
                lower_arguments(ft, st, es).0.instructions,
                st.instructions.len() as int,
                lower_arguments(ft, st, es).0.instructions.len() as int,
                #[trigger] lower_arguments(ft, st, es).1[m],
            ),
    decreases es, 0nat,
{
    lemma_grows_refl(st);
    if es.len() > 0 {
        let ls = st.instructions.len() as int;
        let (st1, vs) = lower_arguments(ft, st, es.drop_last());
        let (st2, v, _) = lower_expr(ft, st1, es.last());
        lemma_arguments_grows(ft, st, es.drop_last());
        lemma_expr_grows(ft, st1, es.last());
        lemma_grows_trans(st, st1, st2);
        let out = vs.push(v);
        assert forall|m: int| 0 <= m < out.len() implies defined_between(
            st2.instructions,
            ls,
            st2.instructions.len() as int,
            #[trigger] out[m],
        ) by {
            if m < vs.len() {
                assert(out[m] == vs[m]);
                lemma_defined_kept(st1, st2, ls, vs[m]);
            } else {
                lemma_defined_widen(st2.instructions, st1.instructions.len() as int, ls, st2.instructions.len() as int, v);
            }
        }
    }
}

/// Appending an instruction that defines and reads no temporary.
proof fn lemma_emit_plain(a: LowerState, st: LowerState, instr: InstrModel)
    requires
        grows(a, st),
        defines(instr) is None,
        uses(instr).len() == 0,
    ensures
        grows(a, emit(st, instr)),
{
    assert(bump(st, 0) == st);
    lemma_emit(a, st, 0, instr);
}

/// Lowering a statement grows the state.
proof fn lemma_stmt_grows(ft: FnTable, st: LowerState, s: Stmt)
    ensures
        grows(st, lower_stmt(ft, st, s)),
    decreases s, 1nat,
{
    lemma_grows_refl(st);
    let r = lower_stmt(ft, st, s);
    match s {
        Stmt::Block(ss) => {
            lemma_stmts_grows(ft, st, ss@);
        },
        Stmt::Let { value, .. } | Stmt::Assign { value, .. } | Stmt::Print(value) | Stmt::Assert(
            value,
        ) => {
            let (st1, v, _) = lower_expr(ft, st, value);
            lemma_expr_grows(ft, st, value);
            let instr = r.instructions.last();
            let st2 = LowerState { instructions: st1.instructions, next: st1.next, variables: r.variables };
            assert(r == emit(bump(st2, 0), instr));
            lemma_emit(st, st2, 0, instr);
        },
        Stmt::Return { value, .. } => match value {
            Some(x) => {
                let (st1, v, _) = lower_expr(ft, st, x);
                lemma_expr_grows(ft, st, x);
                let instr = r.instructions.last();
                assert(r == emit(bump(st1, 0), instr));
                lemma_emit(st, st1, 0, instr);
            },
            None => {
                lemma_emit_plain(st, st, InstrModel::Return(None));
            },
        },
        Stmt::Conditional { condition, then_branch, otherwise_branch, .. } => {
            let (st1, c, _) = lower_expr(ft, st, condition);
            lemma_expr_grows(ft, st, condition);
            let then_label = "then"@ + decimal(st1.next);
            let else_label = "else"@ + decimal(st1.next + 1);
            let join_label = "join"@ + decimal(st1.next + 2);
            let branch = InstrModel::Branch { condition: c, then_label, else_label };
            let a1 = emit(bump(st1, 3), branch);
            lemma_emit(st, st1, 3, branch);
            let st2 = emit(a1, InstrModel::Label(then_label));
            lemma_emit_plain(st, a1, InstrModel::Label(then_label));
            let st3 = lower_stmts(ft, st2, then_branch@);
            lemma_stmts_grows(ft, st2, then_branch@);
            lemma_grows_trans(st, st2, st3);
            let a3 = emit(st3, InstrModel::Jump(join_label));
            lemma_emit_plain(st, st3, InstrModel::Jump(join_label));
            let st4 = emit(a3, InstrModel::Label(else_label));
            lemma_emit_plain(st, a3, InstrModel::Label(else_label));
            let st5 = match otherwise_branch {
                Some(o) => lower_stmts(ft, st4, o@),
                None => st4,
            };
            match otherwise_branch {
                Some(o) => {
                    lemma_stmts_grows(ft, st4, o@);
                    lemma_grows_trans(st, st4, st5);
                },
                None => {},
            }
            let a5 = emit(st5, InstrModel::Jump(join_label));
            lemma_emit_plain(st, st5, InstrModel::Jump(join_label));
            lemma_emit_plain(st, a5, InstrModel::Label(join_label));
        },
        Stmt::RepeatLoop { iterations, body, .. } => {
            let (st1, it, _) = lower_expr(ft, st, iterations);
            lemma_expr_grows(ft, st, iterations);
            let body_label = "repeat_body"@ + decimal(st1.next);
            let exit_label = "repeat_exit"@ + decimal(st1.next + 1);
            let branch = InstrModel::Branch { condition: it, then_label: body_label, else_label: exit_label };
            let a1 = emit(bump(st1, 2), branch);
            lemma_emit(st, st1, 2, branch);
            let st2 = emit(a1, InstrModel::Label(body_label));
            lemma_emit_plain(st, a1, InstrModel::Label(body_label));
            let st3 = lower_stmts(ft, st2, body@);
            lemma_stmts_grows(ft, st2, body@);
            lemma_grows_trans(st, st2, st3);
            let a3 = emit(st3, InstrModel::Jump(exit_label));
            lemma_emit_plain(st, st3, InstrModel::Jump(exit_label));
            lemma_emit_plain(st, a3, InstrModel::Label(exit_label));
        },
        _ => {},
    }
}

/// Lowering statements in order grows the state.
proof fn lemma_stmts_grows(ft: FnTable, st: LowerState, ss: Seq<Stmt>)
    ensures
        grows(st, lower_stmts(ft, st, ss)),
    decreases ss, 0nat,
{
    if ss.len() == 0 {
        lemma_grows_refl(st);
    } else {
        let st1 = lower_stmts(ft, st, ss.drop_last());
        lemma_stmts_grows(ft, st, ss.drop_last());
        lemma_stmt_grows(ft, st1, ss.last());
        lemma_grows_trans(st, st1, lower_stmt(ft, st1, ss.last()));
    }
}

/// One lowered function body has well-defined temporaries and labels.
proof fn lemma_function_temporaries(
    ft: FnTable,
    next: nat,
    name: Seq<char>,
    parameters: Seq<(Seq<char>, Type)>,
    return_type: Type,
    body: Seq<Stmt>,
)
    ensures
        temporaries_well_defined(
            lower_function_spec(ft, next, name, parameters, return_type, body).0.instructions,
        ),
        labels_well_placed(
            lower_function_spec(ft, next, name, parameters, return_type, body).0.instructions,
        ),
{
    let st0 = LowerState { next, variables: parameters, instructions: Seq::empty() };
    lemma_stmts_grows(ft, st0, body);
    lemma_stmts_labels(ft, st0, body);
    assert(segment(st0, lower_stmts(ft, st0, body)) =~= lower_stmts(ft, st0, body).instructions);
    let is = lower_function_spec(ft, next, name, parameters, return_type, body).0.instructions;
    assert(is == lower_stmts(ft, st0, body).instructions);
    assert forall|j1: int, j2: int|
        0 <= j1 < is.len() && 0 <= j2 < is.len() && j1 != j2 && #[trigger] defines(is[j1]) is Some
            && #[trigger] defines(is[j2]) is Some implies defines(is[j1]) != defines(is[j2]) by {
        if j1 < j2 {
            assert(temp_number(defines(is[j1])->0) < temp_number(defines(is[j2])->0));
        } else {
            assert(temp_number(defines(is[j2])->0) < temp_number(defines(is[j1])->0));
        }
    }
}

proof fn lemma_declarations_temporaries(ft: FnTable, next: nat, ss: Seq<Stmt>, f: int)
    requires
        0 <= f < lower_declarations(ft, next, ss).0.len(),
    ensures
        temporaries_well_defined(lower_declarations(ft, next, ss).0[f].instructions),
        labels_well_placed(lower_declarations(ft, next, ss).0[f].instructions),
    decreases ss.len(),
{
    let (fs, n) = lower_declarations(ft, next, ss.drop_last());
    if f < fs.len() {
        lemma_declarations_temporaries(ft, next, ss.drop_last(), f);
    }
    match ss.last() {
        Stmt::Function { name, parameters, return_type, body, .. } => {
            lemma_function_temporaries(
                ft,
                n,
                name@,
                crate::ir::parameter_types(parameters@),
                crate::ir::or_unknown(return_type),
                body@,
            );
        },
        _ => {},
    }
}

/// In every function of a lowered program each temporary is defined by one
/// instruction only, and every temporary an instruction reads is defined by
/// an earlier instruction of the same function; each label is placed once,
/// and every label that a branch or jump names is placed in the same
/// function.
pub proof fn lemma_lowered_names_well_defined(root: Stmt, f: int)
    requires
        0 <= f < lower_spec(root).len(),
    ensures
        temporaries_well_defined(lower_spec(root)[f].instructions),
        labels_well_placed(lower_spec(root)[f].instructions),
{
    match root {
        Stmt::Block(ss) => {
            let ft = collect_spec(Seq::empty(), root);
            let main = lower_function_spec(ft, 0, "main"@, Seq::empty(), Type::Null, ss@);
            if f == 0 {
                lemma_function_temporaries(ft, 0, "main"@, Seq::empty(), Type::Null, ss@);
            } else {
                lemma_declarations_temporaries(ft, main.1, ss@, f - 1);
            }
        },
        _ => {},
    }
}

/// The label an instruction places, if any.
pub open spec fn placed(i: InstrModel) -> Option<Seq<char>> {
    match i {
        InstrModel::Label(l) => Some(l),
        _ => None,
    }
}

/// The labels an instruction may jump to.
pub open spec fn targets(i: InstrModel) -> Set<Seq<char>> {
    match i {
        InstrModel::Branch { then_label, else_label, .. } => set![then_label, else_label],
        InstrModel::Jump(l) => set![l],
        _ => Set::empty(),
    }
}

/// The digits at the end of a text.
pub open spec fn trailing_digits(s: Seq<char>) -> Seq<char>
    decreases s.len(),
{
    if s.len() > 0 && '0' <= s.last() <= '9' {
        trailing_digits(s.drop_last()).push(s.last())
    } else {
        Seq::empty()
    }
}

/// The number at the end of a label's name.
pub open spec fn label_number(l: Seq<char>) -> int {
    digits_value(trailing_digits(l))
}

/// The labels placed in `x`.
pub open spec fn placed_set(x: Seq<InstrModel>) -> Set<Seq<char>>
    decreases x.len(),
{
    if x.len() == 0 {
        Set::empty()
    } else {
        match placed(x.last()) {
            Some(l) => placed_set(x.drop_last()).insert(l),
            None => placed_set(x.drop_last()),
        }
    }
}

/// The labels that instructions of `x` jump to.
pub open spec fn targets_set(x: Seq<InstrModel>) -> Set<Seq<char>>
    decreases x.len(),
{
    if x.len() == 0 {
        Set::empty()
    } else {
        targets_set(x.drop_last()).union(targets(x.last()))
    }
}

/// The numbers of the labels placed in `x`.
pub open spec fn numbers_set(x: Seq<InstrModel>) -> Set<int>
    decreases x.len(),
{
    if x.len() == 0 {
        Set::empty()
    } else {
        match placed(x.last()) {
            Some(l) => numbers_set(x.drop_last()).insert(label_number(l)),
            None => numbers_set(x.drop_last()),
        }
    }
}

/// No label of `x` is placed with the number of an earlier one; so no two
/// labels of `x` share a name.
pub open spec fn unique_labels(x: Seq<InstrModel>) -> bool
    decreases x.len(),
{
    if x.len() == 0 {
        true
    } else {
        unique_labels(x.drop_last()) && match placed(x.last()) {
            Some(l) => !numbers_set(x.drop_last()).contains(label_number(l)),
            None => true,
        }
    }
}

/// The labels of a function are well placed: each once, and every label
/// it jumps to is placed in it.
pub open spec fn labels_well_placed(is: Seq<InstrModel>) -> bool {
    unique_labels(is) && targets_set(is).subset_of(placed_set(is))
}

/// The labels of a segment are well placed, with numbers in `[lo, hi)`.
pub open spec fn labels_ok(x: Seq<InstrModel>, lo: int, hi: int) -> bool {
    &&& unique_labels(x)
    &&& forall|n: int| #[trigger] numbers_set(x).contains(n) ==> lo <= n < hi
    &&& targets_set(x).subset_of(placed_set(x))
}

proof fn lemma_concat(x: Seq<InstrModel>, y: Seq<InstrModel>)
    ensures
        placed_set(x + y) == placed_set(x).union(placed_set(y)),
        targets_set(x + y) == targets_set(x).union(targets_set(y)),
        numbers_set(x + y) == numbers_set(x).union(numbers_set(y)),
        unique_labels(x) && unique_labels(y) && numbers_set(x).disjoint(numbers_set(y)) ==> unique_labels(
            x + y,
        ),
    decreases y.len(),
{
    if y.len() == 0 {
        assert(x + y =~= x);
        assert(placed_set(x).union(placed_set(y)) =~= placed_set(x));
        assert(targets_set(x).union(targets_set(y)) =~= targets_set(x));
        assert(numbers_set(x).union(numbers_set(y)) =~= numbers_set(x));
    } else {
        lemma_concat(x, y.drop_last());
        assert((x + y).drop_last() =~= x + y.drop_last());
        assert((x + y).last() == y.last());
        assert(placed_set(x + y) =~= placed_set(x).union(placed_set(y)));
        assert(targets_set(x + y) =~= targets_set(x).union(targets_set(y)));
        assert(numbers_set(x + y) =~= numbers_set(x).union(numbers_set(y)));
    }
}

/// Concatenated segments with disjoint numbers keep their labels well placed.
proof fn lemma_labels_concat(x: Seq<InstrModel>, y: Seq<InstrModel>, lo1: int, hi1: int, lo2: int, hi2: int)
    requires
        labels_ok(x, lo1, hi1),
        labels_ok(y, lo2, hi2),
        lo1 <= hi1 <= lo2 <= hi2,
    ensures
        labels_ok(x + y, lo1, hi2),
{
    lemma_concat(x, y);
    assert forall|n: int| #[trigger] numbers_set(x + y).contains(n) implies lo1 <= n < hi2 by {
        if numbers_set(x).contains(n) {
        } else {
            assert(numbers_set(y).contains(n));
        }
    }
    assert(targets_set(x + y).subset_of(placed_set(x + y)));
    assert(numbers_set(x).disjoint(numbers_set(y))) by {
        assert forall|n: int| numbers_set(x).contains(n) implies !numbers_set(y).contains(n) by {
            if numbers_set(y).contains(n) {
                assert(n < hi1 && lo2 <= n);
            }
        }
    }
}

/// The instructions that lowering appended from `a` to `b`.
pub open spec fn segment(a: LowerState, b: LowerState) -> Seq<InstrModel> {
    b.instructions.skip(a.instructions.len() as int)
}

/// `b` holds the instructions of `a` and possibly more.
pub open spec fn extends(a: LowerState, b: LowerState) -> bool {
    &&& a.instructions.len() <= b.instructions.len()
    &&& b.instructions.take(a.instructions.len() as int) == a.instructions
}

proof fn lemma_extends_trans(a: LowerState, b: LowerState, c: LowerState)
    requires
        extends(a, b),
        extends(b, c),
    ensures
        extends(a, c),
{
    let la = a.instructions.len() as int;
    let lb = b.instructions.len() as int;
    assert(c.instructions.take(la) =~= a.instructions) by {
        assert forall|j: int| 0 <= j < la implies c.instructions.take(la)[j] == a.instructions[j] by {
            assert(c.instructions.take(lb)[j] == c.instructions[j]);
            assert(b.instructions.take(la)[j] == b.instructions[j]);
        }
    }
}

proof fn lemma_segment_split(a: LowerState, b: LowerState, c: LowerState)
    requires
        extends(a, b),
        extends(b, c),
    ensures
        segment(a, c) == segment(a, b) + segment(b, c),
        extends(a, c),
{
    let la = a.instructions.len() as int;
    let lb = b.instructions.len() as int;
    assert forall|j: int| 0 <= j < lb implies c.instructions[j] == b.instructions[j] by {
        assert(c.instructions.take(lb)[j] == c.instructions[j]);
    }
    assert(segment(a, c) =~= segment(a, b) + segment(b, c));
    lemma_extends_trans(a, b, c);
}

proof fn lemma_segment_push(a: LowerState, i1: InstrModel, i2: InstrModel)
    ensures
        extends(a, emit(emit(a, i1), i2)),
        segment(a, emit(emit(a, i1), i2)) == seq![i1, i2],
{
    let b = emit(emit(a, i1), i2);
    assert(b.instructions.take(a.instructions.len() as int) =~= a.instructions);
    assert(segment(a, b) =~= seq![i1, i2]);
}

/// No instruction of the segment places a label or jumps.
pub open spec fn plain(x: Seq<InstrModel>) -> bool {
    forall|j: int| 0 <= j < x.len() ==> #[trigger] placed(x[j]) is None && targets(x[j]).is_empty()
}

proof fn lemma_plain_labels(x: Seq<InstrModel>, lo: int, hi: int)
    requires
        plain(x),
    ensures
        labels_ok(x, lo, hi),
        placed_set(x) == Set::<Seq<char>>::empty(),
        numbers_set(x) == Set::<int>::empty(),
        targets_set(x) == Set::<Seq<char>>::empty(),
    decreases x.len(),
{
    if x.len() > 0 {
        assert(plain(x.drop_last())) by {
            assert forall|j: int| 0 <= j < x.drop_last().len() implies #[trigger] placed(x.drop_last()[j]) is None
                && targets(x.drop_last()[j]).is_empty() by {
                assert(x.drop_last()[j] == x[j]);
            }
        }
        lemma_plain_labels(x.drop_last(), lo, hi);
        assert(placed(x[x.len() - 1]) is None);
        assert(targets(x.last()) =~= Set::<Seq<char>>::empty());
        assert(targets_set(x) =~= Set::<Seq<char>>::empty());
    }
}

proof fn lemma_plain_concat(x: Seq<InstrModel>, y: Seq<InstrModel>)
    requires
        plain(x),
        plain(y),
    ensures
        plain(x + y),
{
    assert forall|j: int| 0 <= j < (x + y).len() implies #[trigger] placed((x + y)[j]) is None && targets(
        (x + y)[j],
    ).is_empty() by {
        if j < x.len() {
            assert((x + y)[j] == x[j]);
        } else {
            assert((x + y)[j] == y[j - x.len()]);
        }
    }
}

proof fn lemma_plain_emit(a: LowerState, b: LowerState, k: nat, instr: InstrModel)
    requires
        grows(a, b),
        plain(segment(a, b)),
        placed(instr) is None,
        targets(instr).is_empty(),
    ensures
        plain(segment(a, emit(bump(b, k), instr))),
{
    let r = emit(bump(b, k), instr);
    assert(segment(a, r) =~= segment(a, b).push(instr));
    assert forall|j: int| 0 <= j < segment(a, r).len() implies #[trigger] placed(segment(a, r)[j]) is None
        && targets(segment(a, r)[j]).is_empty() by {
        if j < segment(a, b).len() {
            assert(segment(a, r)[j] == segment(a, b)[j]);
        }
    }
}

proof fn lemma_plain_refl(a: LowerState)
    ensures
        plain(segment(a, a)),
{
    assert(segment(a, a).len() == 0);
}

proof fn lemma_plain_trans(a: LowerState, b: LowerState, c: LowerState)
    requires
        grows(a, b),
        grows(b, c),
        plain(segment(a, b)),
        plain(segment(b, c)),
    ensures
        plain(segment(a, c)),
{
    lemma_segment_split(a, b, c);
    lemma_plain_concat(segment(a, b), segment(b, c));
}

/// Lowering an expression places no label and jumps nowhere.
proof fn lemma_expr_plain(ft: FnTable, st: LowerState, e: Expr)
    ensures
        plain(segment(st, lower_expr(ft, st, e).0)),
    decreases e, 1nat,
{
    let r = lower_expr(ft, st, e);
    lemma_grows_refl(st);
    lemma_plain_refl(st);
    match e {
        Expr::Literal(..) | Expr::Variable(..) => {
            let instr = r.0.instructions.last();
            assert(r.0 == emit(bump(st, 1), instr));
            lemma_plain_emit(st, st, 1, instr);
        },
        Expr::Array(elements, _) => {
            lemma_elements_grows(ft, st, elements@);
            lemma_elements_plain(ft, st, elements@);
            let st1 = lower_elements(ft, st, elements@).0;
            let instr = r.0.instructions.last();
            assert(r.0 == emit(bump(st1, 1), instr));
            lemma_plain_emit(st, st1, 1, instr);
        },
        Expr::Mapping(entries, _) => {
            lemma_entries_grows(ft, st, entries@);
            lemma_entries_plain(ft, st, entries@);
            let st1 = lower_entries(ft, st, entries@).0;
            let instr = r.0.instructions.last();
            assert(r.0 == emit(bump(st1, 1), instr));
            lemma_plain_emit(st, st1, 1, instr);
        },
        Expr::Call { arguments, .. } => {
            lemma_arguments_grows(ft, st, arguments@);
            lemma_arguments_plain(ft, st, arguments@);
            let st1 = lower_arguments(ft, st, arguments@).0;
            let instr = r.0.instructions.last();
            assert(r.0 == emit(bump(st1, 1), instr));
            lemma_plain_emit(st, st1, 1, instr);
        },
        Expr::Index { target, index, .. } => {
            let (st1, _, _) = lower_expr(ft, st, *target);
            let (st2, _, _) = lower_expr(ft, st1, *index);
            lemma_expr_grows(ft, st, *target);
            lemma_expr_grows(ft, st1, *index);
            lemma_expr_plain(ft, st, *target);
            lemma_expr_plain(ft, st1, *index);
            lemma_plain_trans(st, st1, st2);
            lemma_grows_trans(st, st1, st2);
            let instr = r.0.instructions.last();
            assert(r.0 == emit(bump(st2, 1), instr));
            lemma_plain_emit(st, st2, 1, instr);
        },
        Expr::Binary { left, right, .. } => {
            let (st1, _, _) = lower_expr(ft, st, *left);
            let (st2, _, _) = lower_expr(ft, st1, *right);
            lemma_expr_grows(ft, st, *left);
            lemma_expr_grows(ft, st1, *right);
            lemma_expr_plain(ft, st, *left);
            lemma_expr_plain(ft, st1, *right);
            lemma_plain_trans(st, st1, st2);
            lemma_grows_trans(st, st1, st2);
            let instr = r.0.instructions.last();
            assert(r.0 == emit(bump(st2, 1), instr));
            lemma_plain_emit(st, st2, 1, instr);
        },
        Expr::Unary { op, expr, .. } => {
            lemma_expr_plain(ft, st, *expr);
            lemma_expr_grows(ft, st, *expr);
            let (st1, v, ty) = lower_expr(ft, st, *expr);
            if op == Op::Neg {
                lemma_negation_grows(st, st1, v, ty);
            }
        },
    }
}

proof fn lemma_elements_plain(ft: FnTable, st: LowerState, es: Seq<Expr>)
    ensures
        plain(segment(st, lower_elements(ft, st, es).0)),
    decreases es, 0nat,
{
    lemma_plain_refl(st);
    if es.len() > 0 {
        let st1 = lower_elements(ft, st, es.drop_last()).0;
        let st2 = lower_expr(ft, st1, es.last()).0;
        lemma_elements_grows(ft, st, es.drop_last());
        lemma_expr_grows(ft, st1, es.last());
        lemma_elements_plain(ft, st, es.drop_last());
        lemma_expr_plain(ft, st1, es.last());
        lemma_plain_trans(st, st1, st2);
    }
}

proof fn lemma_entries_plain(ft: FnTable, st: LowerState, es: Seq<(String, Expr)>)
    ensures
        plain(segment(st, lower_entries(ft, st, es).0)),
    decreases es, 0nat,
{
    lemma_plain_refl(st);
    if es.len() > 0 {
        let st1 = lower_entries(ft, st, es.drop_last()).0;
        let st2 = lower_expr(ft, st1, es.last().1).0;
        lemma_entries_grows(ft, st, es.drop_last());
        lemma_expr_grows(ft, st1, es.last().1);
        lemma_entries_plain(ft, st, es.drop_last());
        lemma_expr_plain(ft, st1, es.last().1);
        lemma_plain_trans(st, st1, st2);
    }
}

proof fn lemma_arguments_plain(ft: FnTable, st: LowerState, es: Seq<Expr>)
    ensures
        plain(segment(st, lower_arguments(ft, st, es).0)),
    decreases es, 0nat,
{
    lemma_plain_refl(st);
    if es.len() > 0 {
        let st1 = lower_arguments(ft, st, es.drop_last()).0;
        let st2 = lower_expr(ft, st1, es.last()).0;
        lemma_arguments_grows(ft, st, es.drop_last());
        lemma_expr_grows(ft, st1, es.last());
        lemma_arguments_plain(ft, st, es.drop_last());
        lemma_expr_plain(ft, st1, es.last());
        lemma_plain_trans(st, st1, st2);
    }
}

proof fn lemma_trailing_decimal(p: Seq<char>, n: nat)
    requires
        p.len() > 0,
        !('0' <= p.last() <= '9'),
    ensures
        trailing_digits(p + decimal(n)) == decimal(n),
        label_number(p + decimal(n)) == n,
    decreases n,
{
    lemma_decimal_value(n);
    if n < 10 {
        let s = p + decimal(n);
        assert(s.drop_last() =~= p);
        assert(s.last() == digit_char(n));
        assert(trailing_digits(p) == Seq::<char>::empty());
        assert(trailing_digits(s) =~= decimal(n));
    } else {
        lemma_trailing_decimal(p, n / 10);
        let s = p + decimal(n);
        assert(s.drop_last() =~= p + decimal(n / 10));
        assert(s.last() == digit_char(n % 10));
        assert(trailing_digits(s) =~= decimal(n));
    }
}

proof fn lemma_jump_label(target: Seq<char>, l: Seq<char>)
    ensures
        placed_set(seq![InstrModel::Jump(target), InstrModel::Label(l)]) == set![l],
        targets_set(seq![InstrModel::Jump(target), InstrModel::Label(l)]) == set![target],
        numbers_set(seq![InstrModel::Jump(target), InstrModel::Label(l)]) == set![label_number(l)],
        unique_labels(seq![InstrModel::Jump(target), InstrModel::Label(l)]),
{
    let x = seq![InstrModel::Jump(target), InstrModel::Label(l)];
    assert(x.drop_last() =~= seq![InstrModel::Jump(target)]);
    assert(x.drop_last().drop_last() =~= Seq::<InstrModel>::empty());
    let e = seq![InstrModel::Jump(target)].drop_last();
    assert(e.len() == 0);
    assert(placed_set(e) == Set::<Seq<char>>::empty());
    assert(numbers_set(e) == Set::<int>::empty());
    assert(targets_set(e) == Set::<Seq<char>>::empty());
    assert(unique_labels(e));
    assert(placed_set(seq![InstrModel::Jump(target)]) =~= Set::<Seq<char>>::empty());
    assert(numbers_set(seq![InstrModel::Jump(target)]) =~= Set::<int>::empty());
    assert(targets_set(seq![InstrModel::Jump(target)]) =~= set![target]);
    assert(placed_set(x) =~= set![l]);
    assert(targets_set(x) =~= set![target]);
    assert(numbers_set(x) =~= set![label_number(l)]);
    assert(unique_labels(x.drop_last()));
    assert(!numbers_set(x.drop_last()).contains(label_number(l)));
}

proof fn lemma_branch_label(c: Seq<char>, t: Seq<char>, e: Seq<char>, l: Seq<char>)
    ensures
        placed_set(seq![InstrModel::Branch { condition: c, then_label: t, else_label: e }, InstrModel::Label(l)])
            == set![l],
        targets_set(seq![InstrModel::Branch { condition: c, then_label: t, else_label: e }, InstrModel::Label(l)])
            == set![t, e],
        numbers_set(seq![InstrModel::Branch { condition: c, then_label: t, else_label: e }, InstrModel::Label(l)])
            == set![label_number(l)],
        unique_labels(seq![InstrModel::Branch { condition: c, then_label: t, else_label: e }, InstrModel::Label(l)]),
{
    let b = InstrModel::Branch { condition: c, then_label: t, else_label: e };
    let x = seq![b, InstrModel::Label(l)];
    assert(x.drop_last() =~= seq![b]);
    assert(x.drop_last().drop_last() =~= Seq::<InstrModel>::empty());
    let e0 = seq![b].drop_last();
    assert(e0.len() == 0);
    assert(placed_set(e0) == Set::<Seq<char>>::empty());
    assert(numbers_set(e0) == Set::<int>::empty());
    assert(targets_set(e0) == Set::<Seq<char>>::empty());
    assert(unique_labels(e0));
    assert(placed_set(seq![b]) =~= Set::<Seq<char>>::empty());
    assert(numbers_set(seq![b]) =~= Set::<int>::empty());
    assert(targets_set(seq![b]) =~= set![t, e]);
    assert(placed_set(x) =~= set![l]);
    assert(targets_set(x) =~= set![t, e]);
    assert(numbers_set(x) =~= set![label_number(l)]);
    assert(unique_labels(x.drop_last()));
    assert(!numbers_set(x.drop_last()).contains(label_number(l)));
}

/// Lowering a statement places each label once, numbered from the counter,
/// and jumps only to labels it places.
proof fn lemma_stmt_labels(ft: FnTable, st: LowerState, s: Stmt)
    ensures
        labels_ok(segment(st, lower_stmt(ft, st, s)), st.next as int, lower_stmt(ft, st, s).next as int),
    decreases s, 2nat,
{
    let r = lower_stmt(ft, st, s);
    lemma_stmt_grows(ft, st, s);
    lemma_grows_refl(st);
    lemma_plain_refl(st);
    match s {
        Stmt::Block(ss) => {
            lemma_stmts_labels(ft, st, ss@);
        },
        Stmt::Let { value, .. } | Stmt::Assign { value, .. } | Stmt::Print(value) | Stmt::Assert(
            value,
        ) => {
            let (st1, v, _) = lower_expr(ft, st, value);
            lemma_expr_grows(ft, st, value);
            lemma_expr_plain(ft, st, value);
            let instr = r.instructions.last();
            let st2 = LowerState { instructions: st1.instructions, next: st1.next, variables: r.variables };
            assert(r == emit(bump(st2, 0), instr));
            assert(segment(st, st2) == segment(st, st1));
            lemma_plain_emit(st, st2, 0, instr);
            lemma_plain_labels(segment(st, r), st.next as int, r.next as int);
        },
        Stmt::Return { value, .. } => match value {
            Some(x) => {
                let (st1, v, _) = lower_expr(ft, st, x);
                lemma_expr_grows(ft, st, x);
                lemma_expr_plain(ft, st, x);
                let instr = r.instructions.last();
                assert(r == emit(bump(st1, 0), instr));
                lemma_plain_emit(st, st1, 0, instr);
                lemma_plain_labels(segment(st, r), st.next as int, r.next as int);
            },
            None => {
                assert(bump(st, 0) == st);
                lemma_plain_emit(st, st, 0, InstrModel::Return(None));
                lemma_plain_labels(segment(st, r), st.next as int, r.next as int);
            },
        },
        Stmt::Conditional { .. } => {
            lemma_conditional_labels(ft, st, s);
        },
        Stmt::RepeatLoop { .. } => {
            lemma_repeat_labels(ft, st, s);
        },
        _ => {
            lemma_plain_labels(segment(st, r), st.next as int, r.next as int);
        },
    }
}

#[verifier::spinoff_prover]
proof fn lemma_conditional_labels(ft: FnTable, st: LowerState, s: Stmt)
    requires
        s is Conditional,
    ensures
        labels_ok(segment(st, lower_stmt(ft, st, s)), st.next as int, lower_stmt(ft, st, s).next as int),
    decreases s, 1nat,
{
    let r = lower_stmt(ft, st, s);
    match s {
        Stmt::Conditional { condition, then_branch, otherwise_branch, .. } => {
            let (st1, c, _) = lower_expr(ft, st, condition);
            lemma_expr_grows(ft, st, condition);
            lemma_expr_plain(ft, st, condition);
            let n = st1.next;
            let then_label = "then"@ + decimal(n);
            let else_label = "else"@ + decimal(n + 1);
            let join_label = "join"@ + decimal(n + 2);
            reveal_strlit("then");
            reveal_strlit("else");
            reveal_strlit("join");
            lemma_trailing_decimal("then"@, n);
            lemma_trailing_decimal("else"@, n + 1);
            lemma_trailing_decimal("join"@, n + 2);
            let branch = InstrModel::Branch { condition: c, then_label, else_label };
            let b1 = bump(st1, 3);
            let st2 = emit(emit(b1, branch), InstrModel::Label(then_label));
            lemma_segment_push(b1, branch, InstrModel::Label(then_label));
            let st3 = lower_stmts(ft, st2, then_branch@);
            lemma_stmts_grows(ft, st2, then_branch@);
            lemma_stmts_labels(ft, st2, then_branch@);
            let st4 = emit(emit(st3, InstrModel::Jump(join_label)), InstrModel::Label(else_label));
            lemma_segment_push(st3, InstrModel::Jump(join_label), InstrModel::Label(else_label));
            let st5 = match otherwise_branch {
                Some(o) => lower_stmts(ft, st4, o@),
                None => st4,
            };
            match otherwise_branch {
                Some(o) => {
                    lemma_stmts_grows(ft, st4, o@);
                    lemma_stmts_labels(ft, st4, o@);
                },
                None => {
                    lemma_grows_refl(st4);
                    lemma_plain_refl(st4);
                    lemma_plain_labels(segment(st4, st4), st4.next as int, st4.next as int);
                },
            }
            lemma_segment_push(st5, InstrModel::Jump(join_label), InstrModel::Label(join_label));
            assert(segment(st1, b1) == segment(st1, st1));
            let x0 = segment(st, st1);
            let y1 = segment(b1, st2);
            let x1 = segment(st2, st3);
            let y2 = segment(st3, st4);
            let x2 = segment(st4, st5);
            let y3 = segment(st5, r);
            assert(b1.instructions.take(st1.instructions.len() as int) =~= st1.instructions);
            assert(extends(st1, b1));
            lemma_segment_split(st, st1, b1);
            lemma_segment_split(st, b1, st2);
            lemma_segment_split(st, st2, st3);
            lemma_segment_split(st, st3, st4);
            lemma_segment_split(st, st4, st5);
            lemma_segment_split(st, st5, r);
            assert(segment(st, b1) == x0 + segment(st1, b1));
            assert(segment(st1, b1) =~= Seq::<InstrModel>::empty());
            assert(segment(st, b1) =~= x0);
            lemma_plain_labels(x0, st.next as int, st.next as int);
            lemma_branch_label(c, then_label, else_label, then_label);
            lemma_jump_label(join_label, else_label);
            lemma_jump_label(join_label, join_label);
            let a1 = x0 + y1;
            lemma_concat(x0, y1);
            let a2 = a1 + x1;
            lemma_concat(a1, x1);
            let a3 = a2 + y2;
            lemma_concat(a2, y2);
            let a4 = a3 + x2;
            lemma_concat(a3, x2);
            let a5 = a4 + y3;
            lemma_concat(a4, y3);
            assert(segment(st, r) == a5);
            assert(numbers_set(a1) =~= set![n as int]);
            assert(numbers_set(a2).disjoint(numbers_set(y2)));
            assert(numbers_set(a3).disjoint(numbers_set(x2))) by {
                assert forall|k: int| numbers_set(a3).contains(k) implies !numbers_set(x2).contains(k) by {
                    if numbers_set(x2).contains(k) {
                        assert(k >= st4.next);
                    }
                    if numbers_set(x1).contains(k) {
                        assert(k < st3.next);
                    }
                }
            }
            assert(numbers_set(a4).disjoint(numbers_set(y3))) by {
                assert forall|k: int| numbers_set(a4).contains(k) implies !numbers_set(y3).contains(k) by {
                    if numbers_set(y3).contains(k) {
                        assert(k == n + 2);
                        if numbers_set(x1).contains(k) {
                        }
                        if numbers_set(x2).contains(k) {
                        }
                    }
                }
            }
            assert forall|k: int| #[trigger] numbers_set(a5).contains(k) implies st.next <= k < r.next by {
                if numbers_set(x1).contains(k) {
                } else if numbers_set(x2).contains(k) {
                } else {
                }
            }
            assert(targets_set(a5).subset_of(placed_set(a5)));
        
        },
        _ => {},
    }
}

#[verifier::spinoff_prover]
proof fn lemma_repeat_labels(ft: FnTable, st: LowerState, s: Stmt)
    requires
        s is RepeatLoop,
    ensures
        labels_ok(segment(st, lower_stmt(ft, st, s)), st.next as int, lower_stmt(ft, st, s).next as int),
    decreases s, 1nat,
{
    let r = lower_stmt(ft, st, s);
    match s {
        Stmt::RepeatLoop { iterations, body, .. } => {
            let (st1, it, _) = lower_expr(ft, st, iterations);
            lemma_expr_grows(ft, st, iterations);
            lemma_expr_plain(ft, st, iterations);
            let n = st1.next;
            let body_label = "repeat_body"@ + decimal(n);
            let exit_label = "repeat_exit"@ + decimal(n + 1);
            reveal_strlit("repeat_body");
            reveal_strlit("repeat_exit");
            lemma_trailing_decimal("repeat_body"@, n);
            lemma_trailing_decimal("repeat_exit"@, n + 1);
            let branch = InstrModel::Branch { condition: it, then_label: body_label, else_label: exit_label };
            let b1 = bump(st1, 2);
            let st2 = emit(emit(b1, branch), InstrModel::Label(body_label));
            lemma_segment_push(b1, branch, InstrModel::Label(body_label));
            let st3 = lower_stmts(ft, st2, body@);
            lemma_stmts_grows(ft, st2, body@);
            lemma_stmts_labels(ft, st2, body@);
            lemma_segment_push(st3, InstrModel::Jump(exit_label), InstrModel::Label(exit_label));
            let x0 = segment(st, st1);
            let y1 = segment(b1, st2);
            let x1 = segment(st2, st3);
            let y2 = segment(st3, r);
            assert(b1.instructions.take(st1.instructions.len() as int) =~= st1.instructions);
            assert(extends(st1, b1));
            lemma_segment_split(st, st1, b1);
            lemma_segment_split(st, b1, st2);
            lemma_segment_split(st, st2, st3);
            lemma_segment_split(st, st3, r);
            assert(segment(st1, b1) =~= Seq::<InstrModel>::empty());
            assert(segment(st, b1) =~= x0);
            lemma_plain_labels(x0, st.next as int, st.next as int);
            lemma_branch_label(it, body_label, exit_label, body_label);
            lemma_jump_label(exit_label, exit_label);
            let a1 = x0 + y1;
            lemma_concat(x0, y1);
            let a2 = a1 + x1;
            lemma_concat(a1, x1);
            let a3 = a2 + y2;
            lemma_concat(a2, y2);
            assert(segment(st, r) == a3);
            assert(numbers_set(a1) =~= set![n as int]);
            assert(numbers_set(a2).disjoint(numbers_set(y2)));
            assert forall|k: int| #[trigger] numbers_set(a3).contains(k) implies st.next <= k < r.next by {
                if numbers_set(x1).contains(k) {
                } else {
                }
            }
            assert(targets_set(a3).subset_of(placed_set(a3)));
        
        },
        _ => {},
    }
}

/// The same for statements in order.
proof fn lemma_stmts_labels(ft: FnTable, st: LowerState, ss: Seq<Stmt>)
    ensures
        labels_ok(segment(st, lower_stmts(ft, st, ss)), st.next as int, lower_stmts(ft, st, ss).next as int),
    decreases ss, 0nat,
{
    lemma_grows_refl(st);
    if ss.len() == 0 {
        lemma_plain_refl(st);
        lemma_plain_labels(segment(st, st), st.next as int, st.next as int);
    } else {
        let st1 = lower_stmts(ft, st, ss.drop_last());
        let st2 = lower_stmt(ft, st1, ss.last());
        lemma_stmts_grows(ft, st, ss.drop_last());
        lemma_stmt_grows(ft, st1, ss.last());
        lemma_stmts_labels(ft, st, ss.drop_last());
        lemma_stmt_labels(ft, st1, ss.last());
        lemma_segment_split(st, st1, st2);
        lemma_labels_concat(segment(st, st1), segment(st1, st2), st.next as int, st1.next as int, st1.next as int, st2.next as int);
    }
}

proof fn lemma_placed_number(x: Seq<InstrModel>, j: int)
    requires
        0 <= j < x.len(),
        placed(x[j]) is Some,
    ensures
        numbers_set(x).contains(label_number(placed(x[j])->0)),
    decreases x.len(),
{
    if j < x.len() - 1 {
        assert(x.drop_last()[j] == x[j]);
        lemma_placed_number(x.drop_last(), j);
    }
}

/// In a segment with unique labels, two places hold labels of different
/// numbers.
proof fn lemma_unique_positions(x: Seq<InstrModel>, j1: int, j2: int)
    requires
        unique_labels(x),
        0 <= j1 < j2 < x.len(),
        placed(x[j1]) is Some,
        placed(x[j2]) is Some,
    ensures
        label_number(placed(x[j1])->0) != label_number(placed(x[j2])->0),
    decreases x.len(),
{
    assert(x.drop_last()[j1] == x[j1]);
    if j2 == x.len() - 1 {
        lemma_placed_number(x.drop_last(), j1);
    } else {
        assert(x.drop_last()[j2] == x[j2]);
        lemma_unique_positions(x.drop_last(), j1, j2);
    }
}

/// Every temporary and every label of the instructions is numbered in
/// `[lo, hi)`.
pub open spec fn numbered_within(is: Seq<InstrModel>, lo: int, hi: int) -> bool {
    &&& forall|j: int|
        0 <= j < is.len() && #[trigger] defines(is[j]) is Some ==> lo <= temp_number(defines(is[j])->0) < hi
    &&& forall|j: int|
        0 <= j < is.len() && #[trigger] placed(is[j]) is Some ==> lo <= label_number(placed(is[j])->0) < hi
}

proof fn lemma_function_range(
    ft: FnTable,
    next: nat,
    name: Seq<char>,
    parameters: Seq<(Seq<char>, Type)>,
    return_type: Type,
    body: Seq<Stmt>,
)
    ensures
        next <= lower_function_spec(ft, next, name, parameters, return_type, body).1,
        numbered_within(
            lower_function_spec(ft, next, name, parameters, return_type, body).0.instructions,
            next as int,
            lower_function_spec(ft, next, name, parameters, return_type, body).1 as int,
        ),
{
    let st0 = LowerState { next, variables: parameters, instructions: Seq::empty() };
    lemma_stmts_grows(ft, st0, body);
    lemma_stmts_labels(ft, st0, body);
    let is = lower_stmts(ft, st0, body).instructions;
    assert(segment(st0, lower_stmts(ft, st0, body)) =~= is);
    assert forall|j: int| 0 <= j < is.len() && #[trigger] placed(is[j]) is Some implies next
        <= label_number(placed(is[j])->0) < lower_stmts(ft, st0, body).next by {
        lemma_placed_number(is, j);
    }
}

/// The functions are numbered in `[lo, hi)`, each after the one before it.
pub open spec fn functions_apart(fs: Seq<crate::ir::FunctionModel>, lo: int, hi: int) -> bool {
    &&& forall|f: int| 0 <= f < fs.len() ==> numbered_within(#[trigger] fs[f].instructions, lo, hi)
    &&& forall|f1: int, f2: int, j1: int, j2: int|
        0 <= f1 < f2 < fs.len() && 0 <= j1 < fs[f1].instructions.len() && 0 <= j2
            < fs[f2].instructions.len() ==> {
            &&& (#[trigger] defines(fs[f1].instructions[j1]) is Some && #[trigger] defines(
                fs[f2].instructions[j2],
            ) is Some ==> temp_number(defines(fs[f1].instructions[j1])->0) < temp_number(
                defines(fs[f2].instructions[j2])->0,
            ))
            &&& (#[trigger] placed(fs[f1].instructions[j1]) is Some && #[trigger] placed(
                fs[f2].instructions[j2],
            ) is Some ==> label_number(placed(fs[f1].instructions[j1])->0) < label_number(
                placed(fs[f2].instructions[j2])->0,
            ))
        }
}

proof fn lemma_functions_push(
    fs: Seq<crate::ir::FunctionModel>,
    g: crate::ir::FunctionModel,
    lo: int,
    mid: int,
    hi: int,
)
    requires
        functions_apart(fs, lo, mid),
        numbered_within(g.instructions, mid, hi),
        lo <= mid <= hi,
    ensures
        functions_apart(fs.push(g), lo, hi),
{
    let gs = fs.push(g);
    assert forall|f: int| 0 <= f < gs.len() implies numbered_within(#[trigger] gs[f].instructions, lo, hi) by {
        if f < fs.len() {
            assert(gs[f] == fs[f]);
            assert(numbered_within(fs[f].instructions, lo, mid));
        }
    }
    assert forall|f1: int, f2: int, j1: int, j2: int|
        0 <= f1 < f2 < gs.len() && 0 <= j1 < gs[f1].instructions.len() && 0 <= j2
            < gs[f2].instructions.len() implies {
            &&& (#[trigger] defines(gs[f1].instructions[j1]) is Some && #[trigger] defines(
                gs[f2].instructions[j2],
            ) is Some ==> temp_number(defines(gs[f1].instructions[j1])->0) < temp_number(
                defines(gs[f2].instructions[j2])->0,
            ))
            &&& (#[trigger] placed(gs[f1].instructions[j1]) is Some && #[trigger] placed(
                gs[f2].instructions[j2],
            ) is Some ==> label_number(placed(gs[f1].instructions[j1])->0) < label_number(
                placed(gs[f2].instructions[j2])->0,
            ))
        } by {
        assert(gs[f1] == fs[f1]);
        assert(numbered_within(fs[f1].instructions, lo, mid));
        if f2 < fs.len() {
            assert(gs[f2] == fs[f2]);
        } else {
            assert(gs[f2] == g);
        }
    }
}

proof fn lemma_declarations_apart(ft: FnTable, next: nat, ss: Seq<Stmt>)
    ensures
        next <= lower_declarations(ft, next, ss).1,
        functions_apart(lower_declarations(ft, next, ss).0, next as int, lower_declarations(ft, next, ss).1 as int),
    decreases ss.len(),
{
    if ss.len() > 0 {
        let (fs, n) = lower_declarations(ft, next, ss.drop_last());
        lemma_declarations_apart(ft, next, ss.drop_last());
        match ss.last() {
            Stmt::Function { name, parameters, return_type, body, .. } => {
                let pt = crate::ir::parameter_types(parameters@);
                let rt = crate::ir::or_unknown(return_type);
                lemma_function_range(ft, n, name@, pt, rt, body@);
                let (g, n2) = lower_function_spec(ft, n, name@, pt, rt, body@);
                lemma_functions_push(fs, g, next as int, n as int, n2 as int);
            },
            _ => {},
        }
    }
}

/// Two places in functions numbered one after the other hold different
/// temporaries and different labels.
proof fn lemma_apart_places(a: Seq<InstrModel>, ja: int, b: Seq<InstrModel>, jb: int, mid: int)
    requires
        0 <= ja < a.len(),
        0 <= jb < b.len(),
        forall|j: int| 0 <= j < a.len() && #[trigger] defines(a[j]) is Some ==> temp_number(defines(a[j])->0) < mid,
        forall|j: int| 0 <= j < a.len() && #[trigger] placed(a[j]) is Some ==> label_number(placed(a[j])->0) < mid,
        forall|j: int| 0 <= j < b.len() && #[trigger] defines(b[j]) is Some ==> mid <= temp_number(defines(b[j])->0),
        forall|j: int| 0 <= j < b.len() && #[trigger] placed(b[j]) is Some ==> mid <= label_number(placed(b[j])->0),
    ensures
        defines(a[ja]) is Some && defines(b[jb]) is Some ==> defines(a[ja]) != defines(b[jb]),
        placed(a[ja]) is Some && placed(b[jb]) is Some ==> placed(a[ja]) != placed(b[jb]),
{
}

/// Across a whole lowered program no temporary is defined twice and no
/// label is placed twice: every definition and every label has a place of
/// its own.
pub proof fn lemma_program_names_unique(root: Stmt, f1: int, j1: int, f2: int, j2: int)
    requires
        0 <= f1 < lower_spec(root).len(),
        0 <= f2 < lower_spec(root).len(),
        0 <= j1 < lower_spec(root)[f1].instructions.len(),
        0 <= j2 < lower_spec(root)[f2].instructions.len(),
        f1 != f2 || j1 != j2,
    ensures
        defines(lower_spec(root)[f1].instructions[j1]) is Some && defines(
            lower_spec(root)[f2].instructions[j2],
        ) is Some ==> defines(lower_spec(root)[f1].instructions[j1]) != defines(
            lower_spec(root)[f2].instructions[j2],
        ),
        placed(lower_spec(root)[f1].instructions[j1]) is Some && placed(
            lower_spec(root)[f2].instructions[j2],
        ) is Some ==> placed(lower_spec(root)[f1].instructions[j1]) != placed(
            lower_spec(root)[f2].instructions[j2],
        ),
{
    match root {
        Stmt::Block(ss) => {
            let ft = collect_spec(Seq::empty(), root);
            let main = lower_function_spec(ft, 0, "main"@, Seq::empty(), Type::Null, ss@);
            lemma_function_range(ft, 0, "main"@, Seq::empty(), Type::Null, ss@);
            lemma_declarations_apart(ft, main.1, ss@);
            let d = lower_declarations(ft, main.1, ss@);
            let all = lower_spec(root);
            assert(all == seq![main.0] + d.0);
            assert(all[0] == main.0);
            assert forall|f: int| 1 <= f < all.len() implies all[f] == d.0[f - 1] by {}
            if f1 == f2 {
                lemma_lowered_names_well_defined(root, f1);
                let fi = all[f1].instructions;
                if placed(fi[j1]) is Some && placed(fi[j2]) is Some {
                    if j1 < j2 {
                        lemma_unique_positions(fi, j1, j2);
                    } else {
                        lemma_unique_positions(fi, j2, j1);
                    }
                }
            } else {
                let (a, ja, b, jb) = if f1 < f2 {
                    (f1, j1, f2, j2)
                } else {
                    (f2, j2, f1, j1)
                };
                let ia = all[a].instructions;
                let ib = all[b].instructions;
                if a == 0 {
                    assert(numbered_within(d.0[b - 1].instructions, main.1 as int, d.1 as int));
                    lemma_apart_places(ia, ja, ib, jb, main.1 as int);
                } else {
                    assert(0 <= a - 1 < b - 1 < d.0.len());
                    let da = d.0[a - 1].instructions;
                    let db = d.0[b - 1].instructions;
                    assert(ia == da && ib == db);
                    if defines(da[ja]) is Some && defines(db[jb]) is Some {
                        assert(temp_number(defines(da[ja])->0) < temp_number(defines(db[jb])->0));
                    }
                    if placed(da[ja]) is Some && placed(db[jb]) is Some {
                        assert(label_number(placed(da[ja])->0) < label_number(placed(db[jb])->0));
                    }
                }
            }
        },
        _ => {},
    }
}

} // verus!
