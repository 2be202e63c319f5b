//! The translator: a depth-first walk of the tree that emits quadruples and
//! resolves the targets of their jumps by backpatching.

use crate::ast::{Expr, Opcode, Stmt, Type};
use crate::pending::{
    block_pending, lemma_block_exact, lemma_block_len, lemma_block_plain, lemma_block_swap,
    lemma_block_threaded, lemma_fill_both, lemma_fill_in_context, lemma_fill_single,
    lemma_fill_with_jump, lemma_short_circuit,
};
use crate::symbols::SymbolTable;
use crate::quad::{
    follows, is_list, merged, nodes, patch, Operand, Operator, QuadItem, QuadView, State,
    QUAD_ID_OFFSET,
};
use crate::scheme::{
    closing, declare_all, expr_outcome, expr_well_formed, false_chain, head_of, is_cond, jump_to,
    lemma_done_expr, lemma_shape, open_code, operator_of, quad_count, resolved, skeleton,
    stmt_code, stmt_outcome, stmt_quads, stmt_symbols, stmt_temps, stmts_code, stmts_outcome,
    stmts_quads, stmts_symbols, stmts_temps, store, temp_count, true_chain, value, Outcome,
    SemanticError,
};
use vstd::prelude::*;

verus! {

/// The program `q` is the program `before` followed by the code of the
/// expression `e`, with the true list and the false list of `e` open.
pub open spec fn pending(q: Seq<QuadView>, before: Seq<QuadView>, e: Expr, tmp: nat) -> bool {
    let start = QUAD_ID_OFFSET + before.len();
    block_pending(q, before, skeleton(e, start, tmp), true_chain(e, start), false_chain(e, start))
}

/// What an open block says about lengths and lists.
pub proof fn lemma_pending(q: Seq<QuadView>, before: Seq<QuadView>, e: Expr, tmp: nat)
    requires
        expr_well_formed(e),
        pending(q, before, e, tmp),
    ensures
        q.len() == before.len() + quad_count(e),
        temp_count(e) <= quad_count(e),
        is_list(q, head_of(true_chain(e, QUAD_ID_OFFSET + before.len()))),
        is_list(q, head_of(false_chain(e, QUAD_ID_OFFSET + before.len()))),
        nodes(q, head_of(true_chain(e, QUAD_ID_OFFSET + before.len()))) == true_chain(
            e,
            QUAD_ID_OFFSET + before.len(),
        ),
        nodes(q, head_of(false_chain(e, QUAD_ID_OFFSET + before.len()))) == false_chain(
            e,
            QUAD_ID_OFFSET + before.len(),
        ),
        is_cond(e) ==> {
            &&& QUAD_ID_OFFSET <= head_of(true_chain(e, QUAD_ID_OFFSET + before.len())) < q.len()
                + QUAD_ID_OFFSET
            &&& QUAD_ID_OFFSET <= head_of(false_chain(e, QUAD_ID_OFFSET + before.len())) < q.len()
                + QUAD_ID_OFFSET
        },
        !is_cond(e) ==> q == before + skeleton(e, QUAD_ID_OFFSET + before.len(), tmp),
{
    let start = QUAD_ID_OFFSET + before.len();
    lemma_shape(e, start, tmp);
    lemma_block_len(q, before, skeleton(e, start, tmp), true_chain(e, start), false_chain(e, start));
    if !is_cond(e) {
        assert(true_chain(e, start) =~= Seq::<int>::empty());
        assert(false_chain(e, start) =~= Seq::<int>::empty());
        lemma_block_plain(q, before, skeleton(e, start, tmp));
    } else {
        assert(true_chain(e, start)[0] >= start);
        assert(false_chain(e, start)[0] >= start);
    }
}

/// A name or a number yields no code.
pub proof fn lemma_leaf(q: Seq<QuadView>, e: Expr, tmp: nat)
    requires
        e is Id || e is Num,
    ensures
        pending(q, q, e, tmp),
{
    let none = Seq::<int>::empty();
    assert(q + Seq::<QuadView>::empty() =~= q);
    lemma_block_exact(q, Seq::empty(), none, none);
}

/// After both operands of a comparison, an arithmetic operation or an
/// assignment, the closing quadruples complete the code of the whole.
pub proof fn lemma_operator(
    q0: Seq<QuadView>,
    q1: Seq<QuadView>,
    q2: Seq<QuadView>,
    q: Seq<QuadView>,
    e: Expr,
    tmp: nat,
)
    requires
        expr_well_formed(e),
        e matches Expr::Op(op, l, r) && !op.is_logical() && pending(q1, q0, *l, tmp) && pending(
            q2,
            q1,
            *r,
            tmp + temp_count(*l),
        ),
        q == q2 + closing(e, QUAD_ID_OFFSET + q0.len(), tmp),
    ensures
        pending(q, q0, e, tmp),
{
    let start = QUAD_ID_OFFSET + q0.len();
    match e {
        Expr::Op(op, l, r) => {
            lemma_pending(q1, q0, *l, tmp);
            lemma_pending(q2, q1, *r, tmp + temp_count(*l));
            lemma_open(q1, q0, *l, tmp);
            lemma_open(q2, q1, *r, tmp + temp_count(*l));
            let code = skeleton(e, start, tmp);
            let tc = true_chain(e, start);
            let fc = false_chain(e, start);
            assert(q =~= q0 + code);
            if op.is_comparison() {
                assert(follows(q, tc, 0));
                assert(follows(q, fc, 0));
            }
            lemma_block_exact(q0, code, tc, fc);
        },
        _ => {},
    }
}

/// After both operands of `and` or `or`: the list of the left operand that
/// leads into the right operand can be filled with the entry of the right
/// operand, the other list of the left operand can be joined with the like
/// list of the right operand, and what results is the code of the whole with
/// its two lists open.
pub proof fn lemma_logical(
    q0: Seq<QuadView>,
    q1: Seq<QuadView>,
    q2: Seq<QuadView>,
    e: Expr,
    tmp: nat,
)
    requires
        expr_well_formed(e),
        e matches Expr::Op(op, l, r) && op.is_logical() && pending(q1, q0, *l, tmp) && pending(
            q2,
            q1,
            *r,
            tmp + temp_count(*l),
        ),
    ensures
        e matches Expr::Op(op, l, r) && ({
            let start = QUAD_ID_OFFSET + q0.len();
            let mid = QUAD_ID_OFFSET + q1.len();
            let tl = head_of(true_chain(*l, start));
            let fl = head_of(false_chain(*l, start));
            let tr = head_of(true_chain(*r, mid));
            let fr = head_of(false_chain(*r, mid));
            let inner = if op is And {
                tl
            } else {
                fl
            };
            let outer_left = if op is And {
                fl
            } else {
                tl
            };
            let outer_right = if op is And {
                fr
            } else {
                tr
            };
            let filled = patch(q2, QUAD_ID_OFFSET as int, nodes(q2, inner), mid);
            &&& q1.len() == q0.len() + quad_count(*l)
            &&& q2.len() == q1.len() + quad_count(*r)
            &&& QUAD_ID_OFFSET <= tl < mid
            &&& QUAD_ID_OFFSET <= fl < mid
            &&& QUAD_ID_OFFSET <= tr < QUAD_ID_OFFSET + q2.len()
            &&& QUAD_ID_OFFSET <= fr < QUAD_ID_OFFSET + q2.len()
            &&& is_list(q2, inner)
            &&& is_list(filled, outer_right)
            &&& pending(merged(filled, outer_left, outer_right), q0, e, tmp)
            &&& value(e, start, tmp) == Operand::TFList(tr, fr)
        }),
{
    let start = QUAD_ID_OFFSET + q0.len();
    let mid = QUAD_ID_OFFSET + q1.len();
    match e {
        Expr::Op(op, l, r) => {
            lemma_pending(q1, q0, *l, tmp);
            lemma_pending(q2, q1, *r, tmp + temp_count(*l));
            lemma_shape(*l, start, tmp);
            lemma_shape(*r, mid, tmp + temp_count(*l));
            let sl = skeleton(*l, start, tmp);
            let sr = skeleton(*r, mid, tmp + temp_count(*l));
            let tl = true_chain(*l, start);
            let fl = false_chain(*l, start);
            let tr = true_chain(*r, mid);
            let fr = false_chain(*r, mid);
            if op is And {
                lemma_short_circuit(q0, q1, q2, sl, sr, tl, fl, tr, fr);
            } else {
                lemma_block_swap(q1, q0, sl, tl, fl);
                lemma_block_swap(q2, q1, sr, tr, fr);
                lemma_short_circuit(q0, q1, q2, sl, sr, fl, tl, fr, tr);
                let filled = patch(q2, QUAD_ID_OFFSET as int, fl, mid);
                lemma_block_swap(
                    merged(filled, head_of(tl), head_of(tr)),
                    q0,
                    patch(sl, start, fl, mid) + sr,
                    fr,
                    tr + tl,
                );
            }
        },
        _ => {},
    }
}

/// `not` exchanges the two lists and yields no code of its own.
pub proof fn lemma_not(q0: Seq<QuadView>, q: Seq<QuadView>, e: Expr, tmp: nat)
    requires
        expr_well_formed(e),
        e matches Expr::Not(x) && pending(q, q0, *x, tmp),
    ensures
        pending(q, q0, e, tmp),
        e matches Expr::Not(x) && value(*x, QUAD_ID_OFFSET + q0.len(), tmp) is TFList,
{
    let start = QUAD_ID_OFFSET + q0.len();
    match e {
        Expr::Not(x) => {
            lemma_block_swap(
                q,
                q0,
                skeleton(*x, start, tmp),
                true_chain(*x, start),
                false_chain(*x, start),
            );
        },
        _ => {},
    }
}

/// The operator of the quadruple that a comparison or an arithmetic operator
/// yields.
pub fn operator(op: Opcode) -> (r: Operator)
    ensures
        r == operator_of(op),
{
    match op {
        Opcode::GreaterThan => Operator::JumpGreater,
        Opcode::Equal => Operator::JumpEqual,
        Opcode::LessThan => Operator::JumpLess,
        Opcode::Add => Operator::Add,
        Opcode::Sub => Operator::Sub,
        Opcode::Mul => Operator::Mul,
        _ => Operator::Assign,
    }
}

/// Translates one expression. Returns its value and its entry: the address
/// of the first quadruple emitted for it, or the address that the next
/// quadruple will get where none was emitted.
///
/// The quadruples of the expression are appended to the program, with the
/// two lists of a condition left open. The first name that is used without
/// a declaration ends the translation with an error.
pub fn visit_expr(current: &Expr, state: &mut State) -> (r: Result<
    (QuadItem, usize),
    SemanticError,
>)
    requires
        !(expr_outcome(*current, old(state).sym_table@) is Defect),
        old(state).has_room(quad_count(*current)),
    ensures
        match r {
            Ok((val, entry)) => {
                &&& expr_outcome(*current, old(state).sym_table@) is Done
                &&& entry == old(state).quads@.len() + QUAD_ID_OFFSET
                &&& val@ == value(*current, entry as int, old(state).tmp_var_id as nat)
                &&& pending(
                    final(state).program(),
                    old(state).program(),
                    *current,
                    old(state).tmp_var_id as nat,
                )
                &&& final(state).tmp_var_id == old(state).tmp_var_id + temp_count(*current)
                &&& final(state).sym_table == old(state).sym_table
            },
            Err(err) => expr_outcome(*current, old(state).sym_table@) == Outcome::Undefined(err@),
        },
    decreases current,
{
    let ghost q0 = state.program();
    let ghost start = QUAD_ID_OFFSET + q0.len();
    let ghost tmp0 = state.tmp_var_id as nat;
    match current {
        Expr::Id(id, left, right) => {
            if !state.sym_table.contains(id.as_str()) {
                return Err(SemanticError::UndefinedVariable(id.clone(), *left, *right));
            }
            proof {
                lemma_leaf(q0, *current, tmp0);
            }
            Ok((QuadItem::Id(id.clone()), state.quad_id()))
        },
        Expr::Num(num) => {
            proof {
                lemma_leaf(q0, *current, tmp0);
            }
            Ok((QuadItem::Num(*num), state.quad_id()))
        },
        Expr::Op(opcode, lhs, rhs) => {
            proof {
                lemma_shape(**lhs, start, tmp0);
                lemma_shape(**rhs, start, tmp0);
            }
            let (left_val, left_entry) = match visit_expr(lhs, state) {
                Ok(pair) => pair,
                Err(err) => {
                    return Err(err);
                },
            };
            let ghost q1 = state.program();
            proof {
                lemma_done_expr(**lhs, state.sym_table@);
                lemma_pending(q1, q0, **lhs, tmp0);
            }
            let (right_val, right_entry) = match visit_expr(rhs, state) {
                Ok(pair) => pair,
                Err(err) => {
                    return Err(err);
                },
            };
            let ghost q2 = state.program();
            proof {
                lemma_done_expr(**rhs, state.sym_table@);
                lemma_pending(q2, q1, **rhs, (tmp0 + temp_count(**lhs)) as nat);
            }
            match opcode {
                Opcode::And => {
                    proof {
                        lemma_logical(q0, q1, q2, *current, tmp0);
                    }
                    let (t, f) = left_val.to_lists();
                    let (t2, f2) = right_val.to_lists();
                    state.fill_list(t, right_entry as u32);
                    let joined: usize = state.merge_list(f, f2);
                    Ok((QuadItem::TFList(t2, joined), left_entry))
                },
                Opcode::Or => {
                    proof {
                        lemma_logical(q0, q1, q2, *current, tmp0);
                    }
                    let (t, f) = left_val.to_lists();
                    let (t2, f2) = right_val.to_lists();
                    state.fill_list(f, right_entry as u32);
                    let joined: usize = state.merge_list(t, t2);
                    Ok((QuadItem::TFList(joined, f2), left_entry))
                },
                Opcode::GreaterThan | Opcode::Equal | Opcode::LessThan => {
                    let true_list: usize = state.emit(
                        operator(*opcode),
                        left_val,
                        right_val,
                        QuadItem::Num(0),
                    );
                    let false_list: usize = state.emit(
                        Operator::Jump,
                        QuadItem::Empty,
                        QuadItem::Empty,
                        QuadItem::Num(0),
                    );
                    proof {
                        assert(state.program() =~= q2 + closing(*current, start, tmp0));
                        lemma_operator(q0, q1, q2, state.program(), *current, tmp0);
                    }
                    Ok((QuadItem::TFList(true_list, false_list), left_entry))
                },
                Opcode::Assign => {
                    state.emit(Operator::Assign, right_val, QuadItem::Empty, left_val);
                    proof {
                        assert(state.program() =~= q2 + closing(*current, start, tmp0));
                        lemma_operator(q0, q1, q2, state.program(), *current, tmp0);
                    }
                    Ok((QuadItem::Empty, left_entry))
                },
                Opcode::Add | Opcode::Sub | Opcode::Mul => {
                    let tmp = state.request_tmp_var();
                    state.emit(operator(*opcode), left_val, right_val, tmp.clone());
                    proof {
                        assert(state.program() =~= q2 + closing(*current, start, tmp0));
                        lemma_operator(q0, q1, q2, state.program(), *current, tmp0);
                    }
                    Ok((tmp, left_entry))
                },
            }
        },
        Expr::Not(expr) => {
            let (val, entry) = match visit_expr(expr, state) {
                Ok(pair) => pair,
                Err(err) => {
                    return Err(err);
                },
            };
            proof {
                lemma_done_expr(**expr, state.sym_table@);
                lemma_not(q0, state.program(), *current, tmp0);
            }
            let (t, f) = val.to_lists();
            Ok((QuadItem::TFList(f, t), entry))
        },
    }
}

/// `if` without `else`: the true list is filled with the start of the body;
/// the jump that follows the body is emitted at the front of the false list,
/// and filling from it resolves both to the address after the jump.
pub proof fn lemma_if(
    q0: Seq<QuadView>,
    q1: Seq<QuadView>,
    body: Seq<QuadView>,
    c: Expr,
    tmp: nat,
    end: int,
)
    requires
        expr_well_formed(c),
        is_cond(c),
        pending(q1, q0, c, tmp),
    ensures
        ({
            let start = QUAD_ID_OFFSET + q0.len();
            let body_start = QUAD_ID_OFFSET + q1.len();
            let t = head_of(true_chain(c, start));
            let f = head_of(false_chain(c, start));
            let q2 = patch(q1, QUAD_ID_OFFSET as int, nodes(q1, t), body_start);
            let q4 = q2 + body + seq![jump_to(f)];
            let next = QUAD_ID_OFFSET + q1.len() + body.len();
            &&& is_list(q4, next)
            &&& patch(q4, QUAD_ID_OFFSET as int, nodes(q4, next), end) == q0 + resolved(
                c,
                start,
                tmp,
                body_start,
                end,
            ) + body + seq![jump_to(end)]
        }),
{
    let start = QUAD_ID_OFFSET + q0.len();
    let body_start = QUAD_ID_OFFSET + q1.len();
    let code = skeleton(c, start, tmp);
    let tc = true_chain(c, start);
    let fc = false_chain(c, start);
    lemma_shape(c, start, tmp);
    lemma_pending(q1, q0, c, tmp);
    lemma_fill_in_context(q1, Seq::empty(), q0, code, tc, fc, body_start);
    let q2 = patch(q1, QUAD_ID_OFFSET as int, tc, body_start);
    lemma_fill_with_jump(q2, body, q0, patch(code, start, tc, body_start), fc, end);
}

/// `while`: the true list is filled with the start of the body; after the
/// body and the jump back, the false list is filled with the address after
/// that jump.
pub proof fn lemma_while(
    q0: Seq<QuadView>,
    q1: Seq<QuadView>,
    body: Seq<QuadView>,
    c: Expr,
    tmp: nat,
    end: int,
)
    requires
        expr_well_formed(c),
        is_cond(c),
        pending(q1, q0, c, tmp),
    ensures
        ({
            let start = QUAD_ID_OFFSET + q0.len();
            let body_start = QUAD_ID_OFFSET + q1.len();
            let t = head_of(true_chain(c, start));
            let f = head_of(false_chain(c, start));
            let q2 = patch(q1, QUAD_ID_OFFSET as int, nodes(q1, t), body_start);
            let q4 = q2 + body + seq![jump_to(start)];
            &&& is_list(q4, f)
            &&& patch(q4, QUAD_ID_OFFSET as int, nodes(q4, f), end) == q0 + resolved(
                c,
                start,
                tmp,
                body_start,
                end,
            ) + body + seq![jump_to(start)]
        }),
{
    let base = QUAD_ID_OFFSET as int;
    let start = QUAD_ID_OFFSET + q0.len();
    let body_start = QUAD_ID_OFFSET + q1.len();
    let code = skeleton(c, start, tmp);
    let tc = true_chain(c, start);
    let fc = false_chain(c, start);
    let none = Seq::<int>::empty();
    lemma_shape(c, start, tmp);
    lemma_pending(q1, q0, c, tmp);
    lemma_fill_in_context(q1, Seq::empty(), q0, code, tc, fc, body_start);
    let q2 = patch(q1, base, tc, body_start);
    let code2 = patch(code, start, tc, body_start);
    let rest = body + seq![jump_to(start)];
    lemma_block_swap(q2, q0, code2, none, fc);
    lemma_fill_in_context(q2, rest, q0, code2, fc, none, end);
    lemma_fill_both(q1, q0, code, tc, fc, body_start, end);
    assert(q2 + rest =~= q2 + body + seq![jump_to(start)]);
    assert(q0 + resolved(c, start, tmp, body_start, end) + rest =~= q0 + resolved(
        c,
        start,
        tmp,
        body_start,
        end,
    ) + body + seq![jump_to(start)]);
}

/// `if` with `else`: the true list is filled with the start of the first
/// body; after that body a jump is emitted whose target is open; the false
/// list is filled with the start of the second body; after the second body
/// the jump is filled with the address that follows.
pub proof fn lemma_if_else(
    q0: Seq<QuadView>,
    q1: Seq<QuadView>,
    first: Seq<QuadView>,
    second: Seq<QuadView>,
    c: Expr,
    tmp: nat,
    end: int,
)
    requires
        expr_well_formed(c),
        is_cond(c),
        pending(q1, q0, c, tmp),
    ensures
        ({
            let start = QUAD_ID_OFFSET + q0.len();
            let first_start = QUAD_ID_OFFSET + q1.len();
            let skip = first_start + first.len();
            let second_start = skip + 1;
            let t = head_of(true_chain(c, start));
            let f = head_of(false_chain(c, start));
            let q2 = patch(q1, QUAD_ID_OFFSET as int, nodes(q1, t), first_start);
            let q4 = q2 + first + seq![jump_to(0)];
            let q5 = patch(q4, QUAD_ID_OFFSET as int, nodes(q4, f), second_start);
            let q6 = q5 + second;
            &&& is_list(q4, f)
            &&& is_list(q6, skip)
            &&& q5 == q0 + resolved(c, start, tmp, first_start, second_start) + first + seq![
                jump_to(0),
            ]
            &&& patch(q6, QUAD_ID_OFFSET as int, nodes(q6, skip), end) == q0 + resolved(
                c,
                start,
                tmp,
                first_start,
                second_start,
            ) + first + seq![jump_to(end)] + second
        }),
{
    let base = QUAD_ID_OFFSET as int;
    let start = QUAD_ID_OFFSET + q0.len();
    let first_start = QUAD_ID_OFFSET + q1.len();
    let second_start = first_start + first.len() + 1;
    let code = skeleton(c, start, tmp);
    let tc = true_chain(c, start);
    let fc = false_chain(c, start);
    let none = Seq::<int>::empty();
    lemma_shape(c, start, tmp);
    lemma_pending(q1, q0, c, tmp);
    lemma_fill_in_context(q1, Seq::empty(), q0, code, tc, fc, first_start);
    let q2 = patch(q1, base, tc, first_start);
    let code2 = patch(code, start, tc, first_start);
    let rest = first + seq![jump_to(0)];
    lemma_block_swap(q2, q0, code2, none, fc);
    lemma_fill_in_context(q2, rest, q0, code2, fc, none, second_start);
    lemma_fill_both(q1, q0, code, tc, fc, first_start, second_start);
    let done = q0 + resolved(c, start, tmp, first_start, second_start);
    assert(q2 + rest =~= q2 + first + seq![jump_to(0)]);
    assert(done + rest =~= done + first + seq![jump_to(0)]);
    lemma_fill_single(done + first, second, end);
}

/// The assignment of a condition: the two storing quadruples are emitted,
/// then the true list is filled with the address of the first and the false
/// list with the address of the second.
pub proof fn lemma_assign_cond(
    q0: Seq<QuadView>,
    q1: Seq<QuadView>,
    c: Expr,
    tmp: nat,
    one: QuadView,
    zero: QuadView,
)
    requires
        expr_well_formed(c),
        is_cond(c),
        pending(q1, q0, c, tmp),
    ensures
        ({
            let start = QUAD_ID_OFFSET + q0.len();
            let on_true = QUAD_ID_OFFSET + q1.len();
            let t = head_of(true_chain(c, start));
            let f = head_of(false_chain(c, start));
            let q2 = q1 + seq![one, zero];
            let q3 = patch(q2, QUAD_ID_OFFSET as int, nodes(q2, t), on_true);
            &&& is_list(q2, t)
            &&& is_list(q3, f)
            &&& patch(q3, QUAD_ID_OFFSET as int, nodes(q3, f), on_true + 1) == q0 + resolved(
                c,
                start,
                tmp,
                on_true,
                on_true + 1,
            ) + seq![one, zero]
        }),
{
    let base = QUAD_ID_OFFSET as int;
    let start = QUAD_ID_OFFSET + q0.len();
    let on_true = QUAD_ID_OFFSET + q1.len();
    let code = skeleton(c, start, tmp);
    let tc = true_chain(c, start);
    let fc = false_chain(c, start);
    let none = Seq::<int>::empty();
    let rest = seq![one, zero];
    lemma_shape(c, start, tmp);
    lemma_pending(q1, q0, c, tmp);
    lemma_fill_in_context(q1, rest, q0, code, tc, fc, on_true);
    let p1 = patch(q1, base, tc, on_true);
    let code2 = patch(code, start, tc, on_true);
    lemma_block_swap(p1, q0, code2, none, fc);
    lemma_fill_in_context(p1, rest, q0, code2, fc, none, on_true + 1);
    lemma_fill_both(q1, q0, code, tc, fc, on_true, on_true + 1);
}

/// An expression on its own leaves its code as it is.
pub proof fn lemma_open(q: Seq<QuadView>, q0: Seq<QuadView>, e: Expr, tmp: nat)
    requires
        expr_well_formed(e),
        pending(q, q0, e, tmp),
    ensures
        q == q0 + open_code(e, QUAD_ID_OFFSET + q0.len(), tmp),
{
    let start = QUAD_ID_OFFSET + q0.len();
    lemma_shape(e, start, tmp);
    lemma_block_threaded(
        q,
        q0,
        skeleton(e, start, tmp),
        true_chain(e, start),
        false_chain(e, start),
    );
}

/// What holds of the first statements of a sequence holds on in the whole:
/// their quadruples and temporaries are part of the total, and where their
/// translation does not run to its end, that of the whole ends in the same
/// way.
pub proof fn lemma_stmts_take(ss: Seq<Stmt>, i: int, symbols: Seq<(Seq<char>, Type)>)
    requires
        0 <= i <= ss.len(),
    ensures
        stmts_quads(ss.take(i)) <= stmts_quads(ss),
        stmts_temps(ss.take(i)) <= stmts_temps(ss),
        !(stmts_outcome(ss.take(i), symbols) is Done) ==> stmts_outcome(ss, symbols)
            == stmts_outcome(ss.take(i), symbols),
    decreases ss.len(),
{
    if i == ss.len() {
        assert(ss.take(i) =~= ss);
    } else {
        assert(ss.drop_last().take(i) =~= ss.take(i));
        lemma_stmts_take(ss.drop_last(), i, symbols);
    }
}

/// One more statement at the end of a sequence.
pub proof fn lemma_stmts_step(ss: Seq<Stmt>, i: int)
    requires
        0 <= i < ss.len(),
    ensures
        ss.take(i + 1).drop_last() == ss.take(i),
        ss.take(i + 1).last() == ss[i],
{
    assert(ss.take(i + 1).drop_last() =~= ss.take(i));
}

/// Declares every name of a declaration with its type, in order.
pub fn declare_names(names: &Vec<String>, ty: Type, table: &mut SymbolTable)
    ensures
        final(table)@ == declare_all(old(table)@, names@, ty),
        old(table).wf() ==> final(table).wf(),
{
    let mut i: usize = 0;
    assert(names@.take(0) =~= Seq::<String>::empty());
    while i < names.len()
        invariant
            i <= names@.len(),
            table@ == declare_all(old(table)@, names@.take(i as int), ty),
            old(table).wf() ==> table.wf(),
        decreases names@.len() - i,
    {
        proof {
            assert(names@.take(i + 1).drop_last() =~= names@.take(i as int));
            assert(names@.take(i + 1).last() == names@[i as int]);
        }
        table.declare(names[i].clone(), ty);
        i = i + 1;
    }
    assert(names@.take(i as int) =~= names@);
}

/// Translates an assignment.
fn visit_assign(current: &Stmt, state: &mut State) -> (r: Result<(), SemanticError>)
    requires
        current is Assign,
        !(stmt_outcome(*current, old(state).sym_table@) is Defect),
        old(state).has_room(stmt_quads(*current)),
    ensures
        stmt_post(*current, *old(state), *final(state), r),
{
    let ghost q0 = state.program();
    let ghost start = QUAD_ID_OFFSET + q0.len();
    let ghost tmp0 = state.tmp_var_id as nat;
    match current {
        Stmt::Assign((var, left, right), e) => {
            if !state.sym_table.contains(var.as_str()) {
                return Err(SemanticError::UndefinedVariable(var.clone(), *left, *right));
            }
            let (val, _) = match visit_expr(e, state) {
                Ok(pair) => pair,
                Err(err) => {
                    return Err(err);
                },
            };
            let ghost q1 = state.program();
            proof {
                lemma_done_expr(**e, state.sym_table@);
                lemma_pending(q1, q0, **e, tmp0);
            }
            match val {
                QuadItem::TFList(t, f) => {
                    let tqid: usize = state.emit(
                        Operator::Assign,
                        QuadItem::Num(1),
                        QuadItem::Empty,
                        QuadItem::Id(var.clone()),
                    );
                    let fqid: usize = state.emit(
                        Operator::Assign,
                        QuadItem::Num(0),
                        QuadItem::Empty,
                        QuadItem::Id(var.clone()),
                    );
                    proof {
                        let one = store(Operand::Num(1), var@);
                        let zero = store(Operand::Num(0), var@);
                        lemma_assign_cond(q0, q1, **e, tmp0, one, zero);
                        assert(state.program() =~= q1 + seq![one, zero]);
                    }
                    state.fill_list(t, tqid as u32);
                    state.fill_list(f, fqid as u32);
                    proof {
                        assert(is_cond(**e));
                        assert(state.program() == q0 + stmt_code(*current, start, tmp0));
                    }
                },
                val => {
                    state.emit(Operator::Assign, val, QuadItem::Empty, QuadItem::Id(var.clone()));
                    proof {
                        assert(state.program() =~= q0 + stmt_code(*current, start, tmp0));
                    }
                },
            }
            Ok(())
        },
        _ => Ok(()),
    }
}

/// What a statement makes of the state: on success its code is appended to
/// the program, its declarations are in the symbol table and its
/// temporaries are taken; on failure the error names the first name that is
/// used without a declaration.
pub open spec fn stmt_post(s: Stmt, before: State, after: State, r: Result<(), SemanticError>) -> bool {
    match r {
        Ok(_) => {
            &&& stmt_outcome(s, before.sym_table@) is Done
            &&& after.program() == before.program() + stmt_code(
                s,
                QUAD_ID_OFFSET + before.quads@.len(),
                before.tmp_var_id as nat,
            )
            &&& after.quads@.len() == before.quads@.len() + stmt_quads(s)
            &&& after.tmp_var_id == before.tmp_var_id + stmt_temps(s)
            &&& stmt_temps(s) <= stmt_quads(s)
            &&& after.sym_table@ == stmt_symbols(s, before.sym_table@)
            &&& before.sym_table.wf() ==> after.sym_table.wf()
        },
        Err(err) => stmt_outcome(s, before.sym_table@) == Outcome::Undefined(err@),
    }
}

/// What a sequence of statements makes of the state.
pub open spec fn stmts_post(
    ss: Seq<Stmt>,
    before: State,
    after: State,
    r: Result<(), SemanticError>,
) -> bool {
    match r {
        Ok(_) => {
            &&& stmts_outcome(ss, before.sym_table@) is Done
            &&& after.program() == before.program() + stmts_code(
                ss,
                QUAD_ID_OFFSET + before.quads@.len(),
                before.tmp_var_id as nat,
            )
            &&& after.quads@.len() == before.quads@.len() + stmts_quads(ss)
            &&& after.tmp_var_id == before.tmp_var_id + stmts_temps(ss)
            &&& stmts_temps(ss) <= stmts_quads(ss)
            &&& after.sym_table@ == stmts_symbols(ss, before.sym_table@)
            &&& before.sym_table.wf() ==> after.sym_table.wf()
        },
        Err(err) => stmts_outcome(ss, before.sym_table@) == Outcome::Undefined(err@),
    }
}

/// Translates the statements of a sequence in order.
pub fn visit_stmts(list: &Vec<Stmt>, state: &mut State) -> (r: Result<(), SemanticError>)
    requires
        !(stmts_outcome(list@, old(state).sym_table@) is Defect),
        old(state).has_room(stmts_quads(list@)),
    ensures
        stmts_post(list@, *old(state), *final(state), r),
    decreases list, 0nat,
{
    let ghost q0 = state.program();
    let ghost symbols = state.sym_table@;
    let mut i: usize = 0;
    proof {
        assert(list@.take(0) =~= Seq::<Stmt>::empty());
        assert(q0 + Seq::<QuadView>::empty() =~= q0);
    }
    while i < list.len()
        invariant
            i <= list@.len(),
            !(stmts_outcome(list@, symbols) is Defect),
            old(state).has_room(stmts_quads(list@)),
            q0 == old(state).program(),
            symbols == old(state).sym_table@,
            stmts_post(list@.take(i as int), *old(state), *state, Ok(())),
        decreases list@.len() - i,
    {
        let ghost done = list@.take(i as int);
        let ghost mid = state.program();
        proof {
            lemma_stmts_step(list@, i as int);
            lemma_stmts_take(list@, i + 1, symbols);
        }
        match visit_stmt(&list[i], state) {
            Ok(_) => {},
            Err(err) => {
                return Err(err);
            },
        }
        proof {
            let code = stmt_code(
                list@[i as int],
                QUAD_ID_OFFSET + mid.len(),
                (old(state).tmp_var_id + stmts_temps(done)) as nat,
            );
            let front = stmts_code(
                done,
                QUAD_ID_OFFSET + q0.len(),
                old(state).tmp_var_id as nat,
            );
            assert(q0 + front + code =~= q0 + (front + code));
        }
        i = i + 1;
    }
    proof {
        assert(list@.take(i as int) =~= list@);
    }
    Ok(())
}

/// Translates one statement.
///
/// On success the code of the statement, with every jump resolved, is
/// appended to the program, and its declarations are in the symbol table.
/// The first name that is used without a declaration ends the translation
/// with an error.
pub fn visit_stmt(current: &Stmt, state: &mut State) -> (r: Result<(), SemanticError>)
    requires
        !(stmt_outcome(*current, old(state).sym_table@) is Defect),
        old(state).has_room(stmt_quads(*current)),
    ensures
        stmt_post(*current, *old(state), *final(state), r),
    decreases current, 1nat,
{
    let ghost q0 = state.program();
    match current {
        Stmt::If(_, _) => visit_if(current, state),
        Stmt::IfElse(_, _, _) => visit_if_else(current, state),
        Stmt::While(_, _) => visit_while(current, state),
        Stmt::Assign(_, _) => visit_assign(current, state),
        Stmt::VarDecl(names, ty) => {
            declare_names(names, *ty, &mut state.sym_table);
            proof {
                assert(q0 + Seq::<QuadView>::empty() =~= q0);
            }
            Ok(())
        },
        Stmt::Block(body) => visit_stmts(body, state),
        Stmt::Expr(e) => {
            match visit_expr(e, state) {
                Ok(_) => {
                    proof {
                        lemma_done_expr(**e, state.sym_table@);
                        lemma_pending(state.program(), q0, **e, old(state).tmp_var_id as nat);
                        lemma_open(state.program(), q0, **e, old(state).tmp_var_id as nat);
                    }
                    Ok(())
                },
                Err(err) => Err(err),
            }
        },
    }
}

/// Translates an `if` without `else`.
fn visit_if(current: &Stmt, state: &mut State) -> (r: Result<(), SemanticError>)
    requires
        current is If,
        !(stmt_outcome(*current, old(state).sym_table@) is Defect),
        old(state).has_room(stmt_quads(*current)),
    ensures
        stmt_post(*current, *old(state), *final(state), r),
    decreases current, 0nat,
{
    let ghost q0 = state.program();
    let ghost start = QUAD_ID_OFFSET + q0.len();
    let ghost tmp0 = state.tmp_var_id as nat;
    match current {
        Stmt::If(e, ts) => {
            let (val, _) = match visit_expr(e, state) {
                Ok(pair) => pair,
                Err(err) => {
                    return Err(err);
                },
            };
            let ghost q1 = state.program();
            proof {
                lemma_done_expr(**e, state.sym_table@);
                lemma_pending(q1, q0, **e, tmp0);
            }
            let (t, f) = val.to_lists();
            let body_start: usize = state.quad_id();
            state.fill_list(t, body_start as u32);
            let ghost q2 = state.program();
            match visit_stmts(ts, state) {
                Ok(_) => {},
                Err(err) => {
                    return Err(err);
                },
            }
            let ghost body = stmts_code(ts@, body_start as int, tmp0 + temp_count(**e));
            let next: usize = state.emit(
                Operator::Jump,
                QuadItem::Empty,
                QuadItem::Empty,
                QuadItem::Num(f as u32),
            );
            let end: usize = state.quad_id();
            proof {
                lemma_if(q0, q1, body, **e, tmp0, end as int);
                assert(state.program() =~= q2 + body + seq![jump_to(f as int)]);
            }
            state.fill_list(next, end as u32);
            proof {
                assert(state.program() == q0 + stmt_code(*current, start, tmp0));
            }
            Ok(())
        },
        _ => Ok(()),
    }
}

/// Translates an `if` with `else`.
fn visit_if_else(current: &Stmt, state: &mut State) -> (r: Result<(), SemanticError>)
    requires
        current is IfElse,
        !(stmt_outcome(*current, old(state).sym_table@) is Defect),
        old(state).has_room(stmt_quads(*current)),
    ensures
        stmt_post(*current, *old(state), *final(state), r),
    decreases current, 0nat,
{
    let ghost q0 = state.program();
    let ghost start = QUAD_ID_OFFSET + q0.len();
    let ghost tmp0 = state.tmp_var_id as nat;
    match current {
        Stmt::IfElse(e, ts, fs) => {
            let (val, _) = match visit_expr(e, state) {
                Ok(pair) => pair,
                Err(err) => {
                    return Err(err);
                },
            };
            let ghost q1 = state.program();
            proof {
                lemma_done_expr(**e, state.sym_table@);
                lemma_pending(q1, q0, **e, tmp0);
            }
            let (t, f) = val.to_lists();
            let first_start: usize = state.quad_id();
            state.fill_list(t, first_start as u32);
            let ghost q2 = state.program();
            match visit_stmts(ts, state) {
                Ok(_) => {},
                Err(err) => {
                    return Err(err);
                },
            }
            let ghost first = stmts_code(ts@, first_start as int, tmp0 + temp_count(**e));
            let next: usize = state.emit(
                Operator::Jump,
                QuadItem::Empty,
                QuadItem::Empty,
                QuadItem::Num(0),
            );
            let second_start: usize = state.quad_id();
            let ghost symbols = state.sym_table@;
            let ghost tmp2 = state.tmp_var_id as nat;
            let ghost second = stmts_code(fs@, second_start as int, tmp2);
            proof {
                lemma_if_else(
                    q0,
                    q1,
                    first,
                    second,
                    **e,
                    tmp0,
                    second_start + stmts_quads(fs@),
                );
                assert(state.program() =~= q2 + first + seq![jump_to(0)]);
            }
            state.fill_list(f, second_start as u32);
            match visit_stmts(fs, state) {
                Ok(_) => {},
                Err(err) => {
                    return Err(err);
                },
            }
            let end: usize = state.quad_id();
            state.fill_list(next, end as u32);
            proof {
                assert(state.program() == q0 + stmt_code(*current, start, tmp0));
            }
            Ok(())
        },
        _ => Ok(()),
    }
}

/// Translates a `while`.
fn visit_while(current: &Stmt, state: &mut State) -> (r: Result<(), SemanticError>)
    requires
        current is While,
        !(stmt_outcome(*current, old(state).sym_table@) is Defect),
        old(state).has_room(stmt_quads(*current)),
    ensures
        stmt_post(*current, *old(state), *final(state), r),
    decreases current, 0nat,
{
    let ghost q0 = state.program();
    let ghost start = QUAD_ID_OFFSET + q0.len();
    let ghost tmp0 = state.tmp_var_id as nat;
    match current {
        Stmt::While(e, ts) => {
            let (val, entry) = match visit_expr(e, state) {
                Ok(pair) => pair,
                Err(err) => {
                    return Err(err);
                },
            };
            let ghost q1 = state.program();
            proof {
                lemma_done_expr(**e, state.sym_table@);
                lemma_pending(q1, q0, **e, tmp0);
            }
            let (t, f) = val.to_lists();
            let body_start: usize = state.quad_id();
            state.fill_list(t, body_start as u32);
            let ghost q2 = state.program();
            match visit_stmts(ts, state) {
                Ok(_) => {},
                Err(err) => {
                    return Err(err);
                },
            }
            let ghost body = stmts_code(ts@, body_start as int, tmp0 + temp_count(**e));
            state.emit(
                Operator::Jump,
                QuadItem::Empty,
                QuadItem::Empty,
                QuadItem::Num(entry as u32),
            );
            let end: usize = state.quad_id();
            proof {
                lemma_while(q0, q1, body, **e, tmp0, end as int);
                assert(state.program() =~= q2 + body + seq![jump_to(start)]);
            }
            state.fill_list(f, end as u32);
            proof {
                assert(state.program() == q0 + stmt_code(*current, start, tmp0));
            }
            Ok(())
        },
        _ => Ok(()),
    }
}

/// What the translation of a whole program returns: on success the code of
/// the program from address `QUAD_ID_OFFSET` on, with the symbol table that
/// its declarations give; on failure the first name that is used without a
/// declaration.
pub open spec fn translated(program: Seq<Stmt>, r: Result<State, SemanticError>) -> bool {
    match r {
        Ok(state) => {
            &&& stmts_outcome(program, Seq::empty()) is Done
            &&& state.program() == stmts_code(program, QUAD_ID_OFFSET as int, 0)
            &&& state.quads@.len() == stmts_quads(program)
            &&& state.sym_table@ == stmts_symbols(program, Seq::empty())
            &&& state.sym_table.wf()
            &&& state.tmp_var_id == stmts_temps(program)
        },
        Err(err) => stmts_outcome(program, Seq::empty()) == Outcome::Undefined(err@),
    }
}

/// Translates a whole program, from the empty state.
pub fn translate(program: &Vec<Stmt>) -> (r: Result<State, SemanticError>)
    requires
        !(stmts_outcome(program@, Seq::empty()) is Defect),
        stmts_quads(program@) + QUAD_ID_OFFSET <= u32::MAX,
    ensures
        translated(program@, r),
{
    let mut state = State::default();
    match visit_stmts(program, &mut state) {
        Ok(_) => {
            proof {
                assert(Seq::<QuadView>::empty() + stmts_code(program@, QUAD_ID_OFFSET as int, 0)
                    =~= stmts_code(program@, QUAD_ID_OFFSET as int, 0));
            }
            Ok(state)
        },
        Err(err) => Err(err),
    }
}

} // verus!
