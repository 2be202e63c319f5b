//! Every jump of a translated statement has its target.

use crate::ast::{Expr, Stmt};
use crate::pending::lemma_contains_concat;
use crate::quad::{patch, Operand, Operator, QuadView, State, QUAD_ID_OFFSET};
use crate::translate::translated;
use crate::scheme::{
    lemma_done_stmts, expr_well_formed, false_chain, is_cond, jump_to, lemma_shape, open_code, quad_count,
    resolved, skeleton, stmt_code, stmt_quads, stmt_well_formed, stmts_code, stmts_quads,
    stmts_temps, stmts_well_formed, store, temp_count, threaded, true_chain, value,
};
use vstd::prelude::*;

verus! {

/// The operator is a jump, conditional or not.
pub open spec fn is_jump(op: Operator) -> bool {
    op is Jump || op is JumpGreater || op is JumpEqual || op is JumpLess
}

/// No condition inside the expression stands as an operand of a comparison,
/// of an arithmetic operator or of an assignment, where nothing would ever
/// fill its lists, and no assignment has a number on its left side.
pub open spec fn expr_closed(e: Expr) -> bool
    decreases e,
{
    match e {
        Expr::Op(op, l, r) => {
            &&& expr_closed(*l)
            &&& expr_closed(*r)
            &&& !op.is_logical() ==> !is_cond(*l) && !is_cond(*r)
            &&& op is Assign ==> !(*l is Num)
        },
        Expr::Not(x) => expr_closed(*x),
        _ => true,
    }
}

/// No condition stands as a statement of its own, where nothing would ever
/// fill its lists, and no assignment has a number on its left side.
pub open spec fn stmt_closed(s: Stmt) -> bool
    decreases s,
{
    match s {
        Stmt::If(c, body) => expr_closed(*c) && forall|i: int|
            0 <= i < body@.len() ==> stmt_closed(#[trigger] body@[i]),
        Stmt::IfElse(c, then_body, else_body) => {
            &&& expr_closed(*c)
            &&& forall|i: int| 0 <= i < then_body@.len() ==> stmt_closed(#[trigger] then_body@[i])
            &&& forall|i: int| 0 <= i < else_body@.len() ==> stmt_closed(#[trigger] else_body@[i])
        },
        Stmt::While(c, body) => expr_closed(*c) && forall|i: int|
            0 <= i < body@.len() ==> stmt_closed(#[trigger] body@[i]),
        Stmt::Assign(_, e) => expr_closed(*e),
        Stmt::VarDecl(_, _) => true,
        Stmt::Block(body) => forall|i: int|
            0 <= i < body@.len() ==> stmt_closed(#[trigger] body@[i]),
        Stmt::Expr(e) => expr_closed(*e) && !is_cond(*e),
    }
}

/// Every statement of the sequence is closed.
pub open spec fn stmts_closed(ss: Seq<Stmt>) -> bool {
    forall|i: int| 0 <= i < ss.len() ==> stmt_closed(#[trigger] ss[i])
}

/// The result of the quadruple is settled: a jump has an address from `low`
/// to `high` as its target, and any other quadruple has no number as its
/// result.
pub open spec fn settled(q: QuadView, low: int, high: int) -> bool {
    if is_jump(q.op) {
        q.result matches Operand::Num(t) && low <= t <= high
    } else {
        !(q.result is Num)
    }
}

/// Every quadruple of the code is settled.
pub open spec fn all_settled(code: Seq<QuadView>, low: int, high: int) -> bool {
    forall|i: int| 0 <= i < code.len() ==> settled(#[trigger] code[i], low, high)
}

/// In a skeleton, the jumps that are not settled are those on the two
/// chains, and only jumps are on the chains.
pub open spec fn settled_but_chains(
    code: Seq<QuadView>,
    start: int,
    on_true: Seq<int>,
    on_false: Seq<int>,
    low: int,
    high: int,
) -> bool {
    forall|i: int|
        0 <= i < code.len() ==> {
            let q = #[trigger] code[i];
            if on_true.contains(start + i) || on_false.contains(start + i) {
                is_jump(q.op)
            } else {
                settled(q, low, high)
            }
        }
}

/// Two pieces of settled code, one after the other, are settled.
pub proof fn lemma_settled_concat(a: Seq<QuadView>, b: Seq<QuadView>, low: int, high: int)
    requires
        all_settled(a, low, high),
        all_settled(b, low, high),
    ensures
        all_settled(a + b, low, high),
{
    assert forall|i: int| 0 <= i < (a + b).len() implies settled(
        #[trigger] (a + b)[i],
        low,
        high,
    ) by {
        if i < a.len() {
            assert(settled(a[i], low, high));
        } else {
            assert(settled(b[i - a.len()], low, high));
        }
    }
}

/// The skeleton of a closed, well-formed expression is settled but for the
/// jumps on its chains.
pub proof fn lemma_skeleton_targets(e: Expr, start: int, tmp: nat)
    requires
        expr_well_formed(e),
        expr_closed(e),
    ensures
        settled_but_chains(
            skeleton(e, start, tmp),
            start,
            true_chain(e, start),
            false_chain(e, start),
            start,
            start + quad_count(e),
        ),
    decreases e,
{
    let code = skeleton(e, start, tmp);
    let tc = true_chain(e, start);
    let fc = false_chain(e, start);
    let n = quad_count(e);
    lemma_shape(e, start, tmp);
    match e {
        Expr::Id(_, _, _) => {},
        Expr::Num(_) => {},
        Expr::Op(op, l, r) => {
            let mid = start + quad_count(*l);
            let tmp_mid = tmp + temp_count(*l);
            lemma_skeleton_targets(*l, start, tmp);
            lemma_skeleton_targets(*r, mid, tmp_mid);
            lemma_shape(*l, start, tmp);
            lemma_shape(*r, mid, tmp_mid);
            let left = skeleton(*l, start, tmp);
            let right = skeleton(*r, mid, tmp_mid);
            let tl = true_chain(*l, start);
            let fl = false_chain(*l, start);
            let tr = true_chain(*r, mid);
            let fr = false_chain(*r, mid);
            if !op.is_logical() {
                assert(tl.len() == 0 && fl.len() == 0);
                assert(tr.len() == 0 && fr.len() == 0);
                assert(threaded(threaded(left, start, tl), start, fl) =~= left);
                assert(threaded(threaded(right, mid, tr), mid, fr) =~= right);
            }
            lemma_contains_concat(tr, tl);
            lemma_contains_concat(fr, fl);
            assert forall|i: int| 0 <= i < code.len() implies {
                let q = #[trigger] code[i];
                if tc.contains(start + i) || fc.contains(start + i) {
                    is_jump(q.op)
                } else {
                    settled(q, start, start + n)
                }
            } by {
                let a = start + i;
                if i < left.len() {
                    let q = left[i];
                    assert(tl.contains(a) || fl.contains(a) ==> is_jump(q.op));
                    assert(!tr.contains(a));
                    assert(!fr.contains(a));
                    if !op.is_logical() {
                        assert(tl.len() == 0 && fl.len() == 0);
                        if op.is_comparison() {
                            assert(tc[0] != a);
                            assert(fc[0] != a);
                        }
                    }
                } else if i < left.len() + right.len() {
                    let j = i - left.len();
                    let q = right[j];
                    assert(a == mid + j);
                    assert(tr.contains(a) || fr.contains(a) ==> is_jump(q.op));
                    assert(!tl.contains(a));
                    assert(!fl.contains(a));
                    if !op.is_logical() {
                        assert(tr.len() == 0 && fr.len() == 0);
                        if op.is_comparison() {
                            assert(tc[0] != a);
                            assert(fc[0] != a);
                        }
                    }
                } else {
                    if op.is_comparison() {
                        if i == left.len() + right.len() {
                            assert(tc[0] == a);
                        } else {
                            assert(fc[0] == a);
                        }
                    } else {
                        assert(tc.len() == 0 && fc.len() == 0);
                    }
                }
            }
        },
        Expr::Not(x) => {
            lemma_skeleton_targets(*x, start, tmp);
            let inner = skeleton(*x, start, tmp);
            assert forall|i: int| 0 <= i < code.len() implies {
                let q = #[trigger] code[i];
                if tc.contains(start + i) || fc.contains(start + i) {
                    is_jump(q.op)
                } else {
                    settled(q, start, start + n)
                }
            } by {
                let q = inner[i];
            }
        },
    }
}

/// The code of a closed condition, with its two targets in place, is
/// settled.
pub proof fn lemma_resolved_targets(
    e: Expr,
    start: int,
    tmp: nat,
    on_true: int,
    on_false: int,
    low: int,
    high: int,
)
    requires
        expr_well_formed(e),
        expr_closed(e),
        low <= start,
        start + quad_count(e) <= high,
        low <= on_true <= high,
        low <= on_false <= high,
    ensures
        resolved(e, start, tmp, on_true, on_false).len() == quad_count(e),
        all_settled(resolved(e, start, tmp, on_true, on_false), low, high),
{
    let code = skeleton(e, start, tmp);
    let tc = true_chain(e, start);
    let fc = false_chain(e, start);
    let done = resolved(e, start, tmp, on_true, on_false);
    lemma_shape(e, start, tmp);
    lemma_skeleton_targets(e, start, tmp);
    assert forall|i: int| 0 <= i < done.len() implies settled(#[trigger] done[i], low, high) by {
        let q = code[i];
        assert(patch(code, start, tc, on_true)[i].op == q.op);
    }
}

/// The code of a closed expression that is no condition is settled.
pub proof fn lemma_plain_targets(e: Expr, start: int, tmp: nat, low: int, high: int)
    requires
        expr_well_formed(e),
        expr_closed(e),
        !is_cond(e),
        low <= start,
        start + quad_count(e) <= high,
    ensures
        skeleton(e, start, tmp).len() == quad_count(e),
        open_code(e, start, tmp) == skeleton(e, start, tmp),
        all_settled(skeleton(e, start, tmp), low, high),
{
    let code = skeleton(e, start, tmp);
    let tc = true_chain(e, start);
    let fc = false_chain(e, start);
    lemma_shape(e, start, tmp);
    lemma_skeleton_targets(e, start, tmp);
    assert(tc.len() == 0 && fc.len() == 0);
    assert forall|i: int| 0 <= i < code.len() implies settled(#[trigger] code[i], low, high) by {
        assert(!tc.contains(start + i));
        assert(!fc.contains(start + i));
    }
    assert(threaded(code, start, tc) =~= code);
    assert(threaded(threaded(code, start, tc), start, fc) =~= code);
}

/// In the code of a closed, well-formed statement every jump has its
/// target: the result of every jump is an address from `low` to `high`, for
/// any two bounds that take in the code of the statement and the address
/// after its end, and no other quadruple has a number as its result. No
/// link of a patch list and no 0 that stands for an open target is left.
pub proof fn lemma_stmt_targets(s: Stmt, start: int, tmp: nat, low: int, high: int)
    requires
        stmt_well_formed(s),
        stmt_closed(s),
        low <= start,
        start + stmt_quads(s) <= high,
    ensures
        stmt_code(s, start, tmp).len() == stmt_quads(s),
        all_settled(stmt_code(s, start, tmp), low, high),
    decreases s, 1nat,
{
    match s {
        Stmt::If(c, body) => {
            let body_start = start + quad_count(*c);
            let end = body_start + stmts_quads(body@) + 1;
            let tmp1 = tmp + temp_count(*c);
            let head = resolved(*c, start, tmp, body_start, end);
            let mid = stmts_code(body@, body_start, tmp1);
            let last = seq![jump_to(end)];
            lemma_resolved_targets(*c, start, tmp, body_start, end, low, high);
            lemma_stmts_targets(body@, body_start, tmp1, low, high);
            assert(settled(last[0], low, high));
            lemma_settled_concat(head, mid, low, high);
            lemma_settled_concat(head + mid, last, low, high);
        },
        Stmt::IfElse(c, then_body, else_body) => {
            let then_start = start + quad_count(*c);
            let else_start = then_start + stmts_quads(then_body@) + 1;
            let end = else_start + stmts_quads(else_body@);
            let tmp1 = tmp + temp_count(*c);
            let tmp2 = tmp1 + stmts_temps(then_body@);
            let head = resolved(*c, start, tmp, then_start, else_start);
            let first = stmts_code(then_body@, then_start, tmp1);
            let skip = seq![jump_to(end)];
            let second = stmts_code(else_body@, else_start, tmp2);
            lemma_resolved_targets(*c, start, tmp, then_start, else_start, low, high);
            lemma_stmts_targets(then_body@, then_start, tmp1, low, high);
            lemma_stmts_targets(else_body@, else_start, tmp2, low, high);
            assert(settled(skip[0], low, high));
            lemma_settled_concat(head, first, low, high);
            lemma_settled_concat(head + first, skip, low, high);
            lemma_settled_concat(head + first + skip, second, low, high);
        },
        Stmt::While(c, body) => {
            let body_start = start + quad_count(*c);
            let end = body_start + stmts_quads(body@) + 1;
            let tmp1 = tmp + temp_count(*c);
            let head = resolved(*c, start, tmp, body_start, end);
            let mid = stmts_code(body@, body_start, tmp1);
            let last = seq![jump_to(start)];
            lemma_resolved_targets(*c, start, tmp, body_start, end, low, high);
            lemma_stmts_targets(body@, body_start, tmp1, low, high);
            assert(settled(last[0], low, high));
            lemma_settled_concat(head, mid, low, high);
            lemma_settled_concat(head + mid, last, low, high);
        },
        Stmt::Assign(target, e) => {
            if is_cond(*e) {
                let on_true = start + quad_count(*e);
                let head = resolved(*e, start, tmp, on_true, on_true + 1);
                let last = seq![
                    store(Operand::Num(1), target.0@),
                    store(Operand::Num(0), target.0@),
                ];
                lemma_resolved_targets(*e, start, tmp, on_true, on_true + 1, low, high);
                assert(settled(last[0], low, high));
                assert(settled(last[1], low, high));
                lemma_settled_concat(head, last, low, high);
            } else {
                let head = skeleton(*e, start, tmp);
                let last = seq![
                    store(value(*e, start, tmp), target.0@),
                ];
                lemma_plain_targets(*e, start, tmp, low, high);
                assert(settled(last[0], low, high));
                lemma_settled_concat(head, last, low, high);
            }
        },
        Stmt::VarDecl(_, _) => {},
        Stmt::Block(body) => {
            lemma_stmts_targets(body@, start, tmp, low, high);
        },
        Stmt::Expr(e) => {
            lemma_plain_targets(*e, start, tmp, low, high);
        },
    }
}

/// The same for a sequence of statements.
pub proof fn lemma_stmts_targets(ss: Seq<Stmt>, start: int, tmp: nat, low: int, high: int)
    requires
        stmts_well_formed(ss),
        stmts_closed(ss),
        low <= start,
        start + stmts_quads(ss) <= high,
    ensures
        stmts_code(ss, start, tmp).len() == stmts_quads(ss),
        all_settled(stmts_code(ss, start, tmp), low, high),
    decreases ss, 0nat,
{
    if ss.len() > 0 {
        let front = ss.drop_last();
        let at = start + stmts_quads(front);
        let tmp_at = tmp + stmts_temps(front);
        assert(stmts_well_formed(front)) by {
            assert forall|i: int| 0 <= i < front.len() implies stmt_well_formed(
                #[trigger] front[i],
            ) by {
                assert(front[i] == ss[i]);
            }
        }
        assert(stmts_closed(front)) by {
            assert forall|i: int| 0 <= i < front.len() implies stmt_closed(#[trigger] front[i]) by {
                assert(front[i] == ss[i]);
            }
        }
        assert(stmt_well_formed(ss.last()) && stmt_closed(ss.last())) by {
            assert(ss.last() == ss[ss.len() - 1]);
        }
        lemma_stmts_targets(front, start, tmp, low, high);
        lemma_stmt_targets(ss.last(), at, tmp_at, low, high);
        lemma_settled_concat(
            stmts_code(front, start, tmp),
            stmt_code(ss.last(), at, tmp_at),
            low,
            high,
        );
    }
}

/// After the translation of a closed program every jump has its target: the
/// result of every jump is the address of a quadruple of the program or the
/// address after the last, so none is below `QUAD_ID_OFFSET`, and no other
/// quadruple has a number as its result.
pub proof fn lemma_translated_targets(program: Seq<Stmt>, state: State)
    requires
        translated(program, Ok(state)),
        stmts_closed(program),
    ensures
        all_settled(
            state.program(),
            QUAD_ID_OFFSET as int,
            QUAD_ID_OFFSET + state.quads@.len(),
        ),
{
    lemma_done_stmts(program, Seq::empty());
    lemma_stmts_targets(
        program,
        QUAD_ID_OFFSET as int,
        0,
        QUAD_ID_OFFSET as int,
        QUAD_ID_OFFSET + stmts_quads(program),
    );
}

} // verus!
