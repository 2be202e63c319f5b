//! The code of a condition, read top down. Once the two targets of a
//! condition are known, its code is built from the code of its parts with
//! their targets: the equations of the translation scheme for short-circuit
//! evaluation.

use crate::ast::Expr;
use crate::pending::lemma_contains_concat;
use crate::quad::{Operand, QuadView};
use crate::scheme::{
    false_chain, jump_to, lemma_shape, open_code, operator_of, quad_count, resolved, skeleton,
    temp_count, true_chain, value,
};
use vstd::prelude::*;

verus! {

/// A comparison: the code of the two operands, a conditional jump to the
/// true target, and a jump to the false target.
pub proof fn lemma_resolved_comparison(e: Expr, start: int, tmp: nat, on_true: int, on_false: int)
    requires
        e matches Expr::Op(op, _, _) && op.is_comparison(),
    ensures
        e matches Expr::Op(op, l, r) && ({
            let mid = start + quad_count(*l);
            let tmp_mid = tmp + temp_count(*l);
            resolved(e, start, tmp, on_true, on_false) == open_code(*l, start, tmp) + open_code(
                *r,
                mid,
                tmp_mid,
            ) + seq![
                QuadView {
                    op: operator_of(op),
                    arg1: value(*l, start, tmp),
                    arg2: value(*r, mid, tmp_mid),
                    result: Operand::Num(on_true),
                },
                jump_to(on_false),
            ]
        }),
{
    match e {
        Expr::Op(op, l, r) => {
            let mid = start + quad_count(*l);
            let tmp_mid = tmp + temp_count(*l);
            lemma_shape(*l, start, tmp);
            lemma_shape(*r, mid, tmp_mid);
            let left = open_code(*l, start, tmp);
            let right = open_code(*r, mid, tmp_mid);
            let tc = true_chain(e, start);
            let fc = false_chain(e, start);
            let want = left + right + seq![
                QuadView {
                    op: operator_of(op),
                    arg1: value(*l, start, tmp),
                    arg2: value(*r, mid, tmp_mid),
                    result: Operand::Num(on_true),
                },
                jump_to(on_false),
            ];
            let have = resolved(e, start, tmp, on_true, on_false);
            assert(tc[0] == mid + quad_count(*r));
            assert(fc[0] == mid + quad_count(*r) + 1);
            assert forall|i: int| 0 <= i < want.len() implies have[i] == want[i] by {
                let a = start + i;
                if tc.contains(a) {
                    assert(a == tc[0]);
                }
                if fc.contains(a) {
                    assert(a == fc[0]);
                }
            }
            assert(have =~= want);
        },
        _ => {},
    }
}

/// `and`: the left operand with the start of the right operand as its true
/// target, then the right operand; both share the false target.
pub proof fn lemma_resolved_and(e: Expr, start: int, tmp: nat, on_true: int, on_false: int)
    requires
        e matches Expr::Op(op, _, _) && op is And,
    ensures
        e matches Expr::Op(_, l, r) && ({
            let mid = start + quad_count(*l);
            resolved(e, start, tmp, on_true, on_false) == resolved(*l, start, tmp, mid, on_false)
                + resolved(*r, mid, tmp + temp_count(*l), on_true, on_false)
        }),
{
    match e {
        Expr::Op(_, l, r) => {
            let mid = start + quad_count(*l);
            let tmp_mid = tmp + temp_count(*l);
            lemma_shape(*l, start, tmp);
            lemma_shape(*r, mid, tmp_mid);
            let left = skeleton(*l, start, tmp);
            let right = skeleton(*r, mid, tmp_mid);
            let tl = true_chain(*l, start);
            let fl = false_chain(*l, start);
            let tr = true_chain(*r, mid);
            let fr = false_chain(*r, mid);
            lemma_contains_concat(fr, fl);
            let have = resolved(e, start, tmp, on_true, on_false);
            let want = resolved(*l, start, tmp, mid, on_false) + resolved(
                *r,
                mid,
                tmp_mid,
                on_true,
                on_false,
            );
            assert forall|i: int| 0 <= i < want.len() implies have[i] == want[i] by {
                let a = start + i;
                if i < left.len() {
                    assert(!tr.contains(a));
                    assert(!fr.contains(a));
                } else {
                    assert(a == mid + (i - left.len()));
                    assert(!fl.contains(a));
                }
            }
            assert(have =~= want);
        },
        _ => {},
    }
}

/// `or`: the left operand with the start of the right operand as its false
/// target, then the right operand; both share the true target.
pub proof fn lemma_resolved_or(e: Expr, start: int, tmp: nat, on_true: int, on_false: int)
    requires
        e matches Expr::Op(op, _, _) && op is Or,
    ensures
        e matches Expr::Op(_, l, r) && ({
            let mid = start + quad_count(*l);
            resolved(e, start, tmp, on_true, on_false) == resolved(*l, start, tmp, on_true, mid)
                + resolved(*r, mid, tmp + temp_count(*l), on_true, on_false)
        }),
{
    match e {
        Expr::Op(_, l, r) => {
            let mid = start + quad_count(*l);
            let tmp_mid = tmp + temp_count(*l);
            lemma_shape(*l, start, tmp);
            lemma_shape(*r, mid, tmp_mid);
            let left = skeleton(*l, start, tmp);
            let right = skeleton(*r, mid, tmp_mid);
            let tl = true_chain(*l, start);
            let fl = false_chain(*l, start);
            let tr = true_chain(*r, mid);
            let fr = false_chain(*r, mid);
            lemma_contains_concat(tr, tl);
            let have = resolved(e, start, tmp, on_true, on_false);
            let want = resolved(*l, start, tmp, on_true, mid) + resolved(
                *r,
                mid,
                tmp_mid,
                on_true,
                on_false,
            );
            assert forall|i: int| 0 <= i < want.len() implies have[i] == want[i] by {
                let a = start + i;
                if i < left.len() {
                    assert(!tr.contains(a));
                    assert(!fr.contains(a));
                    if tl.contains(a) {
                        assert(!fl.contains(a));
                    }
                } else {
                    assert(a == mid + (i - left.len()));
                    assert(!tl.contains(a));
                    assert(!fl.contains(a));
                }
            }
            assert(have =~= want);
        },
        _ => {},
    }
}

/// `not`: the code of the operand with the two targets exchanged.
pub proof fn lemma_resolved_not(e: Expr, start: int, tmp: nat, on_true: int, on_false: int)
    requires
        e is Not,
    ensures
        e matches Expr::Not(x) && resolved(e, start, tmp, on_true, on_false) == resolved(
            *x,
            start,
            tmp,
            on_false,
            on_true,
        ),
{
    match e {
        Expr::Not(x) => {
            lemma_shape(*x, start, tmp);
            let tc = true_chain(*x, start);
            let fc = false_chain(*x, start);
            let have = resolved(e, start, tmp, on_true, on_false);
            let want = resolved(*x, start, tmp, on_false, on_true);
            assert forall|i: int| 0 <= i < want.len() implies have[i] == want[i] by {
                let a = start + i;
                if tc.contains(a) {
                    assert(!fc.contains(a));
                }
            }
            assert(have =~= want);
        },
        _ => {},
    }
}

} // verus!
