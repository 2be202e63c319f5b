//! The state of the program while targets are still open: how the
//! quadruples emitted for a condition relate to its skeleton and its chains,
//! and what filling and joining the lists makes of them.

use crate::quad::{
    follows, is_list, is_path, lemma_merged_path, lemma_nodes, lemma_path_frame, link, merged,
    nodes, patch, Operand, QuadView, QUAD_ID_OFFSET,
};
use crate::scheme::{chains_apart, chains_within, head_of, jump_to, threaded};
use vstd::prelude::*;

verus! {

/// The quadruple `a` is the quadruple `b` of a skeleton, but for its result
/// where that is still open.
pub open spec fn agrees(a: QuadView, b: QuadView, open_result: bool) -> bool {
    &&& a.op == b.op
    &&& a.arg1 == b.arg1
    &&& a.arg2 == b.arg2
    &&& !open_result ==> a.result == b.result
}

/// The last jump of the chain has the link 0.
pub open spec fn zero_ended(q: Seq<QuadView>, c: Seq<int>) -> bool {
    c.len() > 0 ==> link(q, c.last()) == 0
}

/// The program `q` is the program `before` followed by the quadruples of the
/// skeleton `code`, with two patch lists threaded through them: the result
/// of each jump on `on_true` or `on_false` links to the next jump of its
/// chain, and to 0 at the end of the chain.
#[verifier::opaque]
pub open spec fn block_pending(
    q: Seq<QuadView>,
    before: Seq<QuadView>,
    code: Seq<QuadView>,
    on_true: Seq<int>,
    on_false: Seq<int>,
) -> bool {
    let start = QUAD_ID_OFFSET + before.len();
    &&& q.len() == before.len() + code.len()
    &&& forall|i: int| 0 <= i < before.len() ==> #[trigger] q[i] == before[i]
    &&& is_path(q, head_of(on_true), on_true)
    &&& is_path(q, head_of(on_false), on_false)
    &&& zero_ended(q, on_true)
    &&& zero_ended(q, on_false)
    &&& forall|i: int|
        0 <= i < code.len() ==> agrees(
            q[before.len() + i],
            #[trigger] code[i],
            on_true.contains(start + i) || on_false.contains(start + i),
        )
}

/// A program that ends in the very quadruples of a skeleton is that skeleton
/// with its lists open, as soon as the two chains are patch lists of it.
pub proof fn lemma_block_exact(
    before: Seq<QuadView>,
    code: Seq<QuadView>,
    on_true: Seq<int>,
    on_false: Seq<int>,
)
    requires
        is_path(before + code, head_of(on_true), on_true),
        is_path(before + code, head_of(on_false), on_false),
        zero_ended(before + code, on_true),
        zero_ended(before + code, on_false),
    ensures
        block_pending(before + code, before, code, on_true, on_false),
{
    reveal(block_pending);
}

/// With no list open, the program is the one before followed by the code.
pub proof fn lemma_block_plain(q: Seq<QuadView>, before: Seq<QuadView>, code: Seq<QuadView>)
    requires
        block_pending(q, before, code, Seq::empty(), Seq::empty()),
    ensures
        q == before + code,
{
    reveal(block_pending);
    assert forall|i: int| 0 <= i < q.len() implies q[i] == (before + code)[i] by {
        if i >= before.len() {
            let j = i - before.len();
            assert(agrees(q[before.len() + j], code[j], false));
        }
    }
    assert(q =~= before + code);
}

/// It does not matter which of the two open lists is named first.
pub proof fn lemma_block_swap(
    q: Seq<QuadView>,
    before: Seq<QuadView>,
    code: Seq<QuadView>,
    on_true: Seq<int>,
    on_false: Seq<int>,
)
    requires
        block_pending(q, before, code, on_true, on_false),
    ensures
        block_pending(q, before, code, on_false, on_true),
{
    reveal(block_pending);
    let start = QUAD_ID_OFFSET + before.len();
    assert forall|i: int| 0 <= i < code.len() implies agrees(
        q[before.len() + i],
        #[trigger] code[i],
        on_false.contains(start + i) || on_true.contains(start + i),
    ) by {
        assert(agrees(
            q[before.len() + i],
            code[i],
            on_true.contains(start + i) || on_false.contains(start + i),
        ));
    }
}

/// What the block says about lengths.
pub proof fn lemma_block_len(
    q: Seq<QuadView>,
    before: Seq<QuadView>,
    code: Seq<QuadView>,
    on_true: Seq<int>,
    on_false: Seq<int>,
)
    requires
        block_pending(q, before, code, on_true, on_false),
    ensures
        q.len() == before.len() + code.len(),
        is_list(q, head_of(on_true)),
        is_list(q, head_of(on_false)),
        nodes(q, head_of(on_true)) == on_true,
        nodes(q, head_of(on_false)) == on_false,
{
    reveal(block_pending);
    lemma_nodes(q, head_of(on_true), on_true);
    lemma_nodes(q, head_of(on_false), on_false);
}

/// An address is on the concatenation of two chains exactly when it is on
/// one of them.
pub proof fn lemma_contains_concat(a: Seq<int>, b: Seq<int>)
    ensures
        forall|x: int| #[trigger] (a + b).contains(x) <==> a.contains(x) || b.contains(x),
{
    assert forall|x: int| #[trigger] (a + b).contains(x) <==> a.contains(x) || b.contains(x) by {
        let c = a + b;
        if a.contains(x) {
            let j = choose|j: int| 0 <= j < a.len() && #[trigger] a[j] == x;
            assert(c[j] == x);
        }
        if b.contains(x) {
            let j = choose|j: int| 0 <= j < b.len() && #[trigger] b[j] == x;
            assert(c[a.len() + j] == x);
        }
        if c.contains(x) {
            let j = choose|j: int| 0 <= j < c.len() && #[trigger] c[j] == x;
            if j < a.len() {
                assert(a[j] == x);
            } else {
                assert(b[j - a.len()] == x);
            }
        }
    }
}

/// The step that `and` and `or` share. The code of the left operand has led
/// from `q0` to `q1`, that of the right one from `q1` to `q2`. The list `a1` of the
/// left operand is resolved to the start of the right operand, and its other
/// list `b1` is joined with the list `b2` of the right operand. The result is
/// the code of the whole, with the lists `a2` and `b2` followed by `b1` open.
pub proof fn lemma_short_circuit(
    q0: Seq<QuadView>,
    q1: Seq<QuadView>,
    q2: Seq<QuadView>,
    left: Seq<QuadView>,
    right: Seq<QuadView>,
    a1: Seq<int>,
    b1: Seq<int>,
    a2: Seq<int>,
    b2: Seq<int>,
)
    requires
        block_pending(q1, q0, left, a1, b1),
        block_pending(q2, q1, right, a2, b2),
        chains_within(QUAD_ID_OFFSET + q0.len(), left.len(), true, a1, b1),
        chains_within(QUAD_ID_OFFSET + q1.len(), right.len(), true, a2, b2),
    ensures
        q1.len() == q0.len() + left.len(),
        q2.len() == q1.len() + right.len(),
        QUAD_ID_OFFSET <= head_of(a1) < QUAD_ID_OFFSET + q1.len(),
        QUAD_ID_OFFSET <= head_of(b1) < QUAD_ID_OFFSET + q1.len(),
        QUAD_ID_OFFSET <= head_of(a2) < QUAD_ID_OFFSET + q2.len(),
        QUAD_ID_OFFSET <= head_of(b2) < QUAD_ID_OFFSET + q2.len(),
        head_of(b2 + b1) == head_of(b2),
        is_list(q2, head_of(a1)),
        nodes(q2, head_of(a1)) == a1,
        is_list(patch(q2, QUAD_ID_OFFSET as int, a1, QUAD_ID_OFFSET + q1.len()), head_of(b2)),
        block_pending(
            merged(
                patch(q2, QUAD_ID_OFFSET as int, a1, QUAD_ID_OFFSET + q1.len()),
                head_of(b1),
                head_of(b2),
            ),
            q0,
            patch(left, QUAD_ID_OFFSET + q0.len(), a1, QUAD_ID_OFFSET + q1.len()) + right,
            a2,
            b2 + b1,
        ),
{
    reveal(block_pending);
    let base = QUAD_ID_OFFSET as int;
    let n0 = q0.len() as int;
    let start = base + n0;
    let mid = base + q1.len();
    let q3 = patch(q2, base, a1, mid);
    let q4 = merged(q3, head_of(b1), head_of(b2));
    let code = patch(left, start, a1, mid) + right;
    let c = b2 + b1;

    // The lists of the left operand are what they were after the right
    // operand has been emitted.
    lemma_path_frame(q1, q2, head_of(a1), a1);
    lemma_path_frame(q1, q2, head_of(b1), b1);
    lemma_nodes(q2, head_of(a1), a1);
    // Filling `a1` leaves the three other lists alone.
    lemma_path_frame(q2, q3, head_of(b1), b1);
    lemma_path_frame(q2, q3, head_of(a2), a2);
    lemma_path_frame(q2, q3, head_of(b2), b2);
    lemma_nodes(q3, head_of(b2), b2);
    // Joining `b1` and `b2`.
    assert(follows(q3, b2, 0));
    assert(follows(q3, b2, b2.len() - 1));
    assert(follows(q3, a2, a2.len() - 1));
    assert(follows(q3, b1, b1.len() - 1));
    lemma_merged_path(q3, head_of(b1), head_of(b2), b1, b2);
    lemma_path_frame(q3, q4, head_of(a2), a2);
    lemma_contains_concat(b2, b1);
    let tail = b2.last() - base;
    assert(q4 == q3.update(tail, QuadView { result: Operand::Num(head_of(b1)), ..q3[tail] }));
    assert(c.last() == b1.last());
    assert(head_of(c) == head_of(b2));
    assert forall|i: int| 0 <= i < code.len() implies agrees(
        q4[n0 + i],
        #[trigger] code[i],
        a2.contains(start + i) || c.contains(start + i),
    ) by {
        if i < left.len() {
            assert(agrees(q1[n0 + i], left[i], a1.contains(start + i) || b1.contains(start + i)));
            assert(q2[n0 + i] == q1[n0 + i]);
        } else {
            let j = i - left.len();
            assert(agrees(
                q2[q1.len() + j],
                right[j],
                a2.contains(mid + j) || b2.contains(mid + j),
            ));
        }
    }
    assert forall|i: int| 0 <= i < q0.len() implies #[trigger] q4[i] == q0[i] by {
        assert(q2[i] == q1[i]);
        assert(q1[i] == q0[i]);
    }
}

/// Filling one of the two open lists, whatever has been emitted after the
/// block in the meantime: the jumps on the list get the target, the rest of
/// the program stays, and the block has one list less open.
pub proof fn lemma_fill_in_context(
    q1: Seq<QuadView>,
    rest: Seq<QuadView>,
    q0: Seq<QuadView>,
    code: Seq<QuadView>,
    filled: Seq<int>,
    other: Seq<int>,
    target: int,
)
    requires
        block_pending(q1, q0, code, filled, other),
        chains_apart(QUAD_ID_OFFSET + q0.len(), code.len(), filled, other),
    ensures
        is_list(q1 + rest, head_of(filled)),
        nodes(q1 + rest, head_of(filled)) == filled,
        patch(q1 + rest, QUAD_ID_OFFSET as int, filled, target) == patch(
            q1,
            QUAD_ID_OFFSET as int,
            filled,
            target,
        ) + rest,
        block_pending(
            patch(q1, QUAD_ID_OFFSET as int, filled, target),
            q0,
            patch(code, QUAD_ID_OFFSET + q0.len(), filled, target),
            Seq::empty(),
            other,
        ),
{
    reveal(block_pending);
    let base = QUAD_ID_OFFSET as int;
    let start = base + q0.len();
    let q = q1 + rest;
    let p1 = patch(q1, base, filled, target);
    lemma_path_frame(q1, q, head_of(filled), filled);
    lemma_nodes(q, head_of(filled), filled);
    assert(patch(q, base, filled, target) =~= p1 + rest);
    lemma_path_frame(q1, p1, head_of(other), other);
    if other.len() > 0 {
        assert(follows(q1, other, other.len() - 1));
    }
    assert forall|i: int| 0 <= i < code.len() implies agrees(
        p1[q0.len() + i],
        #[trigger] patch(code, start, filled, target)[i],
        Seq::<int>::empty().contains(start + i) || other.contains(start + i),
    ) by {
        assert(agrees(
            q1[q0.len() + i],
            code[i],
            filled.contains(start + i) || other.contains(start + i),
        ));
    }
}

/// Filling both open lists of a block leaves its code with both targets in
/// place.
pub proof fn lemma_fill_both(
    q1: Seq<QuadView>,
    q0: Seq<QuadView>,
    code: Seq<QuadView>,
    on_true: Seq<int>,
    on_false: Seq<int>,
    to_true: int,
    to_false: int,
)
    requires
        block_pending(q1, q0, code, on_true, on_false),
        chains_apart(QUAD_ID_OFFSET + q0.len(), code.len(), on_true, on_false),
    ensures
        patch(
            patch(q1, QUAD_ID_OFFSET as int, on_true, to_true),
            QUAD_ID_OFFSET as int,
            on_false,
            to_false,
        ) == q0 + patch(
            patch(code, QUAD_ID_OFFSET + q0.len(), on_true, to_true),
            QUAD_ID_OFFSET + q0.len(),
            on_false,
            to_false,
        ),
{
    let base = QUAD_ID_OFFSET as int;
    let start = base + q0.len();
    let none = Seq::<int>::empty();
    let p1 = patch(q1, base, on_true, to_true);
    let c1 = patch(code, start, on_true, to_true);
    lemma_fill_in_context(q1, Seq::empty(), q0, code, on_true, on_false, to_true);
    lemma_block_swap(p1, q0, c1, none, on_false);
    lemma_fill_in_context(p1, Seq::empty(), q0, c1, on_false, none, to_false);
    lemma_block_plain(patch(p1, base, on_false, to_false), q0, patch(c1, start, on_false, to_false));
}

/// A jump that is emitted with the head of a list as its result stands at
/// the front of that list. Filling from the jump resolves the jump and the
/// list.
pub proof fn lemma_fill_with_jump(
    q2: Seq<QuadView>,
    body: Seq<QuadView>,
    q0: Seq<QuadView>,
    code: Seq<QuadView>,
    c: Seq<int>,
    target: int,
)
    requires
        block_pending(q2, q0, code, Seq::empty(), c),
        chains_apart(QUAD_ID_OFFSET + q0.len(), code.len(), Seq::empty(), c),
    ensures
        is_list(q2 + body + seq![jump_to(head_of(c))], QUAD_ID_OFFSET + q2.len() + body.len()),
        patch(
            q2 + body + seq![jump_to(head_of(c))],
            QUAD_ID_OFFSET as int,
            nodes(q2 + body + seq![jump_to(head_of(c))], QUAD_ID_OFFSET + q2.len() + body.len()),
            target,
        ) == q0 + patch(code, QUAD_ID_OFFSET + q0.len(), c, target) + body + seq![jump_to(target)],
{
    let base = QUAD_ID_OFFSET as int;
    let start = base + q0.len();
    let none = Seq::<int>::empty();
    let next = base + q2.len() + body.len();
    let q4 = q2 + body + seq![jump_to(head_of(c))];
    let whole = seq![next] + c;
    lemma_block_swap(q2, q0, code, none, c);
    lemma_fill_in_context(q2, body + seq![jump_to(head_of(c))], q0, code, c, none, target);
    assert(q2 + (body + seq![jump_to(head_of(c))]) =~= q4);
    lemma_block_plain(patch(q2, base, c, target), q0, patch(code, start, c, target));
    assert(is_path(q4, next, whole)) by {
        reveal(block_pending);
        assert(whole.no_duplicates()) by {
            assert forall|i: int, j: int|
                0 <= i < whole.len() && 0 <= j < whole.len() && i != j implies whole[i]
                != whole[j] by {
                if i > 0 {
                    assert(whole[i] == c[i - 1]);
                }
                if j > 0 {
                    assert(whole[j] == c[j - 1]);
                }
            }
        }
        assert forall|k: int| 0 <= k < whole.len() implies #[trigger] follows(q4, whole, k) by {
            if k > 0 {
                assert(follows(q2, c, k - 1));
                assert(whole[k] == c[k - 1]);
                if k + 1 < whole.len() {
                    assert(whole[k + 1] == c[k]);
                }
            } else {
                if c.len() > 0 {
                    assert(whole[1] == c[0]);
                }
            }
        }
    }
    lemma_nodes(q4, next, whole);
    lemma_contains_concat(seq![next], c);
    assert(seq![next][0] == next);
    assert(patch(q4, base, whole, target) =~= patch(q2, base, c, target) + body + seq![
        jump_to(target),
    ]);
}

/// A jump that was emitted with result 0 is a list of its own. Filling it
/// changes that jump only.
pub proof fn lemma_fill_single(pre: Seq<QuadView>, post: Seq<QuadView>, target: int)
    ensures
        is_list(pre + seq![jump_to(0)] + post, QUAD_ID_OFFSET + pre.len()),
        patch(
            pre + seq![jump_to(0)] + post,
            QUAD_ID_OFFSET as int,
            nodes(pre + seq![jump_to(0)] + post, QUAD_ID_OFFSET + pre.len()),
            target,
        ) == pre + seq![jump_to(target)] + post,
{
    let base = QUAD_ID_OFFSET as int;
    let next = base + pre.len();
    let q = pre + seq![jump_to(0)] + post;
    let c = seq![next];
    assert(follows(q, c, 0));
    assert(is_path(q, next, c));
    lemma_nodes(q, next, c);
    assert(c[0] == next);
    assert(patch(q, base, c, target) =~= pre + seq![jump_to(target)] + post);
}

/// The index of an address on a chain without repetition.
pub proof fn lemma_index_of(c: Seq<int>, k: int)
    requires
        c.no_duplicates(),
        0 <= k < c.len(),
    ensures
        c.contains(c[k]),
        c.index_of(c[k]) == k,
{
    let j = c.index_of(c[k]);
    assert(c[k] == c[k]);
    assert(0 <= j < c.len() && c[j] == c[k]);
}

/// A block with its lists open is its code with both chains threaded
/// through it.
pub proof fn lemma_block_threaded(
    q: Seq<QuadView>,
    q0: Seq<QuadView>,
    code: Seq<QuadView>,
    on_true: Seq<int>,
    on_false: Seq<int>,
)
    requires
        block_pending(q, q0, code, on_true, on_false),
        chains_apart(QUAD_ID_OFFSET + q0.len(), code.len(), on_true, on_false),
    ensures
        q == q0 + threaded(
            threaded(code, QUAD_ID_OFFSET + q0.len(), on_true),
            QUAD_ID_OFFSET + q0.len(),
            on_false,
        ),
{
    reveal(block_pending);
    let start = QUAD_ID_OFFSET + q0.len();
    let want = q0 + threaded(threaded(code, start, on_true), start, on_false);
    assert forall|i: int| 0 <= i < q.len() implies q[i] == want[i] by {
        if i >= q0.len() {
            let j = i - q0.len();
            let a = start + j;
            assert(agrees(q[q0.len() + j], code[j], on_true.contains(a) || on_false.contains(a)));
            if on_true.contains(a) {
                let k = on_true.index_of(a);
                lemma_index_of(on_true, k);
                assert(follows(q, on_true, k));
                assert(!on_false.contains(a));
            } else if on_false.contains(a) {
                let k = on_false.index_of(a);
                lemma_index_of(on_false, k);
                assert(follows(q, on_false, k));
            }
        }
    }
    assert(q =~= want);
}

} // verus!
