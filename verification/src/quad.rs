//! Quadruples, the program under construction, and patch lists.
//!
//! A patch list is a chain of jumps whose target is not known yet. It is
//! threaded through the `result` fields of the quadruples themselves: the
//! field of each jump on the list holds the address of the next one, and
//! the last holds a value below `QUAD_ID_OFFSET`. The list is named by the
//! address of its first jump; any value below `QUAD_ID_OFFSET` names the
//! empty list.

use crate::symbols::SymbolTable;
use crate::text::{decimal, lemma_decimal_injective, push_decimal};
use vstd::prelude::*;

verus! {

/// The address of the first quadruple of a program. Addresses below it never
/// name a quadruple.
pub const QUAD_ID_OFFSET: usize = 100;

/// The operator of a quadruple.
#[derive(Debug, Clone, Copy, PartialEq, Eq, Structural)]
pub enum Operator {
    /// Jump if the first argument is greater than the second.
    JumpGreater,
    /// Jump if the two arguments are equal.
    JumpEqual,
    /// Jump if the first argument is less than the second.
    JumpLess,
    /// Jump.
    Jump,
    /// Store the first argument.
    Assign,
    Add,
    Sub,
    Mul,
}

impl Operator {
    /// How the operator is written in a listing.
    pub open spec fn mnemonic(self) -> Seq<char> {
        match self {
            Operator::JumpGreater => "j>"@,
            Operator::JumpEqual => "j="@,
            Operator::JumpLess => "j<"@,
            Operator::Jump => "j"@,
            Operator::Assign => ":="@,
            Operator::Add => "+"@,
            Operator::Sub => "-"@,
            Operator::Mul => "*"@,
        }
    }

    /// How the operator is written in a listing.
    pub fn symbol(&self) -> (s: &'static str)
        ensures
            s@ == self.mnemonic(),
    {
        match self {
            Operator::JumpGreater => "j>",
            Operator::JumpEqual => "j=",
            Operator::JumpLess => "j<",
            Operator::Jump => "j",
            Operator::Assign => ":=",
            Operator::Add => "+",
            Operator::Sub => "-",
            Operator::Mul => "*",
        }
    }
}

/// One field of a quadruple, or the value of an expression.
#[derive(Debug, PartialEq, Eq)]
pub enum QuadItem {
    /// Nothing.
    Empty,
    /// A number: a literal, an address, or a link of a patch list.
    Num(u32),
    /// A declared name or a temporary.
    Id(String),
    /// The true list and the false list of a condition.
    TFList(usize, usize),
}

/// What a `QuadItem` stands for.
pub enum Operand {
    Empty,
    Num(int),
    Id(Seq<char>),
    TFList(int, int),
}

impl View for QuadItem {
    type V = Operand;

    open spec fn view(&self) -> Operand {
        match self {
            QuadItem::Empty => Operand::Empty,
            QuadItem::Num(n) => Operand::Num(*n as int),
            QuadItem::Id(name) => Operand::Id(name@),
            QuadItem::TFList(t, f) => Operand::TFList(*t as int, *f as int),
        }
    }
}

impl Clone for QuadItem {
    fn clone(&self) -> (copy: QuadItem)
        ensures
            copy@ == self@,
    {
        match self {
            QuadItem::Empty => QuadItem::Empty,
            QuadItem::Num(n) => QuadItem::Num(*n),
            QuadItem::Id(name) => QuadItem::Id(name.clone()),
            QuadItem::TFList(t, f) => QuadItem::TFList(*t, *f),
        }
    }
}

impl From<u32> for QuadItem {
    fn from(value: u32) -> (item: QuadItem) {
        QuadItem::Num(value)
    }
}

impl vstd::std_specs::convert::FromSpecImpl<u32> for QuadItem {
    open spec fn obeys_from_spec() -> bool {
        true
    }

    open spec fn from_spec(v: u32) -> QuadItem {
        QuadItem::Num(v)
    }
}

impl From<usize> for QuadItem {
    /// An address as a number. Of an address that does not fit 32 bits the
    /// low 32 bits are kept.
    fn from(value: usize) -> (item: QuadItem) {
        QuadItem::Num(((value as u64) % 0x1_0000_0000u64) as u32)
    }
}

impl vstd::std_specs::convert::FromSpecImpl<usize> for QuadItem {
    open spec fn obeys_from_spec() -> bool {
        true
    }

    open spec fn from_spec(v: usize) -> QuadItem {
        QuadItem::Num((v as int % 0x1_0000_0000) as u32)
    }
}

impl From<String> for QuadItem {
    fn from(value: String) -> (item: QuadItem) {
        QuadItem::Id(value)
    }
}

impl vstd::std_specs::convert::FromSpecImpl<String> for QuadItem {
    open spec fn obeys_from_spec() -> bool {
        true
    }

    open spec fn from_spec(v: String) -> QuadItem {
        QuadItem::Id(v)
    }
}

impl From<()> for QuadItem {
    fn from(_value: ()) -> (item: QuadItem) {
        QuadItem::Empty
    }
}

impl vstd::std_specs::convert::FromSpecImpl<()> for QuadItem {
    open spec fn obeys_from_spec() -> bool {
        true
    }

    open spec fn from_spec(v: ()) -> QuadItem {
        QuadItem::Empty
    }
}

impl QuadItem {
    /// The two lists that the item holds.
    pub fn to_lists(&self) -> (lists: (usize, usize))
        requires
            self is TFList,
        ensures
            self@ == Operand::TFList(lists.0 as int, lists.1 as int),
    {
        match self {
            QuadItem::TFList(t, f) => (*t, *f),
            _ => (0, 0),
        }
    }

    /// The number that the item holds.
    pub fn to_num(&self) -> (n: u32)
        requires
            self is Num,
        ensures
            self@ == Operand::Num(n as int),
    {
        match self {
            QuadItem::Num(x) => *x,
            _ => 0,
        }
    }
}

/// One instruction: an operator, two arguments and a result.
#[derive(Debug, PartialEq, Eq)]
pub struct Quad {
    pub op: Operator,
    pub arg1: QuadItem,
    pub arg2: QuadItem,
    pub result: QuadItem,
}

/// What a `Quad` stands for.
pub struct QuadView {
    pub op: Operator,
    pub arg1: Operand,
    pub arg2: Operand,
    pub result: Operand,
}

impl View for Quad {
    type V = QuadView;

    open spec fn view(&self) -> QuadView {
        QuadView { op: self.op, arg1: self.arg1@, arg2: self.arg2@, result: self.result@ }
    }
}

/// The program that a vector of quadruples stands for.
pub open spec fn quads_view(quads: Seq<Quad>) -> Seq<QuadView> {
    Seq::new(quads.len(), |i: int| quads[i]@)
}

/// The name of the temporary with number `id`.
pub open spec fn temp_name(id: nat) -> Seq<char> {
    seq!['$'] + decimal(id)
}

/// No two temporaries have the same name.
pub proof fn lemma_temp_names_distinct(a: nat, b: nat)
    requires
        temp_name(a) == temp_name(b),
    ensures
        a == b,
{
    let x = seq!['$'] + decimal(a);
    let y = seq!['$'] + decimal(b);
    assert(x.subrange(1, x.len() as int) =~= decimal(a));
    assert(y.subrange(1, y.len() as int) =~= decimal(b));
    lemma_decimal_injective(a, b);
}

/// `addr` is the address of a quadruple of `q` whose result is a number.
pub open spec fn is_node(q: Seq<QuadView>, addr: int) -> bool {
    QUAD_ID_OFFSET <= addr < QUAD_ID_OFFSET + q.len() && q[addr - QUAD_ID_OFFSET].result is Num
}

/// The number in the result field of the quadruple at `addr`.
pub open spec fn link(q: Seq<QuadView>, addr: int) -> int {
    q[addr - QUAD_ID_OFFSET].result->Num_0
}

/// The jump at `c[k]` is followed on the list by `c[k + 1]`, or ends the list
/// where it is the last of `c`.
pub open spec fn follows(q: Seq<QuadView>, c: Seq<int>, k: int) -> bool {
    &&& is_node(q, c[k])
    &&& if k + 1 < c.len() {
        link(q, c[k]) == c[k + 1]
    } else {
        link(q, c[k]) < QUAD_ID_OFFSET
    }
}

/// `c` holds, in order, the addresses of the patch list that `head` names.
pub open spec fn is_path(q: Seq<QuadView>, head: int, c: Seq<int>) -> bool {
    &&& c.no_duplicates()
    &&& if c.len() == 0 {
        head < QUAD_ID_OFFSET
    } else {
        c[0] == head
    }
    &&& forall|k: int| 0 <= k < c.len() ==> #[trigger] follows(q, c, k)
}

/// `head` names a patch list of `q`: following the links from it ends after
/// finitely many jumps.
pub open spec fn is_list(q: Seq<QuadView>, head: int) -> bool {
    exists|c: Seq<int>| is_path(q, head, c)
}

/// The addresses of the patch list that `head` names, in order.
pub open spec fn nodes(q: Seq<QuadView>, head: int) -> Seq<int> {
    choose|c: Seq<int>| is_path(q, head, c)
}

/// The program `q`, whose first quadruple has address `base`, with `target`
/// as the result of every quadruple whose address is among `addrs`.
pub open spec fn patch(q: Seq<QuadView>, base: int, addrs: Seq<int>, target: int) -> Seq<
    QuadView,
> {
    Seq::new(
        q.len(),
        |i: int|
            if addrs.contains(base + i) {
                QuadView { result: Operand::Num(target), ..q[i] }
            } else {
                q[i]
            },
    )
}

/// A patch list has one sequence of addresses only.
pub proof fn lemma_path_unique(q: Seq<QuadView>, head: int, c1: Seq<int>, c2: Seq<int>)
    requires
        is_path(q, head, c1),
        is_path(q, head, c2),
    ensures
        c1 == c2,
    decreases c1.len(),
{
    if c1.len() == 0 {
        if c2.len() > 0 {
            assert(follows(q, c2, 0));
        }
        assert(c1 =~= c2);
    } else {
        assert(follows(q, c1, 0));
        if c2.len() == 0 {
            assert(false);
        }
        assert(follows(q, c2, 0));
        let d1 = c1.subrange(1, c1.len() as int);
        let d2 = c2.subrange(1, c2.len() as int);
        lemma_path_rest(q, head, c1);
        lemma_path_rest(q, head, c2);
        lemma_path_unique(q, link(q, head), d1, d2);
        assert(c1 =~= seq![head] + d1);
        assert(c2 =~= seq![head] + d2);
    }
}

/// What follows the first jump of a patch list is the list that its link names.
pub proof fn lemma_path_rest(q: Seq<QuadView>, head: int, c: Seq<int>)
    requires
        is_path(q, head, c),
        c.len() > 0,
    ensures
        is_path(q, link(q, head), c.subrange(1, c.len() as int)),
{
    let d = c.subrange(1, c.len() as int);
    assert(follows(q, c, 0));
    assert forall|k: int| 0 <= k < d.len() implies #[trigger] follows(q, d, k) by {
        assert(follows(q, c, k + 1));
    }
    assert(d.no_duplicates()) by {
        assert forall|i: int, j: int| 0 <= i < d.len() && 0 <= j < d.len() && i != j implies d[i]
            != d[j] by {
            assert(c[i + 1] != c[j + 1]);
        }
    }
}

/// A patch list is the list of its own addresses.
pub proof fn lemma_nodes(q: Seq<QuadView>, head: int, c: Seq<int>)
    requires
        is_path(q, head, c),
    ensures
        is_list(q, head),
        nodes(q, head) == c,
{
    lemma_path_unique(q, head, nodes(q, head), c);
}

/// The list that `merge_list` returns for the lists `head1` and `head2`.
pub open spec fn merged_head(head1: int, head2: int) -> int {
    if head2 < QUAD_ID_OFFSET {
        head1
    } else {
        head2
    }
}

/// The program after `merge_list` has joined the lists `head1` and `head2`
/// of `q`: the last jump of the second list links to the first list.
pub open spec fn merged(q: Seq<QuadView>, head1: int, head2: int) -> Seq<QuadView> {
    if head2 < QUAD_ID_OFFSET {
        q
    } else {
        let tail = nodes(q, head2).last() - QUAD_ID_OFFSET;
        q.update(tail, QuadView { result: Operand::Num(head1), ..q[tail] })
    }
}

/// No address is on both sequences.
pub open spec fn disjoint(a: Seq<int>, b: Seq<int>) -> bool {
    forall|i: int, j: int| 0 <= i < a.len() && 0 <= j < b.len() ==> a[i] != b[j]
}

/// A patch list stays what it is in a program that keeps the result fields
/// of its jumps.
pub proof fn lemma_path_frame(q: Seq<QuadView>, q2: Seq<QuadView>, head: int, c: Seq<int>)
    requires
        is_path(q, head, c),
        q2.len() >= q.len(),
        forall|k: int|
            0 <= k < c.len() ==> q2[#[trigger] c[k] - QUAD_ID_OFFSET].result == q[c[k]
                - QUAD_ID_OFFSET].result,
    ensures
        is_path(q2, head, c),
{
    assert forall|k: int| 0 <= k < c.len() implies #[trigger] follows(q2, c, k) by {
        assert(follows(q, c, k));
    }
}

/// Joining two lists that share no jump gives the list of the second
/// followed by the first.
pub proof fn lemma_merged_path(
    q: Seq<QuadView>,
    head1: int,
    head2: int,
    c1: Seq<int>,
    c2: Seq<int>,
)
    requires
        is_path(q, head1, c1),
        is_path(q, head2, c2),
        disjoint(c1, c2),
    ensures
        is_path(merged(q, head1, head2), merged_head(head1, head2), c2 + c1),
{
    let m = merged(q, head1, head2);
    let c = c2 + c1;
    if c2.len() == 0 {
        assert(c =~= c1);
    } else {
        assert(follows(q, c2, 0));
        lemma_nodes(q, head2, c2);
        let last = c2.len() - 1;
        let tail = c2[last] - QUAD_ID_OFFSET;
        assert(follows(q, c2, last));
        assert(c.no_duplicates()) by {
            assert forall|i: int, j: int| 0 <= i < c.len() && 0 <= j < c.len() && i != j implies c[i]
                != c[j] by {
                if i < c2.len() && j < c2.len() {
                    assert(c2[i] != c2[j]);
                } else if i >= c2.len() && j >= c2.len() {
                    assert(c1[i - c2.len()] != c1[j - c2.len()]);
                } else if i < c2.len() {
                    assert(c1[j - c2.len()] != c2[i]);
                } else {
                    assert(c1[i - c2.len()] != c2[j]);
                }
            }
        }
        assert forall|k: int| 0 <= k < c.len() implies #[trigger] follows(m, c, k) by {
            if k < last {
                assert(follows(q, c2, k));
                assert(c2[k] != c2[last]);
            } else if k == last {
                if c1.len() > 0 {
                    assert(c[k + 1] == c1[0]);
                }
            } else {
                let j = k - c2.len();
                assert(follows(q, c1, j));
                assert(c1[j] != c2[last]);
                if j + 1 < c1.len() {
                    assert(c[k + 1] == c1[j + 1]);
                }
            }
        }
    }
}

/// Joining two patch lists that share no jump gives one list: the jumps of
/// the second followed by those of the first. Resolving the joined list to
/// `target` gives every jump of either list the result `target` and changes
/// nothing else. Joining with the empty list as the second changes nothing.
pub proof fn lemma_merge_then_fill(q: Seq<QuadView>, head1: int, head2: int, target: int)
    requires
        is_list(q, head1),
        is_list(q, head2),
        disjoint(nodes(q, head1), nodes(q, head2)),
    ensures
        head2 < QUAD_ID_OFFSET ==> merged_head(head1, head2) == head1 && merged(q, head1, head2)
            == q,
        is_list(merged(q, head1, head2), merged_head(head1, head2)),
        nodes(merged(q, head1, head2), merged_head(head1, head2)) == nodes(q, head2) + nodes(
            q,
            head1,
        ),
        patch(
            merged(q, head1, head2),
            QUAD_ID_OFFSET as int,
            nodes(merged(q, head1, head2), merged_head(head1, head2)),
            target,
        ) == patch(q, QUAD_ID_OFFSET as int, nodes(q, head2) + nodes(q, head1), target),
        forall|i: int|
            0 <= i < q.len() ==> #[trigger] patch(
                q,
                QUAD_ID_OFFSET as int,
                nodes(q, head2) + nodes(q, head1),
                target,
            )[i] == if nodes(q, head1).contains(QUAD_ID_OFFSET + i) || nodes(q, head2).contains(
                QUAD_ID_OFFSET + i,
            ) {
                QuadView { result: Operand::Num(target), ..q[i] }
            } else {
                q[i]
            },
{
    let c1 = nodes(q, head1);
    let c2 = nodes(q, head2);
    let m = merged(q, head1, head2);
    let c = c2 + c1;
    lemma_merged_path(q, head1, head2, c1, c2);
    lemma_nodes(m, merged_head(head1, head2), c);
    let left = patch(m, QUAD_ID_OFFSET as int, c, target);
    let right = patch(q, QUAD_ID_OFFSET as int, c, target);
    if c2.len() > 0 {
        let last = c2.len() - 1;
        assert(follows(q, c2, 0));
        assert(follows(q, c2, last));
        assert(c[last] == c2[last]);
        assert(c.contains(c2[last]));
    }
    assert(left =~= right);
    assert forall|i: int| 0 <= i < q.len() implies #[trigger] right[i] == if c1.contains(
        QUAD_ID_OFFSET + i,
    ) || c2.contains(QUAD_ID_OFFSET + i) {
        QuadView { result: Operand::Num(target), ..q[i] }
    } else {
        q[i]
    } by {
        let a = QUAD_ID_OFFSET + i;
        if c1.contains(a) {
            let j = choose|j: int| 0 <= j < c1.len() && #[trigger] c1[j] == a;
            assert(c[c2.len() + j] == a);
        }
        if c2.contains(a) {
            let j = choose|j: int| 0 <= j < c2.len() && #[trigger] c2[j] == a;
            assert(c[j] == a);
        }
        if c.contains(a) {
            let j = choose|j: int| 0 <= j < c.len() && #[trigger] c[j] == a;
            if j < c2.len() {
                assert(c2[j] == a);
            } else {
                assert(c1[j - c2.len()] == a);
            }
        }
    }
}

/// The state of one translation: the symbol table, the quadruples emitted
/// so far, and the number of the next temporary.
#[derive(Debug)]
pub struct State {
    pub sym_table: SymbolTable,
    pub quads: Vec<Quad>,
    pub tmp_var_id: usize,
}

impl Default for State {
    fn default() -> (state: State)
        ensures
            state.program() == Seq::<QuadView>::empty(),
            state.quads@.len() == 0,
            state.sym_table@ == Seq::<(Seq<char>, crate::ast::Type)>::empty(),
            state.sym_table.wf(),
            state.tmp_var_id == 0,
    {
        let state = State { sym_table: SymbolTable::new(), quads: Vec::new(), tmp_var_id: 0 };
        assert(state.program() =~= Seq::<QuadView>::empty());
        state
    }
}

impl State {
    /// The program emitted so far.
    pub open spec fn program(&self) -> Seq<QuadView> {
        quads_view(self.quads@)
    }

    /// There is room for `n` more quadruples and `n` more temporaries: every
    /// address up to the one after the last still fits a result field.
    pub open spec fn has_room(&self, n: nat) -> bool {
        &&& self.quads@.len() + n + QUAD_ID_OFFSET <= u32::MAX
        &&& self.tmp_var_id + n <= usize::MAX
    }

    /// A fresh temporary: its name is `$` and the decimal numeral of a counter
    /// that only grows, so no two calls give the same name.
    pub fn request_tmp_var(&mut self) -> (tmp: QuadItem)
        requires
            old(self).tmp_var_id < usize::MAX,
        ensures
            tmp@ == Operand::Id(temp_name(old(self).tmp_var_id as nat)),
            final(self).tmp_var_id == old(self).tmp_var_id + 1,
            final(self).quads == old(self).quads,
            final(self).sym_table == old(self).sym_table,
    {
        let id: usize = self.tmp_var_id;
        self.tmp_var_id = id + 1;
        let mut name = String::new();
        name.push('$');
        push_decimal(&mut name, id as u64);
        assert(name@ =~= temp_name(id as nat));
        QuadItem::Id(name)
    }

    /// The address that the next quadruple will get.
    pub fn quad_id(&self) -> (addr: usize)
        requires
            self.quads@.len() + QUAD_ID_OFFSET <= usize::MAX,
        ensures
            addr == self.quads@.len() + QUAD_ID_OFFSET,
    {
        self.quads.len() + QUAD_ID_OFFSET
    }

    /// Appends one quadruple and returns its address.
    pub fn emit(&mut self, op: Operator, a: QuadItem, b: QuadItem, r: QuadItem) -> (addr: usize)
        requires
            old(self).quads@.len() + QUAD_ID_OFFSET <= usize::MAX,
        ensures
            addr == old(self).quads@.len() + QUAD_ID_OFFSET,
            final(self).quads@.len() == old(self).quads@.len() + 1,
            final(self).program() == old(self).program().push(
                QuadView { op, arg1: a@, arg2: b@, result: r@ },
            ),
            final(self).tmp_var_id == old(self).tmp_var_id,
            final(self).sym_table == old(self).sym_table,
    {
        let qid: usize = self.quad_id();
        self.quads.push(Quad { op, arg1: a, arg2: b, result: r });
        assert(self.program() =~= old(self).program().push(
            QuadView { op, arg1: a@, arg2: b@, result: r@ },
        ));
        qid
    }

    /// Resolves the patch list `head` to `value`: the result of every jump on
    /// the list becomes `value`, and nothing else changes. The empty list
    /// changes nothing.
    pub fn fill_list(&mut self, head: usize, value: u32)
        requires
            is_list(old(self).program(), head as int),
        ensures
            final(self).program() == patch(
                old(self).program(),
                QUAD_ID_OFFSET as int,
                nodes(old(self).program(), head as int),
                value as int,
            ),
            head < QUAD_ID_OFFSET ==> final(self).program() == old(self).program(),
            final(self).quads@.len() == old(self).quads@.len(),
            final(self).tmp_var_id == old(self).tmp_var_id,
            final(self).sym_table == old(self).sym_table,
    {
        let ghost q0 = self.program();
        let ghost c = nodes(q0, head as int);
        let ghost mut k: int = 0;
        let mut cur: usize = head;
        proof {
            if c.len() > 0 {
                assert(follows(q0, c, 0));
            }
            assert(self.program() =~= patch(q0, QUAD_ID_OFFSET as int, c.take(0), value as int));
        }
        while cur >= QUAD_ID_OFFSET
            invariant
                is_path(q0, head as int, c),
                0 <= k <= c.len(),
                k < c.len() ==> cur == c[k],
                k == c.len() ==> cur < QUAD_ID_OFFSET,
                self.quads@.len() == q0.len(),
                self.program() == patch(q0, QUAD_ID_OFFSET as int, c.take(k), value as int),
                self.tmp_var_id == old(self).tmp_var_id,
                self.sym_table == old(self).sym_table,
            decreases c.len() - k,
        {
            let idx: usize = cur - QUAD_ID_OFFSET;
            proof {
                assert(follows(q0, c, k));
                let done = c.take(k);
                assert(!done.contains(c[k])) by {
                    if done.contains(c[k]) {
                        let j = choose|j: int| 0 <= j < done.len() && #[trigger] done[j] == c[k];
                        assert(c[j] == c[k]);
                    }
                }
                assert(self.program()[idx as int] == q0[idx as int]);
                assert(self.quads@[idx as int]@ == self.program()[idx as int]);
            }
            let next: u32 = self.quads[idx].result.to_num();
            let ghost before = self.program();
            self.quads[idx].result = QuadItem::Num(value);
            proof {
                let done = c.take(k);
                let more = c.take(k + 1);
                let want = patch(q0, QUAD_ID_OFFSET as int, more, value as int);
                assert(more =~= done.push(c[k]));
                assert forall|i: int| 0 <= i < q0.len() implies self.program()[i] == want[i] by {
                    assert(self.program()[i] == if i == idx {
                        QuadView { result: Operand::Num(value as int), ..before[i] }
                    } else {
                        before[i]
                    });
                    let a = QUAD_ID_OFFSET + i;
                    if done.contains(a) {
                        let j = choose|j: int| 0 <= j < done.len() && #[trigger] done[j] == a;
                        assert(more[j] == a);
                    }
                    if more.contains(a) {
                        let j = choose|j: int| 0 <= j < more.len() && #[trigger] more[j] == a;
                        if j < k {
                            assert(done[j] == a);
                        }
                    }
                    if i == idx {
                        assert(more[k] == a);
                    }
                }
                assert(self.program() =~= want);
                if k + 1 < c.len() {
                    assert(follows(q0, c, k + 1));
                }
                k = k + 1;
            }
            cur = next as usize;
        }
        proof {
            if k < c.len() {
                assert(follows(q0, c, k));
            }
            assert(c.take(k) =~= c);
            if head < QUAD_ID_OFFSET {
                if c.len() > 0 {
                    assert(follows(q0, c, 0));
                }
                assert(self.program() =~= q0);
            }
        }
    }

    /// Joins two patch lists. Where the second is empty, the first is returned
    /// and nothing changes. Otherwise the last jump of the second gets the
    /// first as its link, and the second is returned: it now runs on into
    /// the first.
    pub fn merge_list(&mut self, head1: usize, head2: usize) -> (head: usize)
        requires
            is_list(old(self).program(), head2 as int),
            head1 <= u32::MAX,
        ensures
            head == merged_head(head1 as int, head2 as int),
            final(self).program() == merged(old(self).program(), head1 as int, head2 as int),
            head2 < QUAD_ID_OFFSET ==> head == head1 && final(self).program() == old(
                self,
            ).program(),
            final(self).quads@.len() == old(self).quads@.len(),
            final(self).tmp_var_id == old(self).tmp_var_id,
            final(self).sym_table == old(self).sym_table,
    {
        let ghost q0 = self.program();
        let ghost c = nodes(q0, head2 as int);
        let ghost mut k: int = 0;
        let mut curr2: usize = head2;
        let mut tail2: usize = head2;
        proof {
            if c.len() > 0 {
                assert(follows(q0, c, 0));
            }
        }
        while curr2 >= QUAD_ID_OFFSET
            invariant
                is_path(q0, head2 as int, c),
                0 <= k <= c.len(),
                k < c.len() ==> curr2 == c[k],
                k == c.len() ==> curr2 < QUAD_ID_OFFSET,
                k > 0 ==> tail2 == c[k - 1],
                k == 0 ==> tail2 == head2,
                self.program() == q0,
                *self == *old(self),
            decreases c.len() - k,
        {
            let idx: usize = curr2 - QUAD_ID_OFFSET;
            proof {
                assert(follows(q0, c, k));
                assert(self.quads@[idx as int]@ == self.program()[idx as int]);
            }
            tail2 = curr2;
            curr2 = self.quads[idx].result.to_num() as usize;
            proof {
                if k + 1 < c.len() {
                    assert(follows(q0, c, k + 1));
                }
                k = k + 1;
            }
        }
        proof {
            if k < c.len() {
                assert(follows(q0, c, k));
            }
        }
        if tail2 >= QUAD_ID_OFFSET {
            proof {
                assert(follows(q0, c, k - 1));
                assert(follows(q0, c, 0));
            }
            let idx: usize = tail2 - QUAD_ID_OFFSET;
            self.quads[idx].result = QuadItem::Num(head1 as u32);
            assert(self.program() =~= merged(q0, head1 as int, head2 as int));
            head2
        } else {
            proof {
                if k > 0 {
                    assert(follows(q0, c, k - 1));
                }
            }
            head1
        }
    }
}

} // verus!
