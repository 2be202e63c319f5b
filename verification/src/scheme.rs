//! The translation scheme: which quadruples each construct of the language
//! yields, stated as functions of the tree, of the address at which its code
//! starts and of the number of the first free temporary.
//!
//! A condition is translated into jumps whose targets are not known yet.
//! `skeleton` is its code with those targets left open, `true_chain` and
//! `false_chain` say which jumps leave the condition when it holds and when
//! it does not, and `resolved` is the code once both targets are known.

use crate::ast::{Expr, Opcode, Stmt, Type};
use crate::quad::{patch, temp_name, Operand, Operator, QuadView};
use crate::symbols::{declare, declared};
use vstd::prelude::*;

verus! {

/// What went wrong in a translation.
#[derive(Debug, PartialEq, Eq)]
pub enum SemanticError {
    /// The name, used at the given byte span, has not been declared.
    UndefinedVariable(String, usize, usize),
}

/// What a `SemanticError` stands for.
pub enum SemanticErrorView {
    UndefinedVariable(Seq<char>, usize, usize),
}

impl View for SemanticError {
    type V = SemanticErrorView;

    open spec fn view(&self) -> SemanticErrorView {
        match self {
            SemanticError::UndefinedVariable(name, start, end) => {
                SemanticErrorView::UndefinedVariable(name@, *start, *end)
            },
        }
    }
}

/// The expression is a condition: its translation yields a true list and a
/// false list instead of an operand.
pub open spec fn is_cond(e: Expr) -> bool {
    match e {
        Expr::Op(op, _, _) => op.is_comparison() || op.is_logical(),
        Expr::Not(_) => true,
        _ => false,
    }
}

/// The expression is well formed: `and`, `or` and `not` are applied to
/// conditions.
pub open spec fn expr_well_formed(e: Expr) -> bool
    decreases e,
{
    match e {
        Expr::Id(_, _, _) => true,
        Expr::Num(_) => true,
        Expr::Op(op, l, r) => {
            &&& expr_well_formed(*l)
            &&& expr_well_formed(*r)
            &&& op.is_logical() ==> is_cond(*l) && is_cond(*r)
        },
        Expr::Not(x) => expr_well_formed(*x) && is_cond(*x),
    }
}

/// The number of quadruples that the expression yields.
pub open spec fn quad_count(e: Expr) -> nat
    decreases e,
{
    match e {
        Expr::Id(_, _, _) => 0,
        Expr::Num(_) => 0,
        Expr::Op(op, l, r) => quad_count(*l) + quad_count(*r) + if op.is_comparison() {
            2nat
        } else if op.is_logical() {
            0nat
        } else {
            1nat
        },
        Expr::Not(x) => quad_count(*x),
    }
}

/// The number of temporaries that the expression takes.
pub open spec fn temp_count(e: Expr) -> nat
    decreases e,
{
    match e {
        Expr::Id(_, _, _) => 0,
        Expr::Num(_) => 0,
        Expr::Op(op, l, r) => temp_count(*l) + temp_count(*r) + if op.is_arithmetic() {
            1nat
        } else {
            0nat
        },
        Expr::Not(x) => temp_count(*x),
    }
}

/// The first address of a chain, or 0 for the empty chain.
pub open spec fn head_of(c: Seq<int>) -> int {
    if c.len() > 0 {
        c[0]
    } else {
        0
    }
}

/// The addresses of the jumps that leave the expression when it holds, in
/// the order of its true list. The code of the expression starts at `start`.
pub open spec fn true_chain(e: Expr, start: int) -> Seq<int>
    decreases e, 0nat,
{
    match e {
        Expr::Op(op, l, r) => {
            let mid = start + quad_count(*l);
            if op.is_comparison() {
                seq![mid + quad_count(*r)]
            } else if op is And {
                true_chain(*r, mid)
            } else if op is Or {
                true_chain(*r, mid) + true_chain(*l, start)
            } else {
                Seq::empty()
            }
        },
        Expr::Not(x) => false_chain(*x, start),
        _ => Seq::empty(),
    }
}

/// The addresses of the jumps that leave the expression when it does not
/// hold, in the order of its false list.
pub open spec fn false_chain(e: Expr, start: int) -> Seq<int>
    decreases e, 0nat,
{
    match e {
        Expr::Op(op, l, r) => {
            let mid = start + quad_count(*l);
            if op.is_comparison() {
                seq![mid + quad_count(*r) + 1]
            } else if op is And {
                false_chain(*r, mid) + false_chain(*l, start)
            } else if op is Or {
                false_chain(*r, mid)
            } else {
                Seq::empty()
            }
        },
        Expr::Not(x) => true_chain(*x, start),
        _ => Seq::empty(),
    }
}

/// The operator of the quadruple that a comparison or an arithmetic operator
/// yields.
pub open spec fn operator_of(op: Opcode) -> Operator {
    match op {
        Opcode::GreaterThan => Operator::JumpGreater,
        Opcode::Equal => Operator::JumpEqual,
        Opcode::LessThan => Operator::JumpLess,
        Opcode::Add => Operator::Add,
        Opcode::Sub => Operator::Sub,
        Opcode::Mul => Operator::Mul,
        _ => Operator::Assign,
    }
}

/// The value of the expression: a name, a number, nothing for an assignment,
/// the temporary that holds the result of an arithmetic operator, or the
/// heads of the two lists of a condition.
pub open spec fn value(e: Expr, start: int, tmp: nat) -> Operand {
    match e {
        Expr::Id(name, _, _) => Operand::Id(name@),
        Expr::Num(n) => Operand::Num(n as int),
        Expr::Op(op, l, r) => {
            if op.is_arithmetic() {
                Operand::Id(temp_name(tmp + temp_count(*l) + temp_count(*r)))
            } else if op is Assign {
                Operand::Empty
            } else {
                Operand::TFList(head_of(true_chain(e, start)), head_of(false_chain(e, start)))
            }
        },
        Expr::Not(_) => Operand::TFList(
            head_of(true_chain(e, start)),
            head_of(false_chain(e, start)),
        ),
    }
}

/// The code `code`, which starts at `start`, with the chain `c` threaded
/// through it as a patch list: the result of each jump on the chain is the
/// address of the next, and 0 for the last.
pub open spec fn threaded(code: Seq<QuadView>, start: int, c: Seq<int>) -> Seq<QuadView> {
    Seq::new(
        code.len(),
        |i: int|
            if c.contains(start + i) {
                let k = c.index_of(start + i);
                QuadView {
                    result: Operand::Num(
                        if k + 1 < c.len() {
                            c[k + 1]
                        } else {
                            0
                        },
                    ),
                    ..code[i]
                }
            } else {
                code[i]
            },
    )
}

/// The code of the expression, starting at address `start` with `tmp` as the
/// first free temporary. A jump that leaves the expression has 0 as its
/// target; a jump from the left operand of `and` or `or` into the right one
/// has the address at which the right one starts. A condition that stands
/// as an operand of a comparison, of an arithmetic operator or of an
/// assignment keeps its two lists as they are: nothing ever fills them.
pub open spec fn skeleton(e: Expr, start: int, tmp: nat) -> Seq<QuadView>
    decreases e,
{
    match e {
        Expr::Id(_, _, _) => Seq::empty(),
        Expr::Num(_) => Seq::empty(),
        Expr::Op(op, l, r) => {
            let mid = start + quad_count(*l);
            let tmp_mid = tmp + temp_count(*l);
            let left = skeleton(*l, start, tmp);
            let right = skeleton(*r, mid, tmp_mid);
            if op is And {
                patch(left, start, true_chain(*l, start), mid) + right
            } else if op is Or {
                patch(left, start, false_chain(*l, start), mid) + right
            } else {
                threaded(threaded(left, start, true_chain(*l, start)), start, false_chain(*l, start))
                    + threaded(
                    threaded(right, mid, true_chain(*r, mid)),
                    mid,
                    false_chain(*r, mid),
                ) + closing(e, start, tmp)
            }
        },
        Expr::Not(x) => skeleton(*x, start, tmp),
    }
}

/// The quadruples that close a comparison, an arithmetic operation or an
/// assignment, after the code of its two operands.
pub open spec fn closing(e: Expr, start: int, tmp: nat) -> Seq<QuadView> {
    match e {
        Expr::Op(op, l, r) => {
            let mid = start + quad_count(*l);
            let tmp_mid = tmp + temp_count(*l);
            let a = value(*l, start, tmp);
            let b = value(*r, mid, tmp_mid);
            if op.is_comparison() {
                seq![
                    QuadView { op: operator_of(op), arg1: a, arg2: b, result: Operand::Num(0) },
                    QuadView {
                        op: Operator::Jump,
                        arg1: Operand::Empty,
                        arg2: Operand::Empty,
                        result: Operand::Num(0),
                    },
                ]
            } else if op.is_arithmetic() {
                seq![
                    QuadView {
                        op: operator_of(op),
                        arg1: a,
                        arg2: b,
                        result: Operand::Id(temp_name(tmp_mid + temp_count(*r))),
                    },
                ]
            } else if op is Assign {
                seq![
                    QuadView { op: Operator::Assign, arg1: b, arg2: Operand::Empty, result: a },
                ]
            } else {
                Seq::empty()
            }
        },
        _ => Seq::empty(),
    }
}

/// The code of a condition whose true list leads to `on_true` and whose
/// false list leads to `on_false`.
pub open spec fn resolved(e: Expr, start: int, tmp: nat, on_true: int, on_false: int) -> Seq<
    QuadView,
> {
    patch(
        patch(skeleton(e, start, tmp), start, true_chain(e, start), on_true),
        start,
        false_chain(e, start),
        on_false,
    )
}

/// How a translation ends.
pub enum Outcome {
    /// It runs to its end.
    Done,
    /// It stops at the first name that is used without a declaration.
    Undefined(SemanticErrorView),
    /// It comes upon an operand that is no condition where one is needed, or
    /// upon an assignment whose right side has no value.
    Defect,
}

/// How the translation of the expression ends, with `symbols` declared.
/// The left operand comes before the right one, and an operator is looked
/// at after its operands.
pub open spec fn expr_outcome(e: Expr, symbols: Seq<(Seq<char>, Type)>) -> Outcome
    decreases e,
{
    match e {
        Expr::Id(name, start, end) => if declared(symbols, name@) {
            Outcome::Done
        } else {
            Outcome::Undefined(SemanticErrorView::UndefinedVariable(name@, start, end))
        },
        Expr::Num(_) => Outcome::Done,
        Expr::Op(op, l, r) => match expr_outcome(*l, symbols) {
            Outcome::Done => match expr_outcome(*r, symbols) {
                Outcome::Done => if op.is_logical() && !(is_cond(*l) && is_cond(*r)) {
                    Outcome::Defect
                } else {
                    Outcome::Done
                },
                other => other,
            },
            other => other,
        },
        Expr::Not(x) => match expr_outcome(*x, symbols) {
            Outcome::Done => if is_cond(*x) {
                Outcome::Done
            } else {
                Outcome::Defect
            },
            other => other,
        },
    }
}

/// Two chains lie within the `n` quadruples that start at `start`, repeat no
/// address and share none.
pub open spec fn chains_apart(start: int, n: nat, on_true: Seq<int>, on_false: Seq<int>) -> bool {
    &&& forall|k: int| 0 <= k < on_true.len() ==> start <= #[trigger] on_true[k] < start + n
    &&& forall|k: int| 0 <= k < on_false.len() ==> start <= #[trigger] on_false[k] < start + n
    &&& on_true.no_duplicates()
    &&& on_false.no_duplicates()
    &&& forall|i: int, j: int|
        0 <= i < on_true.len() && 0 <= j < on_false.len() ==> #[trigger] on_true[i]
            != #[trigger] on_false[j]
}

/// The chains of an expression that starts at `start` and has `n`
/// quadruples lie within its code and share no address. A condition has
/// both, any other expression has neither.
pub open spec fn chains_within(
    start: int,
    n: nat,
    cond: bool,
    on_true: Seq<int>,
    on_false: Seq<int>,
) -> bool {
    &&& chains_apart(start, n, on_true, on_false)
    &&& cond ==> on_true.len() > 0 && on_false.len() > 0
    &&& !cond ==> on_true.len() == 0 && on_false.len() == 0
}

/// The shape of the code of an expression: its length, its temporaries, and
/// where its chains lie. An expression that is no condition has no chains;
/// a well-formed condition has both.
pub proof fn lemma_shape(e: Expr, start: int, tmp: nat)
    ensures
        skeleton(e, start, tmp).len() == quad_count(e),
        temp_count(e) <= quad_count(e),
        chains_apart(start, quad_count(e), true_chain(e, start), false_chain(e, start)),
        !is_cond(e) ==> true_chain(e, start).len() == 0 && false_chain(e, start).len() == 0,
        expr_well_formed(e) ==> chains_within(
            start,
            quad_count(e),
            is_cond(e),
            true_chain(e, start),
            false_chain(e, start),
        ),
    decreases e,
{
    match e {
        Expr::Id(_, _, _) => {},
        Expr::Num(_) => {},
        Expr::Op(op, l, r) => {
            let mid = start + quad_count(*l);
            lemma_shape(*l, start, tmp);
            lemma_shape(*r, mid, tmp + temp_count(*l));
            let tl = true_chain(*l, start);
            let fl = false_chain(*l, start);
            let tr = true_chain(*r, mid);
            let fr = false_chain(*r, mid);
            if op is And {
                lemma_concat_within(fr, fl, start, mid, quad_count(*l), quad_count(*r));
                assert forall|i: int, j: int|
                    0 <= i < tr.len() && 0 <= j < (fr + fl).len() implies #[trigger] tr[i]
                    != #[trigger] (fr + fl)[j] by {
                    if j < fr.len() {
                        assert((fr + fl)[j] == fr[j]);
                    } else {
                        assert((fr + fl)[j] == fl[j - fr.len()]);
                    }
                }
            } else if op is Or {
                lemma_concat_within(tr, tl, start, mid, quad_count(*l), quad_count(*r));
                assert forall|i: int, j: int|
                    0 <= i < (tr + tl).len() && 0 <= j < fr.len() implies #[trigger] (tr + tl)[i]
                    != #[trigger] fr[j] by {
                    if i < tr.len() {
                        assert((tr + tl)[i] == tr[i]);
                    } else {
                        assert((tr + tl)[i] == tl[i - tr.len()]);
                    }
                }
            }
        },
        Expr::Not(x) => {
            lemma_shape(*x, start, tmp);
        },
    }
}

/// A chain of the right operand followed by one of the left operand lies
/// within the code of both and repeats no address.
pub proof fn lemma_concat_within(
    right: Seq<int>,
    left: Seq<int>,
    start: int,
    mid: int,
    n_left: nat,
    n_right: nat,
)
    requires
        mid == start + n_left,
        forall|k: int| 0 <= k < left.len() ==> start <= #[trigger] left[k] < mid,
        forall|k: int| 0 <= k < right.len() ==> mid <= #[trigger] right[k] < mid + n_right,
        left.no_duplicates(),
        right.no_duplicates(),
    ensures
        (right + left).no_duplicates(),
        forall|k: int|
            0 <= k < (right + left).len() ==> start <= #[trigger] (right + left)[k] < start
                + n_left + n_right,
{
    let c = right + left;
    assert forall|k: int| 0 <= k < c.len() implies start <= #[trigger] c[k] < start + n_left
        + n_right by {
        if k < right.len() {
            assert(c[k] == right[k]);
        } else {
            assert(c[k] == left[k - right.len()]);
        }
    }
    assert forall|i: int, j: int| 0 <= i < c.len() && 0 <= j < c.len() && i != j implies c[i]
        != c[j] by {
        if i < right.len() {
            assert(c[i] == right[i]);
        } else {
            assert(c[i] == left[i - right.len()]);
        }
        if j < right.len() {
            assert(c[j] == right[j]);
        } else {
            assert(c[j] == left[j - right.len()]);
        }
    }
}

/// The code of an expression as it stands in the program while its two
/// lists are open.
pub open spec fn open_code(e: Expr, start: int, tmp: nat) -> Seq<QuadView> {
    threaded(
        threaded(skeleton(e, start, tmp), start, true_chain(e, start)),
        start,
        false_chain(e, start),
    )
}

/// An unconditional jump to `target`.
pub open spec fn jump_to(target: int) -> QuadView {
    QuadView {
        op: Operator::Jump,
        arg1: Operand::Empty,
        arg2: Operand::Empty,
        result: Operand::Num(target),
    }
}

/// The quadruple that stores `source` in the variable `name`.
pub open spec fn store(source: Operand, name: Seq<char>) -> QuadView {
    QuadView {
        op: Operator::Assign,
        arg1: source,
        arg2: Operand::Empty,
        result: Operand::Id(name),
    }
}

/// The statement is well formed: its expressions are, what `if` and `while`
/// test is a condition, and what is assigned is not itself an assignment.
pub open spec fn stmt_well_formed(s: Stmt) -> bool
    decreases s,
{
    match s {
        Stmt::If(c, body) => {
            &&& expr_well_formed(*c)
            &&& is_cond(*c)
            &&& forall|i: int| 0 <= i < body@.len() ==> stmt_well_formed(#[trigger] body@[i])
        },
        Stmt::IfElse(c, then_body, else_body) => {
            &&& expr_well_formed(*c)
            &&& is_cond(*c)
            &&& forall|i: int|
                0 <= i < then_body@.len() ==> stmt_well_formed(#[trigger] then_body@[i])
            &&& forall|i: int|
                0 <= i < else_body@.len() ==> stmt_well_formed(#[trigger] else_body@[i])
        },
        Stmt::While(c, body) => {
            &&& expr_well_formed(*c)
            &&& is_cond(*c)
            &&& forall|i: int| 0 <= i < body@.len() ==> stmt_well_formed(#[trigger] body@[i])
        },
        Stmt::Assign(_, e) => expr_well_formed(*e) && !(*e matches Expr::Op(Opcode::Assign, _, _)),
        Stmt::VarDecl(_, _) => true,
        Stmt::Block(body) => forall|i: int|
            0 <= i < body@.len() ==> stmt_well_formed(#[trigger] body@[i]),
        Stmt::Expr(e) => expr_well_formed(*e),
    }
}

/// Every statement of the sequence is well formed.
pub open spec fn stmts_well_formed(ss: Seq<Stmt>) -> bool {
    forall|i: int| 0 <= i < ss.len() ==> stmt_well_formed(#[trigger] ss[i])
}

/// The number of quadruples that the statement yields.
pub open spec fn stmt_quads(s: Stmt) -> nat
    decreases s,
{
    match s {
        Stmt::If(c, body) => quad_count(*c) + stmts_quads(body@) + 1,
        Stmt::IfElse(c, then_body, else_body) => quad_count(*c) + stmts_quads(then_body@) + 1
            + stmts_quads(else_body@),
        Stmt::While(c, body) => quad_count(*c) + stmts_quads(body@) + 1,
        Stmt::Assign(_, e) => quad_count(*e) + if is_cond(*e) {
            2nat
        } else {
            1nat
        },
        Stmt::VarDecl(_, _) => 0,
        Stmt::Block(body) => stmts_quads(body@),
        Stmt::Expr(e) => quad_count(*e),
    }
}

/// The number of quadruples that the statements yield together.
pub open spec fn stmts_quads(ss: Seq<Stmt>) -> nat
    decreases ss,
{
    if ss.len() == 0 {
        0
    } else {
        stmts_quads(ss.drop_last()) + stmt_quads(ss.last())
    }
}

/// The number of temporaries that the statement takes.
pub open spec fn stmt_temps(s: Stmt) -> nat
    decreases s,
{
    match s {
        Stmt::If(c, body) => temp_count(*c) + stmts_temps(body@),
        Stmt::IfElse(c, then_body, else_body) => temp_count(*c) + stmts_temps(then_body@)
            + stmts_temps(else_body@),
        Stmt::While(c, body) => temp_count(*c) + stmts_temps(body@),
        Stmt::Assign(_, e) => temp_count(*e),
        Stmt::VarDecl(_, _) => 0,
        Stmt::Block(body) => stmts_temps(body@),
        Stmt::Expr(e) => temp_count(*e),
    }
}

/// The number of temporaries that the statements take together.
pub open spec fn stmts_temps(ss: Seq<Stmt>) -> nat
    decreases ss,
{
    if ss.len() == 0 {
        0
    } else {
        stmts_temps(ss.drop_last()) + stmt_temps(ss.last())
    }
}

/// The symbol table after each of `names` has been declared with type `ty`,
/// in order.
pub open spec fn declare_all(symbols: Seq<(Seq<char>, Type)>, names: Seq<String>, ty: Type) -> Seq<
    (Seq<char>, Type),
>
    decreases names.len(),
{
    if names.len() == 0 {
        symbols
    } else {
        declare(declare_all(symbols, names.drop_last(), ty), names.last()@, ty)
    }
}

/// The symbol table after the statement: declarations take effect where they
/// stand, those inside a body as well.
pub open spec fn stmt_symbols(s: Stmt, symbols: Seq<(Seq<char>, Type)>) -> Seq<(Seq<char>, Type)>
    decreases s,
{
    match s {
        Stmt::If(_, body) => stmts_symbols(body@, symbols),
        Stmt::IfElse(_, then_body, else_body) => stmts_symbols(
            else_body@,
            stmts_symbols(then_body@, symbols),
        ),
        Stmt::While(_, body) => stmts_symbols(body@, symbols),
        Stmt::VarDecl(names, ty) => declare_all(symbols, names@, ty),
        Stmt::Block(body) => stmts_symbols(body@, symbols),
        _ => symbols,
    }
}

/// The symbol table after the statements.
pub open spec fn stmts_symbols(ss: Seq<Stmt>, symbols: Seq<(Seq<char>, Type)>) -> Seq<
    (Seq<char>, Type),
>
    decreases ss,
{
    if ss.len() == 0 {
        symbols
    } else {
        stmt_symbols(ss.last(), stmts_symbols(ss.drop_last(), symbols))
    }
}

/// The outcome `first`, or where that is `Done` the outcome `second`.
pub open spec fn and_then(first: Outcome, second: Outcome) -> Outcome {
    match first {
        Outcome::Done => second,
        other => other,
    }
}

/// How the translation of the statement ends, with `symbols` declared: at
/// the first name that is used without a declaration that precedes the use
/// in the order of translation, at what `if` or `while` tests where that is
/// no condition, at an assignment of an assignment, or at its end.
pub open spec fn stmt_outcome(s: Stmt, symbols: Seq<(Seq<char>, Type)>) -> Outcome
    decreases s,
{
    match s {
        Stmt::If(c, body) => and_then(
            expr_outcome(*c, symbols),
            if is_cond(*c) {
                stmts_outcome(body@, symbols)
            } else {
                Outcome::Defect
            },
        ),
        Stmt::IfElse(c, then_body, else_body) => and_then(
            expr_outcome(*c, symbols),
            if is_cond(*c) {
                and_then(
                    stmts_outcome(then_body@, symbols),
                    stmts_outcome(else_body@, stmts_symbols(then_body@, symbols)),
                )
            } else {
                Outcome::Defect
            },
        ),
        Stmt::While(c, body) => and_then(
            expr_outcome(*c, symbols),
            if is_cond(*c) {
                stmts_outcome(body@, symbols)
            } else {
                Outcome::Defect
            },
        ),
        Stmt::Assign(target, e) => if declared(symbols, target.0@) {
            and_then(
                expr_outcome(*e, symbols),
                if *e matches Expr::Op(Opcode::Assign, _, _) {
                    Outcome::Defect
                } else {
                    Outcome::Done
                },
            )
        } else {
            Outcome::Undefined(
                SemanticErrorView::UndefinedVariable(target.0@, target.1, target.2),
            )
        },
        Stmt::VarDecl(_, _) => Outcome::Done,
        Stmt::Block(body) => stmts_outcome(body@, symbols),
        Stmt::Expr(e) => expr_outcome(*e, symbols),
    }
}

/// How the translation of the statements ends.
pub open spec fn stmts_outcome(ss: Seq<Stmt>, symbols: Seq<(Seq<char>, Type)>) -> Outcome
    decreases ss,
{
    if ss.len() == 0 {
        Outcome::Done
    } else {
        and_then(
            stmts_outcome(ss.drop_last(), symbols),
            stmt_outcome(ss.last(), stmts_symbols(ss.drop_last(), symbols)),
        )
    }
}

/// A translation that runs to its end has met a well-formed tree.
pub proof fn lemma_done_expr(e: Expr, symbols: Seq<(Seq<char>, Type)>)
    requires
        expr_outcome(e, symbols) is Done,
    ensures
        expr_well_formed(e),
    decreases e,
{
    match e {
        Expr::Op(_, l, r) => {
            lemma_done_expr(*l, symbols);
            lemma_done_expr(*r, symbols);
        },
        Expr::Not(x) => {
            lemma_done_expr(*x, symbols);
        },
        _ => {},
    }
}

/// A translation that runs to its end has met a well-formed tree.
pub proof fn lemma_done_stmt(s: Stmt, symbols: Seq<(Seq<char>, Type)>)
    requires
        stmt_outcome(s, symbols) is Done,
    ensures
        stmt_well_formed(s),
    decreases s, 1nat,
{
    match s {
        Stmt::If(c, body) => {
            lemma_done_expr(*c, symbols);
            lemma_done_stmts(body@, symbols);
        },
        Stmt::IfElse(c, then_body, else_body) => {
            lemma_done_expr(*c, symbols);
            lemma_done_stmts(then_body@, symbols);
            lemma_done_stmts(else_body@, stmts_symbols(then_body@, symbols));
        },
        Stmt::While(c, body) => {
            lemma_done_expr(*c, symbols);
            lemma_done_stmts(body@, symbols);
        },
        Stmt::Assign(_, e) => {
            lemma_done_expr(*e, symbols);
        },
        Stmt::VarDecl(_, _) => {},
        Stmt::Block(body) => {
            lemma_done_stmts(body@, symbols);
        },
        Stmt::Expr(e) => {
            lemma_done_expr(*e, symbols);
        },
    }
}

/// A translation that runs to its end has met well-formed statements.
pub proof fn lemma_done_stmts(ss: Seq<Stmt>, symbols: Seq<(Seq<char>, Type)>)
    requires
        stmts_outcome(ss, symbols) is Done,
    ensures
        stmts_well_formed(ss),
    decreases ss, 0nat,
{
    if ss.len() > 0 {
        let front = ss.drop_last();
        lemma_done_stmts(front, symbols);
        lemma_done_stmt(ss.last(), stmts_symbols(front, symbols));
        assert forall|i: int| 0 <= i < ss.len() implies stmt_well_formed(#[trigger] ss[i]) by {
            if i < front.len() {
                assert(front[i] == ss[i]);
            }
        }
    }
}

/// A well-formed expression holds no defect.
pub proof fn lemma_well_formed_expr(e: Expr, symbols: Seq<(Seq<char>, Type)>)
    requires
        expr_well_formed(e),
    ensures
        !(expr_outcome(e, symbols) is Defect),
    decreases e,
{
    match e {
        Expr::Op(_, l, r) => {
            lemma_well_formed_expr(*l, symbols);
            lemma_well_formed_expr(*r, symbols);
        },
        Expr::Not(x) => {
            lemma_well_formed_expr(*x, symbols);
        },
        _ => {},
    }
}

/// A well-formed statement holds no defect.
pub proof fn lemma_well_formed_stmt(s: Stmt, symbols: Seq<(Seq<char>, Type)>)
    requires
        stmt_well_formed(s),
    ensures
        !(stmt_outcome(s, symbols) is Defect),
    decreases s, 1nat,
{
    match s {
        Stmt::If(c, body) => {
            lemma_well_formed_expr(*c, symbols);
            lemma_well_formed_stmts(body@, symbols);
        },
        Stmt::IfElse(c, then_body, else_body) => {
            lemma_well_formed_expr(*c, symbols);
            lemma_well_formed_stmts(then_body@, symbols);
            lemma_well_formed_stmts(else_body@, stmts_symbols(then_body@, symbols));
        },
        Stmt::While(c, body) => {
            lemma_well_formed_expr(*c, symbols);
            lemma_well_formed_stmts(body@, symbols);
        },
        Stmt::Assign(_, e) => {
            lemma_well_formed_expr(*e, symbols);
        },
        Stmt::VarDecl(_, _) => {},
        Stmt::Block(body) => {
            lemma_well_formed_stmts(body@, symbols);
        },
        Stmt::Expr(e) => {
            lemma_well_formed_expr(*e, symbols);
        },
    }
}

/// Well-formed statements hold no defect.
pub proof fn lemma_well_formed_stmts(ss: Seq<Stmt>, symbols: Seq<(Seq<char>, Type)>)
    requires
        stmts_well_formed(ss),
    ensures
        !(stmts_outcome(ss, symbols) is Defect),
    decreases ss, 0nat,
{
    if ss.len() > 0 {
        let front = ss.drop_last();
        assert forall|i: int| 0 <= i < front.len() implies stmt_well_formed(#[trigger] front[i]) by {
            assert(front[i] == ss[i]);
        }
        assert(stmt_well_formed(ss.last())) by {
            assert(ss.last() == ss[ss.len() - 1]);
        }
        lemma_well_formed_stmts(front, symbols);
        lemma_well_formed_stmt(ss.last(), stmts_symbols(front, symbols));
    }
}

/// The code of the statement, starting at address `start` with `tmp` as the
/// first free temporary. Every jump has its target.
///
/// - `if`: the condition, true to the body and false past the jump that
///   follows the body; the body; a jump to the next quadruple.
/// - `if`-`else`: the condition, true to the first body and false to the
///   second; the first body; a jump past the second body; the second body.
/// - `while`: the condition, true to the body and false past the loop; the
///   body; a jump back to the first quadruple of the condition.
/// - assignment of a condition: the condition, true to a quadruple that
///   stores 1 and false to the next, which stores 0.
/// - an expression on its own: its code as it is, with the lists of a
///   condition left open.
pub open spec fn stmt_code(s: Stmt, start: int, tmp: nat) -> Seq<QuadView>
    decreases s,
{
    match s {
        Stmt::If(c, body) => {
            let body_start = start + quad_count(*c);
            let end = body_start + stmts_quads(body@) + 1;
            resolved(*c, start, tmp, body_start, end) + stmts_code(
                body@,
                body_start,
                tmp + temp_count(*c),
            ) + seq![jump_to(end)]
        },
        Stmt::IfElse(c, then_body, else_body) => {
            let then_start = start + quad_count(*c);
            let else_start = then_start + stmts_quads(then_body@) + 1;
            let end = else_start + stmts_quads(else_body@);
            let tmp_then = tmp + temp_count(*c);
            resolved(*c, start, tmp, then_start, else_start) + stmts_code(
                then_body@,
                then_start,
                tmp_then,
            ) + seq![jump_to(end)] + stmts_code(
                else_body@,
                else_start,
                tmp_then + stmts_temps(then_body@),
            )
        },
        Stmt::While(c, body) => {
            let body_start = start + quad_count(*c);
            let end = body_start + stmts_quads(body@) + 1;
            resolved(*c, start, tmp, body_start, end) + stmts_code(
                body@,
                body_start,
                tmp + temp_count(*c),
            ) + seq![jump_to(start)]
        },
        Stmt::Assign(target, e) => {
            if is_cond(*e) {
                let on_true = start + quad_count(*e);
                resolved(*e, start, tmp, on_true, on_true + 1) + seq![
                    store(Operand::Num(1), target.0@),
                    store(Operand::Num(0), target.0@),
                ]
            } else {
                skeleton(*e, start, tmp) + seq![store(value(*e, start, tmp), target.0@)]
            }
        },
        Stmt::VarDecl(_, _) => Seq::empty(),
        Stmt::Block(body) => stmts_code(body@, start, tmp),
        Stmt::Expr(e) => open_code(*e, start, tmp),
    }
}

/// The code of the statements, one after the other.
pub open spec fn stmts_code(ss: Seq<Stmt>, start: int, tmp: nat) -> Seq<QuadView>
    decreases ss,
{
    if ss.len() == 0 {
        Seq::empty()
    } else {
        let front = ss.drop_last();
        stmts_code(front, start, tmp) + stmt_code(
            ss.last(),
            start + stmts_quads(front),
            tmp + stmts_temps(front),
        )
    }
}

} // verus!
