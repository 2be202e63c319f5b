//! Deciding, before a translation, whether a tree is well formed and how
//! many quadruples it yields.

use crate::ast::{Expr, Opcode, Stmt};
use crate::quad::{State, QUAD_ID_OFFSET};
use crate::scheme::{
    expr_outcome, expr_well_formed, is_cond, quad_count, stmt_outcome, stmt_quads,
    stmt_symbols, stmt_well_formed, stmts_outcome, stmts_quads, stmts_symbols,
    stmts_well_formed, Outcome, SemanticError,
};
use crate::symbols::SymbolTable;
use crate::translate::{declare_names, lemma_stmts_step, lemma_stmts_take, translate, translated};
use vstd::prelude::*;

verus! {

/// Whether the expression is a condition.
pub fn expr_is_cond(e: &Expr) -> (r: bool)
    ensures
        r == is_cond(*e),
{
    match e {
        Expr::Op(op, _, _) => match op {
            Opcode::GreaterThan | Opcode::Equal | Opcode::LessThan | Opcode::And | Opcode::Or => true,
            _ => false,
        },
        Expr::Not(_) => true,
        _ => false,
    }
}

/// Whether the expression is well formed.
pub fn expr_is_well_formed(e: &Expr) -> (r: bool)
    ensures
        r == expr_well_formed(*e),
    decreases e,
{
    match e {
        Expr::Id(_, _, _) => true,
        Expr::Num(_) => true,
        Expr::Op(op, l, r) => {
            if !expr_is_well_formed(l) || !expr_is_well_formed(r) {
                return false;
            }
            match op {
                Opcode::And | Opcode::Or => expr_is_cond(l) && expr_is_cond(r),
                _ => true,
            }
        },
        Expr::Not(x) => expr_is_well_formed(x) && expr_is_cond(x),
    }
}

/// Whether the statement is well formed.
pub fn stmt_is_well_formed(s: &Stmt) -> (r: bool)
    ensures
        r == stmt_well_formed(*s),
    decreases s, 1nat,
{
    match s {
        Stmt::If(c, body) => expr_is_well_formed(c) && expr_is_cond(c) && stmts_are_well_formed(
            body,
        ),
        Stmt::IfElse(c, then_body, else_body) => expr_is_well_formed(c) && expr_is_cond(c)
            && stmts_are_well_formed(then_body) && stmts_are_well_formed(else_body),
        Stmt::While(c, body) => expr_is_well_formed(c) && expr_is_cond(c)
            && stmts_are_well_formed(body),
        Stmt::Assign(_, e) => {
            let assigns = match &**e {
                Expr::Op(Opcode::Assign, _, _) => true,
                _ => false,
            };
            expr_is_well_formed(e) && !assigns
        },
        Stmt::VarDecl(_, _) => true,
        Stmt::Block(body) => stmts_are_well_formed(body),
        Stmt::Expr(e) => expr_is_well_formed(e),
    }
}

/// Whether every statement of the sequence is well formed.
pub fn stmts_are_well_formed(list: &Vec<Stmt>) -> (r: bool)
    ensures
        r == stmts_well_formed(list@),
    decreases list, 0nat,
{
    let mut i: usize = 0;
    while i < list.len()
        invariant
            i <= list@.len(),
            forall|k: int| 0 <= k < i ==> stmt_well_formed(#[trigger] list@[k]),
        decreases list@.len() - i,
    {
        if !stmt_is_well_formed(&list[i]) {
            return false;
        }
        i = i + 1;
    }
    true
}

/// The number of quadruples that the expression yields, or `None` where it
/// is more than `limit`.
pub fn count_expr(e: &Expr, limit: usize) -> (r: Option<usize>)
    ensures
        r == if quad_count(*e) <= limit {
            Some(quad_count(*e) as usize)
        } else {
            None
        },
    decreases e,
{
    match e {
        Expr::Id(_, _, _) => Some(0),
        Expr::Num(_) => Some(0),
        Expr::Op(op, l, r) => {
            let own: usize = match op {
                Opcode::GreaterThan | Opcode::Equal | Opcode::LessThan => 2,
                Opcode::And | Opcode::Or => 0,
                _ => 1,
            };
            let a: usize = match count_expr(l, limit) {
                Some(n) => n,
                None => {
                    return None;
                },
            };
            let b: usize = match count_expr(r, limit - a) {
                Some(n) => n,
                None => {
                    return None;
                },
            };
            if own <= limit - a - b {
                Some(a + b + own)
            } else {
                None
            }
        },
        Expr::Not(x) => count_expr(x, limit),
    }
}

/// The number of quadruples that the statement yields, or `None` where it is
/// more than `limit`.
pub fn count_stmt(s: &Stmt, limit: usize) -> (r: Option<usize>)
    ensures
        r == if stmt_quads(*s) <= limit {
            Some(stmt_quads(*s) as usize)
        } else {
            None
        },
    decreases s, 1nat,
{
    match s {
        Stmt::If(c, body) => {
            let a: usize = match count_expr(c, limit) {
                Some(n) => n,
                None => {
                    return None;
                },
            };
            let b: usize = match count_stmts(body, limit - a) {
                Some(n) => n,
                None => {
                    return None;
                },
            };
            if 1 <= limit - a - b {
                Some(a + b + 1)
            } else {
                None
            }
        },
        Stmt::IfElse(c, then_body, else_body) => {
            let a: usize = match count_expr(c, limit) {
                Some(n) => n,
                None => {
                    return None;
                },
            };
            let b: usize = match count_stmts(then_body, limit - a) {
                Some(n) => n,
                None => {
                    return None;
                },
            };
            if limit - a - b < 1 {
                return None;
            }
            match count_stmts(else_body, limit - a - b - 1) {
                Some(n) => Some(a + b + 1 + n),
                None => None,
            }
        },
        Stmt::While(c, body) => {
            let a: usize = match count_expr(c, limit) {
                Some(n) => n,
                None => {
                    return None;
                },
            };
            let b: usize = match count_stmts(body, limit - a) {
                Some(n) => n,
                None => {
                    return None;
                },
            };
            if 1 <= limit - a - b {
                Some(a + b + 1)
            } else {
                None
            }
        },
        Stmt::Assign(_, e) => {
            let own: usize = if expr_is_cond(e) {
                2
            } else {
                1
            };
            let a: usize = match count_expr(e, limit) {
                Some(n) => n,
                None => {
                    return None;
                },
            };
            if own <= limit - a {
                Some(a + own)
            } else {
                None
            }
        },
        Stmt::VarDecl(_, _) => Some(0),
        Stmt::Block(body) => count_stmts(body, limit),
        Stmt::Expr(e) => count_expr(e, limit),
    }
}

/// The number of quadruples that the statements yield together, or `None`
/// where it is more than `limit`.
pub fn count_stmts(list: &Vec<Stmt>, limit: usize) -> (r: Option<usize>)
    ensures
        r == if stmts_quads(list@) <= limit {
            Some(stmts_quads(list@) as usize)
        } else {
            None
        },
    decreases list, 0nat,
{
    let mut total: usize = 0;
    let mut i: usize = 0;
    assert(list@.take(0) =~= Seq::<Stmt>::empty());
    while i < list.len()
        invariant
            i <= list@.len(),
            total == stmts_quads(list@.take(i as int)),
            total <= limit,
        decreases list@.len() - i,
    {
        proof {
            lemma_stmts_step(list@, i as int);
            lemma_stmts_take(list@, i + 1, Seq::empty());
        }
        match count_stmt(&list[i], limit - total) {
            Some(n) => {
                total = total + n;
            },
            None => {
                return None;
            },
        }
        i = i + 1;
    }
    assert(list@.take(i as int) =~= list@);
    Some(total)
}

/// How a translation ends, without what it ends on.
#[derive(Debug, Clone, Copy, PartialEq, Eq, Structural)]
pub enum Ending {
    Done,
    Undefined,
    Defect,
}

/// The ending that the outcome is.
pub open spec fn ending_of(outcome: Outcome) -> Ending {
    match outcome {
        Outcome::Done => Ending::Done,
        Outcome::Undefined(_) => Ending::Undefined,
        Outcome::Defect => Ending::Defect,
    }
}

/// How the translation of the expression would end with the names of
/// `table` declared.
pub fn expr_ending(e: &Expr, table: &SymbolTable) -> (r: Ending)
    ensures
        r == ending_of(expr_outcome(*e, table@)),
    decreases e,
{
    match e {
        Expr::Id(name, _, _) => {
            if table.contains(name.as_str()) {
                Ending::Done
            } else {
                Ending::Undefined
            }
        },
        Expr::Num(_) => Ending::Done,
        Expr::Op(op, l, r) => {
            match expr_ending(l, table) {
                Ending::Done => {},
                other => {
                    return other;
                },
            }
            match expr_ending(r, table) {
                Ending::Done => {},
                other => {
                    return other;
                },
            }
            match op {
                Opcode::And | Opcode::Or => {
                    if expr_is_cond(l) && expr_is_cond(r) {
                        Ending::Done
                    } else {
                        Ending::Defect
                    }
                },
                _ => Ending::Done,
            }
        },
        Expr::Not(x) => {
            match expr_ending(x, table) {
                Ending::Done => {},
                other => {
                    return other;
                },
            }
            if expr_is_cond(x) {
                Ending::Done
            } else {
                Ending::Defect
            }
        },
    }
}

/// How the translation of the statement would end with the names of `table`
/// declared. Where it would run to its end, the names that the statement
/// declares are added to `table`.
pub fn stmt_ending(s: &Stmt, table: &mut SymbolTable) -> (r: Ending)
    ensures
        r == ending_of(stmt_outcome(*s, old(table)@)),
        r is Done ==> final(table)@ == stmt_symbols(*s, old(table)@),
    decreases s, 1nat,
{
    match s {
        Stmt::If(c, body) => {
            match expr_ending(c, table) {
                Ending::Done => {},
                other => {
                    return other;
                },
            }
            if !expr_is_cond(c) {
                return Ending::Defect;
            }
            stmts_ending(body, table)
        },
        Stmt::IfElse(c, then_body, else_body) => {
            match expr_ending(c, table) {
                Ending::Done => {},
                other => {
                    return other;
                },
            }
            if !expr_is_cond(c) {
                return Ending::Defect;
            }
            match stmts_ending(then_body, table) {
                Ending::Done => {},
                other => {
                    return other;
                },
            }
            stmts_ending(else_body, table)
        },
        Stmt::While(c, body) => {
            match expr_ending(c, table) {
                Ending::Done => {},
                other => {
                    return other;
                },
            }
            if !expr_is_cond(c) {
                return Ending::Defect;
            }
            stmts_ending(body, table)
        },
        Stmt::Assign(target, e) => {
            if !table.contains(target.0.as_str()) {
                return Ending::Undefined;
            }
            match expr_ending(e, table) {
                Ending::Done => {},
                other => {
                    return other;
                },
            }
            match &**e {
                Expr::Op(Opcode::Assign, _, _) => Ending::Defect,
                _ => Ending::Done,
            }
        },
        Stmt::VarDecl(names, ty) => {
            declare_names(names, *ty, table);
            Ending::Done
        },
        Stmt::Block(body) => stmts_ending(body, table),
        Stmt::Expr(e) => expr_ending(e, table),
    }
}

/// How the translation of the statements would end.
pub fn stmts_ending(list: &Vec<Stmt>, table: &mut SymbolTable) -> (r: Ending)
    ensures
        r == ending_of(stmts_outcome(list@, old(table)@)),
        r is Done ==> final(table)@ == stmts_symbols(list@, old(table)@),
    decreases list, 0nat,
{
    let ghost symbols = table@;
    let mut i: usize = 0;
    assert(list@.take(0) =~= Seq::<Stmt>::empty());
    while i < list.len()
        invariant
            i <= list@.len(),
            symbols == old(table)@,
            stmts_outcome(list@.take(i as int), symbols) is Done,
            table@ == stmts_symbols(list@.take(i as int), symbols),
        decreases list@.len() - i,
    {
        proof {
            lemma_stmts_step(list@, i as int);
            lemma_stmts_take(list@, i + 1, symbols);
        }
        match stmt_ending(&list[i], table) {
            Ending::Done => {},
            other => {
                return other;
            },
        }
        i = i + 1;
    }
    assert(list@.take(i as int) =~= list@);
    Ending::Done
}

/// Translates a whole program where that can be done: `None` for a program
/// whose translation would come upon a defect or yield more quadruples than
/// have an address; otherwise what `translate` returns.
pub fn compile(program: &Vec<Stmt>) -> (r: Option<Result<State, SemanticError>>)
    ensures
        r is Some <==> !(stmts_outcome(program@, Seq::empty()) is Defect) && stmts_quads(program@)
            + QUAD_ID_OFFSET <= u32::MAX,
        r matches Some(outcome) ==> translated(program@, outcome),
{
    let mut table = SymbolTable::new();
    match stmts_ending(program, &mut table) {
        Ending::Defect => {
            return None;
        },
        _ => {},
    }
    let limit: usize = (u32::MAX as usize) - QUAD_ID_OFFSET;
    match count_stmts(program, limit) {
        Some(_) => Some(translate(program)),
        None => None,
    }
}

} // verus!
