//! The syntax tree that the parser builds.

use crate::ast::clone_names;
use vstd::prelude::*;

verus! {

/// The types of the language.
#[derive(Debug, Clone, Copy, PartialEq, Eq, Structural)]
pub enum Type {
    Integer,
}

/// Binary operators.
#[derive(Debug, Clone, Copy, PartialEq, Eq, Structural)]
pub enum Opcode {
    GreaterThan,
    Equal,
    LessThan,
    Assign,
    Add,
    Sub,
    Mul,
    And,
    Or,
}

/// An expression.
#[derive(Debug)]
pub enum Expr {
    Id(String),
    Num(u32),
    Op(Opcode, Box<Expr>, Box<Expr>),
    Not(Box<Expr>),
}

impl Clone for Expr {
    fn clone(&self) -> (copy: Expr)
        ensures
            copy == *self,
        decreases self,
    {
        match self {
            Expr::Id(name) => Expr::Id(name.clone()),
            Expr::Num(n) => Expr::Num(*n),
            Expr::Op(op, l, r) => Expr::Op(*op, Box::new((**l).clone()), Box::new((**r).clone())),
            Expr::Not(x) => Expr::Not(Box::new((**x).clone())),
        }
    }
}

/// A statement.
#[derive(Debug)]
pub enum Stmt {
    If(Box<Expr>, Box<Stmt>),
    IfElse(Box<Expr>, Box<Stmt>, Box<Stmt>),
    While(Box<Expr>, Box<Stmt>),
    Assign(String, Box<Expr>),
    VarDecl(Vec<String>, Type),
    Block(Vec<Stmt>),
    Expr(Box<Expr>),
}

/// The two statements are the same tree.
pub open spec fn same_stmt(a: Stmt, b: Stmt) -> bool
    decreases a,
{
    match (a, b) {
        (Stmt::If(c1, s1), Stmt::If(c2, s2)) => c1 == c2 && same_stmt(*s1, *s2),
        (Stmt::IfElse(c1, s1, r1), Stmt::IfElse(c2, s2, r2)) => c1 == c2 && same_stmt(*s1, *s2)
            && same_stmt(*r1, *r2),
        (Stmt::While(c1, s1), Stmt::While(c2, s2)) => c1 == c2 && same_stmt(*s1, *s2),
        (Stmt::Assign(n1, e1), Stmt::Assign(n2, e2)) => n1 == n2 && e1 == e2,
        (Stmt::VarDecl(n1, ty1), Stmt::VarDecl(n2, ty2)) => n1@ == n2@ && ty1 == ty2,
        (Stmt::Block(body1), Stmt::Block(body2)) => same_stmts(body1@, body2@),
        (Stmt::Expr(e1), Stmt::Expr(e2)) => e1 == e2,
        _ => false,
    }
}

/// The two sequences hold the same trees, one by one.
pub open spec fn same_stmts(a: Seq<Stmt>, b: Seq<Stmt>) -> bool
    decreases a,
{
    a.len() == b.len() && forall|i: int| 0 <= i < a.len() ==> same_stmt(#[trigger] a[i], b[i])
}

/// A copy of the statements.
pub fn clone_stmts(list: &Vec<Stmt>) -> (copy: Vec<Stmt>)
    ensures
        same_stmts(list@, copy@),
    decreases list, 0nat,
{
    let mut copy: Vec<Stmt> = Vec::new();
    let mut i: usize = 0;
    while i < list.len()
        invariant
            i <= list@.len(),
            copy@.len() == i,
            forall|k: int| 0 <= k < i ==> same_stmt(#[trigger] list@[k], copy@[k]),
        decreases list@.len() - i,
    {
        copy.push(list[i].clone());
        i = i + 1;
    }
    copy
}

impl Clone for Stmt {
    fn clone(&self) -> (copy: Stmt)
        ensures
            same_stmt(*self, copy),
        decreases self, 1nat,
    {
        match self {
            Stmt::If(c, s) => Stmt::If(Box::new((**c).clone()), Box::new((**s).clone())),
            Stmt::IfElse(c, s, r) => Stmt::IfElse(
                Box::new((**c).clone()),
                Box::new((**s).clone()),
                Box::new((**r).clone()),
            ),
            Stmt::While(c, s) => Stmt::While(Box::new((**c).clone()), Box::new((**s).clone())),
            Stmt::Assign(name, e) => Stmt::Assign(name.clone(), Box::new((**e).clone())),
            Stmt::VarDecl(names, ty) => Stmt::VarDecl(clone_names(names), *ty),
            Stmt::Block(body) => Stmt::Block(clone_stmts(body)),
            Stmt::Expr(e) => Stmt::Expr(Box::new((**e).clone())),
        }
    }
}

} // verus!
