//! The syntax tree that the quadruple generator consumes.

use vstd::prelude::*;

verus! {

/// The two primitive types of the language.
#[derive(Debug, Clone, Copy, PartialEq, Eq, Structural)]
pub enum Type {
    Int,
    Bool,
}

/// Binary operators.
#[derive(Debug, Clone, Copy, PartialEq, Eq, Structural)]
pub enum Opcode {
    GreaterThan,
    Equal,
    LessThan,
    Assign,
    Add,
    Sub,
    Mul,
    And,
    Or,
}

/// An expression. An identifier carries the byte span of its occurrence.
#[derive(Debug)]
pub enum Expr {
    Id(String, usize, usize),
    Num(u32),
    Op(Opcode, Box<Expr>, Box<Expr>),
    Not(Box<Expr>),
}

/// A statement.
#[derive(Debug)]
pub enum Stmt {
    If(Box<Expr>, Vec<Stmt>),
    IfElse(Box<Expr>, Vec<Stmt>, Vec<Stmt>),
    While(Box<Expr>, Vec<Stmt>),
    Assign((String, usize, usize), Box<Expr>),
    VarDecl(Vec<String>, Type),
    Block(Vec<Stmt>),
    Expr(Box<Expr>),
}

impl Clone for Expr {
    fn clone(&self) -> (copy: Expr)
        ensures
            copy == *self,
        decreases self,
    {
        match self {
            Expr::Id(name, start, end) => Expr::Id(name.clone(), *start, *end),
            Expr::Num(n) => Expr::Num(*n),
            Expr::Op(op, l, r) => Expr::Op(*op, Box::new((**l).clone()), Box::new((**r).clone())),
            Expr::Not(x) => Expr::Not(Box::new((**x).clone())),
        }
    }
}

/// The two sequences hold the same strings.
pub fn clone_names(names: &Vec<String>) -> (copy: Vec<String>)
    ensures
        copy@ == names@,
{
    let mut copy: Vec<String> = Vec::new();
    let mut i: usize = 0;
    while i < names.len()
        invariant
            i <= names@.len(),
            copy@ == names@.take(i as int),
        decreases names@.len() - i,
    {
        copy.push(names[i].clone());
        assert(copy@ =~= names@.take(i + 1));
        i = i + 1;
    }
    assert(names@.take(i as int) =~= names@);
    copy
}

/// The two statements are the same tree.
pub open spec fn same_stmt(a: Stmt, b: Stmt) -> bool
    decreases a,
{
    match (a, b) {
        (Stmt::If(c1, body1), Stmt::If(c2, body2)) => c1 == c2 && same_stmts(body1@, body2@),
        (Stmt::IfElse(c1, then1, else1), Stmt::IfElse(c2, then2, else2)) => c1 == c2
            && same_stmts(then1@, then2@) && same_stmts(else1@, else2@),
        (Stmt::While(c1, body1), Stmt::While(c2, body2)) => c1 == c2 && same_stmts(
            body1@,
            body2@,
        ),
        (Stmt::Assign(t1, e1), Stmt::Assign(t2, e2)) => t1 == t2 && e1 == e2,
        (Stmt::VarDecl(n1, ty1), Stmt::VarDecl(n2, ty2)) => n1@ == n2@ && ty1 == ty2,
        (Stmt::Block(body1), Stmt::Block(body2)) => same_stmts(body1@, body2@),
        (Stmt::Expr(e1), Stmt::Expr(e2)) => e1 == e2,
        _ => false,
    }
}

/// The two sequences hold the same trees, one by one.
pub open spec fn same_stmts(a: Seq<Stmt>, b: Seq<Stmt>) -> bool
    decreases a,
{
    a.len() == b.len() && forall|i: int| 0 <= i < a.len() ==> same_stmt(#[trigger] a[i], b[i])
}

/// A copy of the statements.
pub fn clone_stmts(list: &Vec<Stmt>) -> (copy: Vec<Stmt>)
    ensures
        same_stmts(list@, copy@),
    decreases list, 0nat,
{
    let mut copy: Vec<Stmt> = Vec::new();
    let mut i: usize = 0;
    while i < list.len()
        invariant
            i <= list@.len(),
            copy@.len() == i,
            forall|k: int| 0 <= k < i ==> same_stmt(#[trigger] list@[k], copy@[k]),
        decreases list@.len() - i,
    {
        copy.push(list[i].clone());
        i = i + 1;
    }
    copy
}

impl Clone for Stmt {
    fn clone(&self) -> (copy: Stmt)
        ensures
            same_stmt(*self, copy),
        decreases self, 1nat,
    {
        match self {
            Stmt::If(c, body) => Stmt::If(Box::new((**c).clone()), clone_stmts(body)),
            Stmt::IfElse(c, then_body, else_body) => Stmt::IfElse(
                Box::new((**c).clone()),
                clone_stmts(then_body),
                clone_stmts(else_body),
            ),
            Stmt::While(c, body) => Stmt::While(Box::new((**c).clone()), clone_stmts(body)),
            Stmt::Assign(target, e) => Stmt::Assign(
                (target.0.clone(), target.1, target.2),
                Box::new((**e).clone()),
            ),
            Stmt::VarDecl(names, ty) => Stmt::VarDecl(clone_names(names), *ty),
            Stmt::Block(body) => Stmt::Block(clone_stmts(body)),
            Stmt::Expr(e) => Stmt::Expr(Box::new((**e).clone())),
        }
    }
}

impl Opcode {
    /// The operator is one of the three comparisons.
    pub open spec fn is_comparison(self) -> bool {
        self is GreaterThan || self is Equal || self is LessThan
    }

    /// The operator is one of the three arithmetic operators.
    pub open spec fn is_arithmetic(self) -> bool {
        self is Add || self is Sub || self is Mul
    }

    /// The operator is a short-circuit connective.
    pub open spec fn is_logical(self) -> bool {
        self is And || self is Or
    }
}

} // verus!
