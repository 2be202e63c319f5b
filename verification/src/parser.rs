//! What the parser builds, and how a statement is described.

pub mod ast;

use ast::Stmt;
use vstd::prelude::*;
use vstd::string::StringExecFns;

verus! {

/// The description of a statement: its kind, and for a statement that
/// holds others the description of those.
pub open spec fn description(stmt: Stmt) -> Seq<char>
    decreases stmt,
{
    match stmt {
        Stmt::If(_, s) => " if-then 分支语句，嵌套"@ + description(*s),
        Stmt::IfElse(_, s, r) => " if-then-else 分支语句，then 分支嵌套"@ + description(*s)
            + "，else 分支嵌套"@ + description(*r),
        Stmt::While(_, s) => " while-do 循环语句，嵌套"@ + description(*s),
        Stmt::Assign(_, _) => "赋值语句"@,
        Stmt::VarDecl(_, _) => "变量声明语句"@,
        Stmt::Block(_) => "语句块"@,
        Stmt::Expr(_) => "表达式"@,
    }
}

/// Appends the description of the statement to `buf`.
pub fn print_stmt(stmt: &Stmt, buf: &mut String)
    ensures
        final(buf)@ == old(buf)@ + description(*stmt),
    decreases stmt,
{
    match stmt {
        Stmt::If(_, s) => {
            buf.append(" if-then 分支语句，嵌套");
            print_stmt(s, buf);
            assert(buf@ =~= old(buf)@ + description(*stmt));
        },
        Stmt::IfElse(_, s, r) => {
            buf.append(" if-then-else 分支语句，then 分支嵌套");
            print_stmt(s, buf);
            buf.append("，else 分支嵌套");
            print_stmt(r, buf);
            assert(buf@ =~= old(buf)@ + description(*stmt));
        },
        Stmt::While(_, s) => {
            buf.append(" while-do 循环语句，嵌套");
            print_stmt(s, buf);
            assert(buf@ =~= old(buf)@ + description(*stmt));
        },
        Stmt::Assign(_, _) => {
            buf.append("赋值语句");
        },
        Stmt::VarDecl(_, _) => {
            buf.append("变量声明语句");
        },
        Stmt::Block(_) => {
            buf.append("语句块");
        },
        Stmt::Expr(_) => {
            buf.append("表达式");
        },
    }
}

} // verus!
