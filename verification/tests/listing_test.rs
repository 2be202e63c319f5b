use compiler::ast::{Expr, Opcode, Stmt, Type};
use compiler::diagnostics::SyntaxError;
use compiler::listing::{format_nop, format_quad, list_quads, list_symbols};
use compiler::parser::ast as tree;
use compiler::parser::print_stmt;
use compiler::quad::{Operator, Quad, QuadItem, State};
use compiler::scheme::SemanticError;
use compiler::shape::{
    compile, count_stmts, expr_ending, expr_is_well_formed, stmt_ending, stmt_is_well_formed, Ending,
};
use compiler::symbols::SymbolTable;
use compiler::text::push_decimal;
use compiler::translate::translate;

fn id(name: &str) -> Box<Expr> {
    Box::new(Expr::Id(name.to_string(), 0, name.len()))
}

fn num(n: u32) -> Box<Expr> {
    Box::new(Expr::Num(n))
}

fn op(code: Opcode, l: Box<Expr>, r: Box<Expr>) -> Box<Expr> {
    Box::new(Expr::Op(code, l, r))
}

fn assign(name: &str, e: Box<Expr>) -> Stmt {
    Stmt::Assign((name.to_string(), 0, name.len()), e)
}

fn first_program() -> Vec<Stmt> {
    vec![
        Stmt::VarDecl(vec!["a".to_string(), "b".to_string()], Type::Int),
        assign("a", num(1)),
        Stmt::If(op(Opcode::GreaterThan, id("a"), id("b")), vec![assign("a", num(2))]),
    ]
}

#[test]
fn listing_of_declarations_and_conditional() {
    let state = translate(&first_program()).unwrap();
    assert_eq!(
        list_quads(&state),
        vec![
            "100:  (:= ,    1,    _,    a)",
            "101:  (j> ,    a,    b,  103)",
            "102:  (j  ,    _,    _,  105)",
            "103:  (:= ,    2,    _,    a)",
            "104:  (j  ,    _,    _,  105)",
            "105:  (nop,    _,    _,    _)",
        ]
    );
    assert_eq!(list_symbols(&state.sym_table), vec!["         a   int", "         b   int"]);
}

#[test]
fn listing_of_nothing_is_one_nop() {
    let state = State::default();
    assert_eq!(list_quads(&state), vec!["100:  (nop,    _,    _,    _)"]);
    assert!(list_symbols(&state.sym_table).is_empty());
}

#[test]
fn last_line_is_a_nop_after_the_last_quadruple() {
    let mut state = State::default();
    for i in 0..12u32 {
        let addr = state.emit(Operator::Add, QuadItem::Num(i), QuadItem::Num(1), QuadItem::Id("$0".to_string()));
        assert_eq!(addr, 100 + i as usize);
    }
    let lines = list_quads(&state);
    assert_eq!(lines.len(), 13);
    for (i, line) in lines.iter().enumerate() {
        assert!(line.starts_with(&format!("{}:  (", 100 + i)));
    }
    assert_eq!(lines[12], "112:  (nop,    _,    _,    _)");
    assert_eq!(format_nop(4711), "4711:  (nop,    _,    _,    _)");
}

#[test]
fn fields_wider_than_their_column_are_not_cut() {
    let quad = Quad {
        op: Operator::Mul,
        arg1: QuadItem::Id("counter".to_string()),
        arg2: QuadItem::Num(123456),
        result: QuadItem::TFList(1, 2),
    };
    assert_eq!(format_quad(100, &quad), "100:  (*  , counter, 123456, <err>)");
    assert_eq!(QuadItem::Empty.to_string(), "_");
    assert_eq!(QuadItem::Num(0).to_string(), "0");
    assert_eq!(QuadItem::Id("$12".to_string()).to_string(), "$12");
    assert_eq!(Operator::JumpEqual.symbol(), "j=");
    assert_eq!(Operator::JumpLess.symbol(), "j<");
    assert_eq!(Operator::Sub.symbol(), "-");
}

#[test]
fn temporaries_are_left_out_of_the_symbol_listing() {
    let mut table = SymbolTable::new();
    table.declare("flag".to_string(), Type::Bool);
    table.declare("$3".to_string(), Type::Int);
    table.declare("a_name_longer_than_ten".to_string(), Type::Int);
    assert_eq!(
        list_symbols(&table),
        vec!["      flag  bool", "a_name_longer_than_ten   int"]
    );
}

#[test]
fn decimal_numerals() {
    let mut out = String::from("n=");
    push_decimal(&mut out, 0);
    out.push(' ');
    push_decimal(&mut out, 9);
    out.push(' ');
    push_decimal(&mut out, 10);
    out.push(' ');
    push_decimal(&mut out, 18446744073709551615);
    assert_eq!(out, "n=0 9 10 18446744073709551615");
}

#[test]
fn message_for_an_undefined_variable() {
    let err = SemanticError::UndefinedVariable("total".to_string(), 14, 19);
    assert_eq!(err.message(), "语义错误：变量 total 未定义\n位置：14~19");
}

#[test]
fn messages_for_syntax_errors() {
    let expected = vec!["\";\"".to_string(), "\"then\"".to_string(), "\"do\"".to_string()];
    assert_eq!(
        SyntaxError::InvalidToken { location: 7 }.message(),
        "语法错误：无效的 token\n位置：7"
    );
    assert_eq!(
        SyntaxError::UnrecognizedEof { location: 30, expected: expected.clone() }.message(),
        "语法错误：预料之外的 EOF，语法不完整，期望 \";\", \"then\", \"do\"\n位置：30"
    );
    assert_eq!(
        SyntaxError::UnrecognizedToken {
            start: 3,
            text: "else".to_string(),
            end: 7,
            expected: vec!["\"then\"".to_string()],
        }
        .message(),
        "语法错误：预料之外的 \"else\"，期望 \"then\"\n位置：3~7"
    );
    assert_eq!(
        SyntaxError::UnrecognizedEof { location: 0, expected: vec![] }.message(),
        "语法错误：预料之外的 EOF，语法不完整，期望 \n位置：0"
    );
    let extra = SyntaxError::ExtraToken { start: 12, text: ")".to_string(), end: 13 };
    assert_eq!(extra.message(), "语法错误：预料之外的 \")\"，此处不应有此 token\n位置：12~13");
    assert_eq!(extra.location(), 12);
    assert_eq!(extra.notice(), "语法错误，位置 12");
}

#[test]
fn descriptions_of_statements() {
    let leaf = || Box::new(tree::Stmt::Assign("a".to_string(), Box::new(tree::Expr::Num(1))));
    let cond = || Box::new(tree::Expr::Id("a".to_string()));
    let mut buf = String::new();
    print_stmt(&leaf(), &mut buf);
    assert_eq!(buf, "赋值语句");

    let mut buf = String::new();
    print_stmt(&tree::Stmt::If(cond(), Box::new(tree::Stmt::While(cond(), leaf()))), &mut buf);
    assert_eq!(buf, " if-then 分支语句，嵌套 while-do 循环语句，嵌套赋值语句");

    let mut buf = String::from(">");
    print_stmt(
        &tree::Stmt::IfElse(
            cond(),
            Box::new(tree::Stmt::Block(vec![])),
            Box::new(tree::Stmt::Expr(cond())),
        ),
        &mut buf,
    );
    assert_eq!(buf, "> if-then-else 分支语句，then 分支嵌套语句块，else 分支嵌套表达式");

    let mut buf = String::new();
    print_stmt(&tree::Stmt::VarDecl(vec!["a".to_string()], tree::Type::Integer), &mut buf);
    assert_eq!(buf, "变量声明语句");
}

#[test]
fn trees_that_are_not_well_formed_are_told_apart() {
    assert!(expr_is_well_formed(&op(Opcode::Add, id("a"), num(1))));
    assert!(expr_is_well_formed(&Expr::Not(op(Opcode::Equal, id("a"), num(1)))));
    assert!(expr_is_well_formed(&op(Opcode::Add, op(Opcode::Equal, id("a"), num(1)), num(1))));
    assert!(!expr_is_well_formed(&Expr::Not(id("a"))));
    assert!(!expr_is_well_formed(&op(Opcode::And, id("a"), op(Opcode::Equal, id("a"), num(1)))));
    assert!(!expr_is_well_formed(&op(Opcode::Or, op(Opcode::Equal, id("a"), num(1)), num(0))));
    assert!(!stmt_is_well_formed(&Stmt::If(id("a"), vec![])));
    assert!(!stmt_is_well_formed(&Stmt::While(num(1), vec![])));
    assert!(!stmt_is_well_formed(&assign("a", op(Opcode::Assign, id("a"), num(1)))));
    assert!(stmt_is_well_formed(&Stmt::Expr(op(Opcode::Assign, id("a"), num(1)))));
    assert!(!stmt_is_well_formed(&Stmt::Block(vec![Stmt::If(id("a"), vec![])])));
    for stmt in first_program() {
        assert!(stmt_is_well_formed(&stmt));
    }
}

#[test]
fn compile_refuses_what_translate_does_not_take() {
    let declare_a = || Stmt::VarDecl(vec!["a".to_string()], Type::Int);
    assert!(compile(&vec![declare_a(), Stmt::If(id("a"), vec![])]).is_none());
    assert!(compile(&vec![declare_a(), Stmt::Expr(Box::new(Expr::Not(num(1))))]).is_none());
    assert!(compile(&vec![declare_a(), assign("a", op(Opcode::Assign, id("a"), num(1)))]).is_none());
    let state = compile(&first_program()).unwrap().unwrap();
    assert_eq!(state.quads.len(), 5);
    let err = compile(&vec![assign("c", num(1))]).unwrap().unwrap_err();
    assert_eq!(err, SemanticError::UndefinedVariable("c".to_string(), 0, 1));
    assert_eq!(count_stmts(&first_program(), 100), Some(5));
    assert_eq!(count_stmts(&first_program(), 5), Some(5));
    assert_eq!(count_stmts(&first_program(), 4), None);
}

#[test]
fn an_undefined_name_comes_before_a_defect() {
    // `if c then ...` tests no condition, but `c` is met first.
    let err = compile(&vec![Stmt::If(id("c"), vec![])]).unwrap().unwrap_err();
    assert_eq!(err, SemanticError::UndefinedVariable("c".to_string(), 0, 1));
    let mut table = SymbolTable::new();
    assert_eq!(stmt_ending(&Stmt::If(id("c"), vec![]), &mut table), Ending::Undefined);
    table.declare("c".to_string(), Type::Bool);
    assert_eq!(stmt_ending(&Stmt::If(id("c"), vec![]), &mut table), Ending::Defect);
    assert_eq!(expr_ending(&op(Opcode::Add, id("c"), num(1)), &table), Ending::Done);
    assert_eq!(expr_ending(&op(Opcode::Add, id("d"), num(1)), &table), Ending::Undefined);
    let decl = Stmt::VarDecl(vec!["d".to_string()], Type::Int);
    assert_eq!(stmt_ending(&decl, &mut table), Ending::Done);
    assert!(table.contains("d"));
}

#[test]
fn a_condition_as_an_operand_keeps_its_lists() {
    // (a < 1) + 2 on its own: the lists of the comparison are never filled.
    let program = vec![
        Stmt::VarDecl(vec!["a".to_string()], Type::Int),
        Stmt::Expr(op(Opcode::Add, op(Opcode::LessThan, id("a"), num(1)), num(2))),
    ];
    let state = compile(&program).unwrap().unwrap();
    assert_eq!(
        list_quads(&state),
        vec![
            "100:  (j< ,    a,    1,    0)",
            "101:  (j  ,    _,    _,    0)",
            "102:  (+  , <err>,    2,   $0)",
            "103:  (nop,    _,    _,    _)",
        ]
    );
    assert_eq!(state.quads[2].arg1, QuadItem::TFList(100, 101));
}

#[test]
fn a_condition_on_its_own_keeps_its_lists() {
    // a < 1 and a > 0, as a statement
    let cond = op(
        Opcode::And,
        op(Opcode::LessThan, id("a"), num(1)),
        op(Opcode::GreaterThan, id("a"), num(0)),
    );
    let program = vec![Stmt::VarDecl(vec!["a".to_string()], Type::Int), Stmt::Expr(cond)];
    let state = compile(&program).unwrap().unwrap();
    assert_eq!(
        list_quads(&state),
        vec![
            "100:  (j< ,    a,    1,  102)",
            "101:  (j  ,    _,    _,    0)",
            "102:  (j> ,    a,    0,    0)",
            "103:  (j  ,    _,    _,  101)",
            "104:  (nop,    _,    _,    _)",
        ]
    );
}

#[test]
fn a_copy_of_a_tree_is_the_same_tree() {
    let program = first_program();
    let copy: Vec<Stmt> = program.iter().map(|s| s.clone()).collect();
    assert_eq!(format!("{:?}", copy), format!("{:?}", program));
    assert_eq!(translate(&copy).unwrap().quads, translate(&program).unwrap().quads);
    let e = op(Opcode::Mul, id("a"), Box::new(Expr::Not(num(1))));
    assert_eq!(format!("{:?}", e.clone()), format!("{:?}", e));

    let nested = tree::Stmt::IfElse(
        Box::new(tree::Expr::Op(
            tree::Opcode::LessThan,
            Box::new(tree::Expr::Id("a".to_string())),
            Box::new(tree::Expr::Num(2)),
        )),
        Box::new(tree::Stmt::Block(vec![tree::Stmt::VarDecl(
            vec!["x".to_string(), "y".to_string()],
            tree::Type::Integer,
        )])),
        Box::new(tree::Stmt::Assign("a".to_string(), Box::new(tree::Expr::Num(1)))),
    );
    assert_eq!(format!("{:?}", nested.clone()), format!("{:?}", nested));
}

#[test]
fn items_from_plain_values() {
    assert_eq!(QuadItem::from(7u32), QuadItem::Num(7));
    assert_eq!(QuadItem::from(105usize), QuadItem::Num(105));
    assert_eq!(QuadItem::from("a".to_string()), QuadItem::Id("a".to_string()));
    assert_eq!(QuadItem::from(()), QuadItem::Empty);
    assert_eq!(QuadItem::Id("a".to_string()).clone(), QuadItem::Id("a".to_string()));
}
