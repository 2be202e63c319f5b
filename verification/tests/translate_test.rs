use compiler::ast::{Expr, Opcode, Stmt, Type};
use compiler::quad::{Operator, Quad, QuadItem, State};
use compiler::scheme::SemanticError;
use compiler::translate::{translate, visit_expr, visit_stmt};

fn id(name: &str) -> Box<Expr> {
    Box::new(Expr::Id(name.to_string(), 0, name.len()))
}

fn num(n: u32) -> Box<Expr> {
    Box::new(Expr::Num(n))
}

fn op(code: Opcode, l: Box<Expr>, r: Box<Expr>) -> Box<Expr> {
    Box::new(Expr::Op(code, l, r))
}

fn assign(name: &str, e: Box<Expr>) -> Stmt {
    Stmt::Assign((name.to_string(), 0, name.len()), e)
}

fn decl(names: &[&str]) -> Stmt {
    Stmt::VarDecl(names.iter().map(|n| n.to_string()).collect(), Type::Int)
}

fn name(s: &str) -> QuadItem {
    QuadItem::Id(s.to_string())
}

fn quad(op: Operator, arg1: QuadItem, arg2: QuadItem, result: QuadItem) -> Quad {
    Quad { op, arg1, arg2, result }
}

fn jump(target: u32) -> Quad {
    quad(Operator::Jump, QuadItem::Empty, QuadItem::Empty, QuadItem::Num(target))
}

fn store(value: QuadItem, target: &str) -> Quad {
    quad(Operator::Assign, value, QuadItem::Empty, name(target))
}

#[test]
fn declarations_and_conditional() {
    let program = vec![
        decl(&["a", "b"]),
        assign("a", num(1)),
        Stmt::If(op(Opcode::GreaterThan, id("a"), id("b")), vec![assign("a", num(2))]),
    ];
    let state = translate(&program).unwrap();
    assert_eq!(
        state.quads,
        vec![
            store(QuadItem::Num(1), "a"),
            quad(Operator::JumpGreater, name("a"), name("b"), QuadItem::Num(103)),
            jump(105),
            store(QuadItem::Num(2), "a"),
            jump(105),
        ]
    );
    assert_eq!(state.quad_id(), 105);
    assert_eq!(state.sym_table.len(), 2);
    assert_eq!(state.sym_table.lookup("a"), Some(Type::Int));
    assert_eq!(state.sym_table.lookup("b"), Some(Type::Int));
    assert_eq!(state.sym_table.lookup("c"), None);
}

#[test]
fn undefined_variable_aborts() {
    let program = vec![Stmt::Assign(("c".to_string(), 0, 1), num(1))];
    let err = translate(&program).unwrap_err();
    assert_eq!(err, SemanticError::UndefinedVariable("c".to_string(), 0, 1));
}

#[test]
fn undefined_variable_in_an_expression_names_its_span() {
    let program = vec![
        decl(&["a"]),
        assign("a", op(Opcode::Add, id("a"), Box::new(Expr::Id("zz".to_string(), 7, 9)))),
    ];
    let err = translate(&program).unwrap_err();
    assert_eq!(err, SemanticError::UndefinedVariable("zz".to_string(), 7, 9));
}

#[test]
fn a_declaration_that_comes_later_does_not_count() {
    let program = vec![assign("a", num(1)), decl(&["a"])];
    let err = translate(&program).unwrap_err();
    assert_eq!(err, SemanticError::UndefinedVariable("a".to_string(), 0, 1));
}

#[test]
fn boolean_materialization() {
    let program = vec![decl(&["x"]), assign("x", op(Opcode::LessThan, num(1), num(2)))];
    let state = translate(&program).unwrap();
    assert_eq!(
        state.quads,
        vec![
            quad(Operator::JumpLess, QuadItem::Num(1), QuadItem::Num(2), QuadItem::Num(102)),
            jump(103),
            store(QuadItem::Num(1), "x"),
            store(QuadItem::Num(0), "x"),
        ]
    );
}

#[test]
fn loop_back_edge() {
    let program = vec![
        decl(&["a", "b"]),
        Stmt::While(
            op(Opcode::LessThan, id("a"), id("b")),
            vec![assign("a", op(Opcode::Add, id("a"), num(1)))],
        ),
    ];
    let state = translate(&program).unwrap();
    assert_eq!(
        state.quads,
        vec![
            quad(Operator::JumpLess, name("a"), name("b"), QuadItem::Num(102)),
            jump(105),
            quad(Operator::Add, name("a"), QuadItem::Num(1), name("$0")),
            store(name("$0"), "a"),
            jump(100),
        ]
    );
    assert_eq!(state.tmp_var_id, 1);
}

#[test]
fn if_else_jumps_over_the_second_body() {
    let program = vec![
        decl(&["a"]),
        Stmt::IfElse(
            op(Opcode::Equal, id("a"), num(0)),
            vec![assign("a", num(1))],
            vec![assign("a", num(2)), assign("a", num(3))],
        ),
    ];
    let state = translate(&program).unwrap();
    assert_eq!(
        state.quads,
        vec![
            quad(Operator::JumpEqual, name("a"), QuadItem::Num(0), QuadItem::Num(102)),
            jump(104),
            store(QuadItem::Num(1), "a"),
            jump(106),
            store(QuadItem::Num(2), "a"),
            store(QuadItem::Num(3), "a"),
        ]
    );
}

#[test]
fn and_or_not_short_circuit() {
    // if (a < b and not (a = 1)) or b > 2 then a := 0
    let cond = op(
        Opcode::Or,
        op(
            Opcode::And,
            op(Opcode::LessThan, id("a"), id("b")),
            Box::new(Expr::Not(op(Opcode::Equal, id("a"), num(1)))),
        ),
        op(Opcode::GreaterThan, id("b"), num(2)),
    );
    let program = vec![decl(&["a", "b"]), Stmt::If(cond, vec![assign("a", num(0))])];
    let state = translate(&program).unwrap();
    assert_eq!(
        state.quads,
        vec![
            quad(Operator::JumpLess, name("a"), name("b"), QuadItem::Num(102)),
            jump(104),
            quad(Operator::JumpEqual, name("a"), QuadItem::Num(1), QuadItem::Num(104)),
            jump(106),
            quad(Operator::JumpGreater, name("b"), QuadItem::Num(2), QuadItem::Num(106)),
            jump(108),
            store(QuadItem::Num(0), "a"),
            jump(108),
        ]
    );
}

#[test]
fn arithmetic_takes_fresh_temporaries() {
    // a := (a + 1) * (a - 2)
    let e = op(
        Opcode::Mul,
        op(Opcode::Add, id("a"), num(1)),
        op(Opcode::Sub, id("a"), num(2)),
    );
    let program = vec![decl(&["a"]), assign("a", e)];
    let state = translate(&program).unwrap();
    assert_eq!(
        state.quads,
        vec![
            quad(Operator::Add, name("a"), QuadItem::Num(1), name("$0")),
            quad(Operator::Sub, name("a"), QuadItem::Num(2), name("$1")),
            quad(Operator::Mul, name("$0"), name("$1"), name("$2")),
            store(name("$2"), "a"),
        ]
    );
    assert_eq!(state.tmp_var_id, 3);
    assert_eq!(state.sym_table.len(), 1);
}

#[test]
fn expression_entry_is_the_next_address_where_nothing_is_emitted() {
    let mut state = State::default();
    state.sym_table.declare("a".to_string(), Type::Int);
    let (value, entry) = visit_expr(&Expr::Id("a".to_string(), 0, 1), &mut state).unwrap();
    assert_eq!(value, name("a"));
    assert_eq!(entry, 100);
    assert!(state.quads.is_empty());
    let (value, entry) = visit_expr(&Expr::Num(7), &mut state).unwrap();
    assert_eq!(value, QuadItem::Num(7));
    assert_eq!(entry, 100);
}

#[test]
fn comparison_leaves_two_open_lists() {
    let mut state = State::default();
    state.sym_table.declare("a".to_string(), Type::Int);
    let e = op(Opcode::GreaterThan, op(Opcode::Add, id("a"), num(1)), num(2));
    let (value, entry) = visit_expr(&e, &mut state).unwrap();
    assert_eq!(entry, 100);
    assert_eq!(value, QuadItem::TFList(101, 102));
    assert_eq!(
        state.quads,
        vec![
            quad(Operator::Add, name("a"), QuadItem::Num(1), name("$0")),
            quad(Operator::JumpGreater, name("$0"), QuadItem::Num(2), QuadItem::Num(0)),
            jump(0),
        ]
    );
}

#[test]
fn assignment_as_an_expression() {
    let mut state = State::default();
    state.sym_table.declare("a".to_string(), Type::Int);
    let stmt = Stmt::Expr(op(Opcode::Assign, id("a"), num(5)));
    visit_stmt(&stmt, &mut state).unwrap();
    assert_eq!(state.quads, vec![store(QuadItem::Num(5), "a")]);
}

#[test]
fn redeclaration_overwrites_the_type() {
    let program = vec![
        Stmt::VarDecl(vec!["a".to_string(), "b".to_string()], Type::Int),
        Stmt::VarDecl(vec!["a".to_string()], Type::Bool),
    ];
    let state = translate(&program).unwrap();
    assert_eq!(state.sym_table.len(), 2);
    assert_eq!(state.sym_table.lookup("a"), Some(Type::Bool));
    assert_eq!(state.sym_table.lookup("b"), Some(Type::Int));
    assert_eq!(state.sym_table.name_at(0), "a");
    assert_eq!(state.sym_table.name_at(1), "b");
    assert!(state.sym_table.contains("a"));
    assert!(!state.sym_table.contains("$0"));
}

#[test]
fn block_and_nested_statements() {
    let program = vec![
        decl(&["a"]),
        Stmt::Block(vec![
            assign("a", num(1)),
            Stmt::While(
                op(Opcode::LessThan, id("a"), num(9)),
                vec![Stmt::If(op(Opcode::Equal, id("a"), num(3)), vec![assign("a", num(4))])],
            ),
        ]),
    ];
    let state = translate(&program).unwrap();
    assert_eq!(
        state.quads,
        vec![
            store(QuadItem::Num(1), "a"),
            quad(Operator::JumpLess, name("a"), QuadItem::Num(9), QuadItem::Num(103)),
            jump(108),
            quad(Operator::JumpEqual, name("a"), QuadItem::Num(3), QuadItem::Num(105)),
            jump(107),
            store(QuadItem::Num(4), "a"),
            jump(107),
            jump(101),
        ]
    );
}

#[test]
fn fill_on_the_empty_list_changes_nothing() {
    let mut state = State::default();
    state.emit(Operator::Jump, QuadItem::Empty, QuadItem::Empty, QuadItem::Num(0));
    state.fill_list(0, 500);
    state.fill_list(99, 500);
    assert_eq!(state.quads, vec![jump(0)]);
}

#[test]
fn merge_with_the_empty_list_and_fill_after_merge() {
    let mut state = State::default();
    let a1 = state.emit(Operator::Jump, QuadItem::Empty, QuadItem::Empty, QuadItem::Num(0));
    let a2 = state.emit(Operator::Jump, QuadItem::Empty, QuadItem::Empty, QuadItem::Num(a1 as u32));
    let other = state.emit(Operator::Add, QuadItem::Num(1), QuadItem::Num(2), name("$0"));
    let b1 = state.emit(Operator::Jump, QuadItem::Empty, QuadItem::Empty, QuadItem::Num(0));
    let b2 = state.emit(Operator::Jump, QuadItem::Empty, QuadItem::Empty, QuadItem::Num(b1 as u32));
    assert_eq!((a1, a2, other, b1, b2), (100, 101, 102, 103, 104));

    assert_eq!(state.merge_list(a2, 0), a2);
    assert_eq!(state.quads[0], jump(0));
    assert_eq!(state.quads[1], jump(100));

    let merged = state.merge_list(a2, b2);
    assert_eq!(merged, b2);
    assert_eq!(state.quads[3], jump(101));
    assert_eq!(state.quads[4], jump(103));

    state.fill_list(merged, 777);
    assert_eq!(
        state.quads,
        vec![
            jump(777),
            jump(777),
            quad(Operator::Add, QuadItem::Num(1), QuadItem::Num(2), name("$0")),
            jump(777),
            jump(777),
        ]
    );
}

#[test]
fn temporaries_are_numbered_from_zero() {
    let mut state = State::default();
    assert_eq!(state.request_tmp_var(), name("$0"));
    assert_eq!(state.request_tmp_var(), name("$1"));
    for _ in 2..10 {
        state.request_tmp_var();
    }
    assert_eq!(state.request_tmp_var(), name("$10"));
    assert_eq!(state.quad_id(), 100);
    assert_eq!(QuadItem::Num(9).to_num(), 9);
    assert_eq!(QuadItem::TFList(3, 4).to_lists(), (3, 4));
}

#[test]
fn every_jump_has_its_target_after_translation() {
    // while (a < b or not (a = 3)) and b > 0 do
    //   if a = b then a := a + 1 else begin b := b - 1; c := a < b end
    let cond = op(
        Opcode::And,
        op(
            Opcode::Or,
            op(Opcode::LessThan, id("a"), id("b")),
            Box::new(Expr::Not(op(Opcode::Equal, id("a"), num(3)))),
        ),
        op(Opcode::GreaterThan, id("b"), num(0)),
    );
    let body = Stmt::IfElse(
        op(Opcode::Equal, id("a"), id("b")),
        vec![assign("a", op(Opcode::Add, id("a"), num(1)))],
        vec![Stmt::Block(vec![
            assign("b", op(Opcode::Sub, id("b"), num(1))),
            assign("c", op(Opcode::LessThan, id("a"), id("b"))),
        ])],
    );
    let program = vec![decl(&["a", "b", "c"]), Stmt::While(cond, vec![body])];
    let state = translate(&program).unwrap();
    let end = state.quad_id() as u32;
    assert_eq!(end, 100 + state.quads.len() as u32);
    let mut jumps = 0;
    for q in &state.quads {
        match q.op {
            Operator::Jump | Operator::JumpGreater | Operator::JumpEqual | Operator::JumpLess => {
                jumps += 1;
                match q.result {
                    QuadItem::Num(target) => assert!(100 <= target && target <= end),
                    _ => panic!(),
                }
            }
            _ => assert!(matches!(q.result, QuadItem::Id(_))),
        }
    }
    assert_eq!(jumps, 12);
    assert_eq!(state.quads[0].result, QuadItem::Num(104));
    assert_eq!(state.quads[1].result, QuadItem::Num(102));
    assert_eq!(state.quads[2].result, QuadItem::Num(end));
    assert_eq!(state.quads[3].result, QuadItem::Num(104));
    assert_eq!(state.quads[4].result, QuadItem::Num(106));
    assert_eq!(state.quads[5].result, QuadItem::Num(end));
    assert_eq!(state.quads[state.quads.len() - 1], jump(100));
}
