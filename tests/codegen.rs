use minic::analyzer::analyze_program;
use minic::code::{Addr, Code};
use minic::codegen::{link, Emitter};
use minic::nodes::{
    BlockNd, BreakNd, CalcItem, DeclareNd, ElsNd, ExprNd, FactorNd, FuncCallNd, FuncNd, GItemNd, IfNd,
    ItemNd, ReturnNd, RootNd, StmtNd, VarNd, WhileNd,
};
use minic::types::{calc_op_1, calc_op_2, get_op_param_num, get_type_size, Op, Type, Value};

fn lit(n: i32) -> CalcItem {
    CalcItem::Factor(FactorNd::Value(Value::Int(n)))
}

fn var(x: &str) -> CalcItem {
    CalcItem::Factor(FactorNd::Var(VarNd::new(x.to_string())))
}

fn expr(items: Vec<CalcItem>) -> ExprNd {
    ExprNd::new(items)
}

fn ret(e: Option<ExprNd>) -> ItemNd {
    ItemNd::Return(ReturnNd::new(e))
}

fn func(name: &str, params: Vec<(Type, Option<VarNd>)>, body: Vec<ItemNd>) -> GItemNd {
    GItemNd::Func(FuncNd::new(Type::Int, VarNd::new(name.to_string()), params, Some(BlockNd::new(body))))
}

fn decl(x: &str, init: Option<ExprNd>) -> ItemNd {
    ItemNd::Stmt(StmtNd::Declare(DeclareNd::new(Type::Int, VarNd::new(x.to_string()), init)))
}

fn compile(items: Vec<GItemNd>) -> Emitter {
    let mut root = RootNd::new(items);
    let m = analyze_program(&mut root).unwrap();
    root.compile(&m)
}

/// Replays arithmetic instructions over an operand stack.
fn replay(code: &[Code]) -> Vec<i32> {
    let mut st: Vec<i32> = Vec::new();
    for c in code {
        match c {
            Code::PushV(n) => st.push(*n),
            Code::Op(o) => {
                if get_op_param_num(*o) == 1 {
                    let a = st.pop().unwrap();
                    st.push(calc_op_1(*o, a).unwrap());
                } else {
                    let b = st.pop().unwrap();
                    let a = st.pop().unwrap();
                    st.push(calc_op_2(*o, a, b).unwrap());
                }
            }
            _ => panic!("not arithmetic"),
        }
    }
    st
}

#[test]
fn arithmetic_round_trip() {
    let e = expr(vec![lit(1), lit(2), lit(3), op(Op::Mul), op(Op::Add), lit(4), op(Op::Sub)]);
    let out = compile(vec![func("main", vec![], vec![ret(Some(e))])]);
    assert_eq!(out.code[0], Code::Call(2));
    assert_eq!(out.code[1], Code::Exit);
    let n = out.code.len();
    assert_eq!(out.code[n - 2], Code::Ret);
    assert_eq!(out.code[n - 1], Code::Ret);
    assert_eq!(replay(&out.code[2..n - 2]), vec![3]);
}

fn op(o: Op) -> CalcItem {
    CalcItem::Op(o)
}

#[test]
fn globals_fill_memory_image() {
    let out = compile(vec![
        GItemNd::Declare(DeclareNd::new(Type::Int, VarNd::new("g".to_string()), Some(expr(vec![lit(1), lit(2), lit(3), op(Op::Mul), op(Op::Add)])))),
        GItemNd::Declare(DeclareNd::new(Type::Int, VarNd::new("h".to_string()), None)),
        func("main", vec![], vec![ret(Some(expr(vec![var("g")])))]),
    ]);
    assert_eq!(out.memory, vec![7, 0]);
    assert_eq!(out.code[2..], [Code::PushA(Addr::Direct(0)), Code::Ret, Code::Ret]);
}

#[test]
fn calls_are_linked_to_entry_addresses() {
    let p = vec![(Type::Int, Some(VarNd::new("a".to_string())))];
    let call = CalcItem::Factor(FactorNd::Func(FuncCallNd::new(VarNd::new("f".to_string()), vec![expr(vec![lit(5)])])));
    let out = compile(vec![
        GItemNd::Func(FuncNd::new(Type::Int, VarNd::new("f".to_string()), vec![(Type::Int, None)], None)),
        func("main", vec![], vec![ret(Some(expr(vec![call])))]),
        func("f", p, vec![ret(Some(expr(vec![var("a")])))]),
    ]);
    assert_eq!(
        out.code,
        vec![
            Code::Call(2),
            Code::Exit,
            Code::PushV(5),
            Code::Call(6),
            Code::Ret,
            Code::Ret,
            Code::PushA(Addr::Indirect(0)),
            Code::Ret,
            Code::Ret,
        ]
    );
}

#[test]
fn assignment_and_expression_statements() {
    let assign = ItemNd::Stmt(StmtNd::Assign(minic::nodes::AssignNd::new(VarNd::new("x".to_string()), expr(vec![lit(2)]))));
    let discard = ItemNd::Stmt(StmtNd::Expr(expr(vec![var("x")])));
    let out = compile(vec![func("main", vec![], vec![decl("x", None), assign, discard, ItemNd::Stmt(StmtNd::Empty)])]);
    assert_eq!(
        out.code[2..],
        [
            Code::PushV(0),
            Code::Store(Addr::Indirect(0)),
            Code::PushV(2),
            Code::Store(Addr::Indirect(0)),
            Code::PushA(Addr::Indirect(0)),
            Code::Pop,
            Code::Ret,
        ]
    );
}

#[test]
fn if_else_jumps() {
    let els = ElsNd::Item(ret(Some(expr(vec![lit(2)]))));
    let i = IfNd::new(expr(vec![lit(1)]), ret(Some(expr(vec![lit(3)]))), Some(els));
    let out = compile(vec![func("main", vec![], vec![ItemNd::If(Box::new(i))])]);
    assert_eq!(
        out.code[2..],
        [
            Code::PushV(1),
            Code::CondJump(4),
            Code::PushV(3),
            Code::Ret,
            Code::Jump(3),
            Code::PushV(2),
            Code::Ret,
            Code::Ret,
        ]
    );
}

#[test]
fn if_without_else_jumps_past_branch() {
    let i = IfNd::new(expr(vec![lit(0)]), ret(None), None);
    let out = compile(vec![func("main", vec![], vec![ItemNd::If(Box::new(i))])]);
    assert_eq!(out.code[2..], [Code::PushV(0), Code::CondJump(2), Code::Ret, Code::Ret]);
}

#[test]
fn while_with_break_cleans_up() {
    let body = ItemNd::Block(BlockNd::new(vec![decl("a", None), ItemNd::Break(BreakNd::new())]));
    let w = WhileNd::new(expr(vec![lit(1)]), body);
    let out = compile(vec![func("main", vec![], vec![ItemNd::While(Box::new(w))])]);
    assert_eq!(
        out.code[2..],
        [
            Code::Jump(2),
            Code::Jump(8),
            Code::PushV(1),
            Code::CondJump(6),
            Code::PushV(0),
            Code::Store(Addr::Indirect(0)),
            Code::Pop,
            Code::Jump(-6),
            Code::Jump(-6),
            Code::Ret,
        ]
    );
}

#[test]
fn compilation_is_deterministic() {
    let build = || {
        vec![
            GItemNd::Declare(DeclareNd::new(Type::Int, VarNd::new("g".to_string()), Some(expr(vec![lit(9)])))),
            func("main", vec![], vec![decl("x", Some(expr(vec![var("g"), lit(1), op(Op::Add)]))), ret(Some(expr(vec![var("x")])))]),
        ]
    };
    let mut r1 = RootNd::new(build());
    let mut r2 = RootNd::new(build());
    let m1 = analyze_program(&mut r1).unwrap();
    let m2 = analyze_program(&mut r2).unwrap();
    assert_eq!(m1.offsets, m2.offsets);
    assert_eq!(r1.compile(&m1).code, r2.compile(&m2).code);
}

#[test]
fn link_leaves_unknown_calls() {
    let mut code = vec![Code::Call(4), Code::Call(9), Code::Pop];
    link(&mut code, &vec![(4, 17), (4, 21)]);
    assert_eq!(code, vec![Code::Call(21), Code::Call(9), Code::Pop]);
}

#[test]
fn type_sizes() {
    assert_eq!(get_type_size(Type::Int), 1);
    assert_eq!(get_type_size(Type::Void), 0);
    assert_eq!(get_op_param_num(Op::Not), 1);
    assert_eq!(calc_op_1(Op::Not, 0), Some(1));
    assert_eq!(calc_op_2(Op::Or, 0, 3), Some(1));
    assert_eq!(calc_op_2(Op::Mul, i32::MAX, 2), None);
}

#[test]
fn global_after_function_uses_its_own_cell() {
    let out = compile(vec![
        func("main", vec![], vec![decl("x", None), ret(Some(expr(vec![var("x")])))]),
        GItemNd::Declare(DeclareNd::new(Type::Int, VarNd::new("g".to_string()), Some(expr(vec![lit(5)])))),
        func("f", vec![], vec![ret(Some(expr(vec![var("g")])))]),
    ]);
    assert_eq!(out.memory, vec![0, 5]);
    let n = out.code.len();
    assert_eq!(out.code[n - 3..], [Code::PushA(Addr::Direct(1)), Code::Ret, Code::Ret]);
}
