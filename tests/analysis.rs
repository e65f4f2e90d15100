use minic::analyzer::analyze_program;
use minic::code::{Addr, Code};
use minic::context::Context;
use minic::nodes::{
    AssignNd, BlockNd, BreakNd, CalcItem, ContinueNd, DeclareNd, ExprNd, FactorNd, FuncCallNd, FuncNd,
    GItemNd, IfNd, ItemNd, ReturnNd, RootNd, StmtNd, VarNd, WhileNd,
};
use minic::types::{ErrKind, FuncType, Op, Type, Value};

fn s(x: &str) -> String {
    x.to_string()
}

fn lit(n: i32) -> CalcItem {
    CalcItem::Factor(FactorNd::Value(Value::Int(n)))
}

fn var(x: &str) -> CalcItem {
    CalcItem::Factor(FactorNd::Var(VarNd::new(s(x))))
}

fn op(o: Op) -> CalcItem {
    CalcItem::Op(o)
}

fn expr(items: Vec<CalcItem>) -> ExprNd {
    ExprNd::new(items)
}

fn call(f: &str, args: Vec<ExprNd>) -> CalcItem {
    CalcItem::Factor(FactorNd::Func(FuncCallNd::new(VarNd::new(s(f)), args)))
}

fn decl(x: &str, init: Option<ExprNd>) -> ItemNd {
    ItemNd::Stmt(StmtNd::Declare(DeclareNd::new(Type::Int, VarNd::new(s(x)), init)))
}

fn block(items: Vec<ItemNd>) -> ItemNd {
    ItemNd::Block(BlockNd::new(items))
}

fn ret(e: Option<ExprNd>) -> ItemNd {
    ItemNd::Return(ReturnNd::new(e))
}

fn func(name: &str, params: Vec<(Type, Option<VarNd>)>, body: Option<Vec<ItemNd>>) -> GItemNd {
    GItemNd::Func(FuncNd::new(Type::Int, VarNd::new(s(name)), params, body.map(BlockNd::new)))
}

fn main_fn(body: Vec<ItemNd>) -> GItemNd {
    func("main", vec![], Some(body))
}

fn global(x: &str, init: Option<ExprNd>) -> GItemNd {
    GItemNd::Declare(DeclareNd::new(Type::Int, VarNd::new(s(x)), init))
}

fn int_fn(n: usize) -> FuncType {
    FuncType { params: vec![Type::Int; n], ret: Type::Int }
}

#[test]
fn shadowing_restores_outer_binding() {
    let mut c = Context::new();
    let outer = c.declare_var(&s("x"), Type::Int).unwrap();
    c.in_scope();
    let inner = c.declare_var(&s("x"), Type::Int).unwrap();
    assert_ne!(inner, outer);
    assert_eq!(c.fetch(&s("x")), Ok(inner));
    c.out_scope();
    assert_eq!(c.fetch(&s("x")), Ok(outer));
}

#[test]
fn redeclare_in_same_scope_fails() {
    let mut c = Context::new();
    c.in_scope();
    assert!(c.declare_var(&s("y"), Type::Int).is_ok());
    assert_eq!(c.declare_var(&s("y"), Type::Int), Err(ErrKind::ReDeclare));
    assert_eq!(c.declare_fn(&s("y"), &int_fn(0)), Err(ErrKind::ReDeclare));
}

#[test]
fn fetch_unknown_name_fails() {
    let c = Context::new();
    assert_eq!(c.fetch(&s("nothing")), Err(ErrKind::NoDeclare));
}

#[test]
fn cursor_advances_by_type_size() {
    let mut c = Context::new();
    let a = c.declare_var(&s("a"), Type::Int).unwrap();
    let v = c.declare_var(&s("v"), Type::Void).unwrap();
    let b = c.declare_var(&s("b"), Type::Int).unwrap();
    assert_eq!(c.records[a].layout.start, 0);
    assert_eq!(c.records[v].layout.start, 1);
    assert_eq!(c.records[b].layout.start, 1);
    assert_eq!(c.cur_offset, 2);
    assert_eq!(c.get_off_by_id(0), 2);
}

#[test]
fn loop_scope_lookup() {
    let mut c = Context::new();
    assert_eq!(c.get_loop_scope(), None);
    let l = c.enter_loop_scope();
    c.in_scope();
    assert_eq!(c.get_loop_scope(), Some(l));
}

#[test]
fn reimplementation_fails() {
    let mut c = Context::new();
    let id = c.impl_fn(&s("f"), &int_fn(1)).unwrap();
    assert_eq!(c.get_cur_func_id(), id);
    c.in_scope();
    c.out_scope();
    assert_eq!(c.get_cur_func_id(), 0);
    assert_eq!(c.impl_fn(&s("f"), &int_fn(1)), Err(ErrKind::ReImpl));
    assert_eq!(c.impl_fn(&s("f"), &int_fn(2)), Err(ErrKind::TypeErr));
}

#[test]
fn implementing_a_prototype_succeeds() {
    let mut c = Context::new();
    let id = c.declare_fn(&s("g"), &int_fn(2)).unwrap();
    assert_eq!(c.impl_fn(&s("g"), &int_fn(2)), Ok(id));
}

#[test]
fn call_arity_and_argument_types() {
    let mut c = Context::new();
    c.declare_fn(&s("f"), &int_fn(1)).unwrap();
    c.declare_var(&s("v"), Type::Void).unwrap();
    let mut good = expr(vec![call("f", vec![expr(vec![lit(3)])])]);
    assert_eq!(good.analyze(&c), Ok(Type::Int));
    let mut bad_type = expr(vec![call("f", vec![expr(vec![var("v")])])]);
    assert_eq!(bad_type.analyze(&c), Err(ErrKind::TypeErr));
    let mut bad_arity = expr(vec![call("f", vec![expr(vec![lit(1)]), expr(vec![lit(2)])])]);
    assert_eq!(bad_arity.analyze(&c), Err(ErrKind::TypeErr));
}

#[test]
fn expression_stack_typing() {
    let mut c = Context::new();
    c.declare_var(&s("v"), Type::Void).unwrap();
    assert_eq!(expr(vec![lit(1), lit(2), op(Op::Add)]).analyze(&c), Ok(Type::Int));
    assert_eq!(expr(vec![lit(1), lit(2)]).analyze(&c), Err(ErrKind::TypeErr));
    assert_eq!(expr(vec![var("v"), op(Op::Neg)]).analyze(&c), Err(ErrKind::TypeErr));
    assert_eq!(expr(vec![var("w")]).analyze(&c), Err(ErrKind::NoDeclare));
}

#[test]
fn break_cleanup_counts_nested_locals() {
    let brk = ItemNd::Break(BreakNd::new());
    let inner = block(vec![decl("b", None), brk]);
    let outer = block(vec![decl("a", None), inner]);
    let w = ItemNd::While(Box::new(WhileNd::new(expr(vec![lit(1)]), outer)));
    let mut root = RootNd::new(vec![main_fn(vec![w, ret(Some(expr(vec![lit(0)])))])]);
    assert!(analyze_program(&mut root).is_ok());
    let GItemNd::Func(f) = &root.items[0] else { panic!() };
    let ItemNd::While(w) = &f.block.as_ref().unwrap().items[0] else { panic!() };
    let ItemNd::Block(b1) = &w.item else { panic!() };
    let ItemNd::Block(b2) = &b1.items[1] else { panic!() };
    let ItemNd::Break(b) = &b2.items[1] else { panic!() };
    assert_eq!(b.get_pop_off(), 2);
    assert_eq!(b.get_id(), w.get_id());
}

#[test]
fn break_outside_loop_fails() {
    let mut root = RootNd::new(vec![main_fn(vec![ItemNd::Break(BreakNd::new())])]);
    assert_eq!(analyze_program(&mut root).err(), Some(ErrKind::JumpNoLoop));
    let mut root = RootNd::new(vec![main_fn(vec![ItemNd::Continue(ContinueNd::new())])]);
    assert_eq!(analyze_program(&mut root).err(), Some(ErrKind::JumpNoLoop));
}

#[test]
fn global_constant_folds() {
    let e = expr(vec![lit(1), lit(2), lit(3), op(Op::Mul), op(Op::Add)]);
    assert_eq!(e.try_retrieve_const(), Some(7));
    let d = DeclareNd::new(Type::Int, VarNd::new(s("g")), None);
    assert_eq!(d.try_retrieve_const(), Some(0));
    assert_eq!(expr(vec![lit(1), lit(0), op(Op::Div)]).try_retrieve_const(), None);
    assert_eq!(expr(vec![lit(i32::MAX), lit(1), op(Op::Add)]).try_retrieve_const(), None);
    assert_eq!(expr(vec![lit(7), lit(2), op(Op::Mod)]).try_retrieve_const(), Some(1));
    assert_eq!(expr(vec![lit(-7), lit(2), op(Op::Div)]).try_retrieve_const(), Some(-3));
    assert_eq!(expr(vec![lit(5), op(Op::Neg)]).try_retrieve_const(), Some(-5));
    assert_eq!(expr(vec![lit(2), lit(3), op(Op::Lt)]).try_retrieve_const(), Some(1));
}

#[test]
fn global_needs_constant() {
    let mut root = RootNd::new(vec![
        global("a", Some(expr(vec![lit(1)]))),
        global("b", Some(expr(vec![var("a"), lit(1), op(Op::Add)]))),
        main_fn(vec![ret(Some(expr(vec![lit(0)])))]),
    ]);
    assert_eq!(analyze_program(&mut root).err(), Some(ErrKind::GlobalNeedConst));
}

#[test]
fn main_with_parameter_fails() {
    let p = vec![(Type::Int, Some(VarNd::new(s("a"))))];
    let mut root = RootNd::new(vec![func("main", p, Some(vec![ret(Some(expr(vec![lit(0)])))]))]);
    assert_eq!(analyze_program(&mut root).err(), Some(ErrKind::TypeErr));
}

#[test]
fn missing_main_fails() {
    let mut root = RootNd::new(vec![func("f", vec![], Some(vec![ret(Some(expr(vec![lit(0)])))]))]);
    assert_eq!(analyze_program(&mut root).err(), Some(ErrKind::NoMainFunc));
}

#[test]
fn unimplemented_function_fails() {
    let mut root = RootNd::new(vec![
        func("f", vec![], None),
        main_fn(vec![ret(Some(expr(vec![lit(0)])))]),
    ]);
    assert_eq!(analyze_program(&mut root).err(), Some(ErrKind::FuncNoImpl));
}

#[test]
fn assignment_type_mismatch_fails() {
    let mut c = Context::new();
    c.declare_var(&s("v"), Type::Void).unwrap();
    let mut a = AssignNd::new(VarNd::new(s("v")), expr(vec![lit(1)]));
    assert_eq!(a.analyze(&c), Err(ErrKind::TypeErr));
}

#[test]
fn return_type_mismatch_fails() {
    let v = (Type::Void, Some(VarNd::new(s("p"))));
    let body = vec![ret(Some(expr(vec![var("p")])))];
    let mut root = RootNd::new(vec![func("f", vec![v], Some(body)), main_fn(vec![ret(None)])]);
    assert_eq!(analyze_program(&mut root).err(), Some(ErrKind::TypeErr));
}

#[test]
fn frame_relative_offsets() {
    let mut root = RootNd::new(vec![
        global("g", Some(expr(vec![lit(4)]))),
        global("h", None),
        main_fn(vec![decl("x", Some(expr(vec![lit(1)]))), decl("y", None), ret(Some(expr(vec![var("y")])))]),
    ]);
    let m = analyze_program(&mut root).unwrap();
    let GItemNd::Func(f) = &root.items[2] else { panic!() };
    let StmtNd::Declare(x) = (match &f.block.as_ref().unwrap().items[0] { ItemNd::Stmt(s) => s, _ => panic!() }) else { panic!() };
    let StmtNd::Declare(y) = (match &f.block.as_ref().unwrap().items[1] { ItemNd::Stmt(s) => s, _ => panic!() }) else { panic!() };
    assert_eq!(m.offsets[x.var.get_id()], 0);
    assert_eq!(m.offsets[y.var.get_id()], 1);
    let GItemNd::Declare(h) = &root.items[1] else { panic!() };
    assert_eq!(m.offsets[h.var.get_id()], 1);
    assert_eq!(m.main_id, f.var.get_id());
}

#[test]
fn if_else_analyzes_both_branches() {
    let els = minic::nodes::ElsNd::Item(block(vec![decl("q", Some(expr(vec![var("nope")])))]));
    let i = IfNd::new(expr(vec![lit(1)]), block(vec![]), Some(els));
    let mut root = RootNd::new(vec![main_fn(vec![ItemNd::If(Box::new(i))])]);
    assert_eq!(analyze_program(&mut root).err(), Some(ErrKind::NoDeclare));
}

#[test]
fn check_requires_named_parameters() {
    let f = FuncNd::new(Type::Int, VarNd::new(s("f")), vec![(Type::Int, None)], Some(BlockNd::new(vec![])));
    assert!(!f.check());
    let p = FuncNd::new(Type::Int, VarNd::new(s("f")), vec![(Type::Int, None)], None);
    assert!(p.check());
    let t = p.func_ty();
    assert_eq!(t.params, vec![Type::Int]);
    assert_eq!(t.ret, Type::Int);
}

#[test]
fn single_variable_expression() {
    let e = expr(vec![var("z")]);
    assert_eq!(e.try_to_var().map(|v| v.name), Some(s("z")));
    assert!(expr(vec![lit(1)]).try_to_var().is_none());
    assert!(decl("z", None).is_declare());
    assert!(!ret(None).is_declare());
}

#[test]
fn addresses_are_global_or_frame_relative() {
    let mut root = RootNd::new(vec![
        global("g", Some(expr(vec![lit(4)]))),
        main_fn(vec![decl("x", None), ItemNd::Stmt(StmtNd::Print(VarNd::new(s("g")))), ItemNd::Stmt(StmtNd::Print(VarNd::new(s("x"))))]),
    ]);
    let m = analyze_program(&mut root).unwrap();
    let out = root.compile(&m);
    assert_eq!(out.memory, vec![4]);
    assert_eq!(
        out.code[2..],
        [
            Code::PushV(0),
            Code::Store(Addr::Indirect(0)),
            Code::PushA(Addr::Direct(0)),
            Code::Print,
            Code::Pop,
            Code::PushA(Addr::Indirect(0)),
            Code::Print,
            Code::Pop,
            Code::Ret,
        ]
    );
}

#[test]
fn empty_program_has_no_main() {
    let mut root = RootNd::new(vec![]);
    assert_eq!(analyze_program(&mut root).err(), Some(ErrKind::NoMainFunc));
}

#[test]
fn main_as_variable_fails() {
    let mut root = RootNd::new(vec![global("main", Some(expr(vec![lit(0)])))]);
    assert_eq!(analyze_program(&mut root).err(), Some(ErrKind::TypeErr));
}

#[test]
fn shadowed_global_is_addressed_in_frame() {
    let print = |x: &str| ItemNd::Stmt(StmtNd::Print(VarNd::new(s(x))));
    let inner = block(vec![decl("x", Some(expr(vec![lit(2)]))), print("x")]);
    let mut root = RootNd::new(vec![
        global("x", Some(expr(vec![lit(1)]))),
        main_fn(vec![inner, print("x"), ret(Some(expr(vec![lit(0)])))]),
    ]);
    let m = analyze_program(&mut root).unwrap();
    let out = root.compile(&m);
    assert_eq!(
        out.code[2..10],
        [
            Code::PushV(2),
            Code::Store(Addr::Indirect(0)),
            Code::PushA(Addr::Indirect(0)),
            Code::Print,
            Code::Pop,
            Code::PushA(Addr::Direct(0)),
            Code::Print,
            Code::Pop,
        ]
    );
}

#[test]
fn void_global_is_accepted_without_constant() {
    let v = GItemNd::Declare(DeclareNd::new(Type::Void, VarNd::new(s("v")), None));
    let mut root = RootNd::new(vec![v, main_fn(vec![ret(Some(expr(vec![lit(0)])))])]);
    let m = analyze_program(&mut root).unwrap();
    assert_eq!(root.compile(&m).memory, Vec::<i32>::new());
}

#[test]
fn failed_break_leaves_node_unchanged() {
    let c = Context::new();
    let mut b = BreakNd::new();
    assert_eq!(b.analyze(&c), Err(ErrKind::JumpNoLoop));
    assert_eq!(b.get_id(), 0);
    assert_eq!(b.get_pop_off(), 0);
}

#[test]
fn parameters_get_consecutive_fresh_ids() {
    let p = vec![(Type::Int, Some(VarNd::new(s("a")))), (Type::Int, Some(VarNd::new(s("b"))))];
    let mut root = RootNd::new(vec![
        func("f", p, Some(vec![ret(Some(expr(vec![var("a"), var("b"), op(Op::Add)])))])),
        main_fn(vec![ret(Some(expr(vec![lit(0)])))]),
    ]);
    assert!(analyze_program(&mut root).is_ok());
    let GItemNd::Func(f) = &root.items[0] else { panic!() };
    let a = f.params[0].1.as_ref().unwrap().get_id();
    let b = f.params[1].1.as_ref().unwrap().get_id();
    assert!(a > f.var.get_id());
    assert_eq!(b, a + 1);
}
