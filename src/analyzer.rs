use vstd::prelude::*;
use crate::context::{bound_in, lemma_prefix_agrees, main_name, names_pushed, Context, Entity, ScopeInfo, SemanticModel, VarInfo};
use crate::nodes::{
    declare_const_of, fold_items, func_type_of, named, AssignNd, BlockNd, BreakNd, CalcItem, ContinueNd, DeclareNd, ElsNd, ExprNd,
    FactorNd, FuncCallNd, FuncNd, GItemNd, IfNd, ItemNd, ReturnNd, RootNd, StmtNd, VarNd, WhileNd,
};
use crate::types::{get_op_param_num, get_type_size, op_arity, type_size, ErrKind, Type};

verus! {

/// The type of the entity `name` resolves to.
pub open spec fn name_type(c: &Context, name: Seq<char>) -> Result<Type, ErrKind> {
    if c.visible(name) {
        Ok(c.type_of(choose|id: usize| c.resolves(name, id)))
    } else {
        Err(ErrKind::NoDeclare)
    }
}

/// The type of an operand, or the first error met while checking it.
pub open spec fn factor_type(c: &Context, f: FactorNd) -> Result<Type, ErrKind>
    decreases f,
{
    match f {
        FactorNd::Var(v) => name_type(c, v.name@),
        FactorNd::Value(_) => Ok(Type::Int),
        FactorNd::Func(call) => call_type(c, call),
    }
}

/// The result type of a call: the callee must be a function whose
/// parameter types match the arguments in number and, one by one, in type.
pub open spec fn call_type(c: &Context, call: FuncCallNd) -> Result<Type, ErrKind>
    decreases call,
{
    if !c.visible(call.var.name@) {
        Err(ErrKind::NoDeclare)
    } else {
        let id = choose|id: usize| c.resolves(call.var.name@, id);
        if !c.is_func(id) {
            Err(ErrKind::TypeErr)
        } else if call.params@.len() != c.func_of(id).ty.params@.len() {
            Err(ErrKind::TypeErr)
        } else {
            match args_check(c, call.params@, c.func_of(id).ty.params@) {
                Ok(_) => Ok(c.func_of(id).ty.ret),
                Err(e) => Err(e),
            }
        }
    }
}

/// Checks arguments left to right against the parameter types `tys`.
pub open spec fn args_check(c: &Context, args: Seq<ExprNd>, tys: Seq<Type>) -> Result<(), ErrKind>
    decreases args,
{
    if args.len() == 0 {
        Ok(())
    } else {
        match args_check(c, args.drop_last(), tys) {
            Err(e) => Err(e),
            Ok(_) => match expr_type(c, args.last()) {
                Err(e) => Err(e),
                Ok(t) => if t != tys[args.len() - 1] {
                    Err(ErrKind::TypeErr)
                } else {
                    Ok(())
                },
            },
        }
    }
}

/// The type stack after simulating `items` on a stack of types: an operator
/// takes integer operands and leaves an integer, an operand pushes its type.
pub open spec fn items_type(c: &Context, items: Seq<CalcItem>) -> Result<Seq<Type>, ErrKind>
    decreases items,
{
    if items.len() == 0 {
        Ok(Seq::empty())
    } else {
        match items_type(c, items.drop_last()) {
            Err(e) => Err(e),
            Ok(st) => match items.last() {
                CalcItem::Op(op) => {
                    let k = op_arity(op);
                    if st.len() < k {
                        Err(ErrKind::TypeErr)
                    } else if exists|j: int| st.len() - k <= j < st.len() && #[trigger] st[j] != Type::Int {
                        Err(ErrKind::TypeErr)
                    } else {
                        Ok(st.subrange(0, st.len() - k).push(Type::Int))
                    }
                },
                CalcItem::Factor(f) => match factor_type(c, f) {
                    Err(e) => Err(e),
                    Ok(t) => Ok(st.push(t)),
                },
            },
        }
    }
}

/// The type of an expression: the simulation must leave exactly one value.
pub open spec fn expr_type(c: &Context, e: ExprNd) -> Result<Type, ErrKind>
    decreases e,
{
    match items_type(c, e.stack@) {
        Err(e) => Err(e),
        Ok(st) => if st.len() != 1 {
            Err(ErrKind::TypeErr)
        } else {
            Ok(st[0])
        },
    }
}

/// Whether every name in operand `f` carries the entity it resolves to in `c`.
pub open spec fn factor_annotated(c: &Context, f: FactorNd) -> bool
    decreases f,
{
    match f {
        FactorNd::Var(v) => c.resolves(v.name@, v.id),
        FactorNd::Value(_) => true,
        FactorNd::Func(call) => call_annotated(c, call),
    }
}

/// Whether the callee and every name in the arguments carry their entities.
pub open spec fn call_annotated(c: &Context, call: FuncCallNd) -> bool
    decreases call,
{
    c.resolves(call.var.name@, call.var.id) && args_annotated(c, call.params@)
}

pub open spec fn args_annotated(c: &Context, args: Seq<ExprNd>) -> bool
    decreases args,
{
    args.len() == 0 || (args_annotated(c, args.drop_last()) && expr_annotated(c, args.last()))
}

pub open spec fn items_annotated(c: &Context, items: Seq<CalcItem>) -> bool
    decreases items,
{
    items.len() == 0 || (items_annotated(c, items.drop_last()) && match items.last() {
        CalcItem::Op(_) => true,
        CalcItem::Factor(f) => factor_annotated(c, f),
    })
}

/// Whether every name in expression `e` carries the entity it resolves to.
pub open spec fn expr_annotated(c: &Context, e: ExprNd) -> bool
    decreases e,
{
    items_annotated(c, e.stack@)
}

impl VarNd {
    /// Resolves the name and records the entity on the node.
    pub fn analyze(&mut self, c: &Context) -> (r: Result<Type, ErrKind>)
        requires
            c.wf(),
        ensures
            r == name_type(c, old(self).name@),
            final(self).name == old(self).name,
            r is Ok ==> c.resolves(old(self).name@, final(self).id),
    {
        let id = c.fetch(&self.name)?;
        proof {
            assert forall|id2: usize| #[trigger] c.resolves(self.name@, id2) implies id2 == id by {
                c.lemma_resolves_unique(self.name@, id, id2);
            }
        }
        self.id = id;
        Ok(c.get_type_by_id(id))
    }
}

impl FactorNd {
    /// The type of this operand.
    pub fn analyze(&mut self, c: &Context) -> (r: Result<Type, ErrKind>)
        requires
            c.wf(),
        ensures
            r == factor_type(c, *old(self)),
            r is Ok ==> factor_annotated(c, *final(self)),
        decreases *old(self),
    {
        match self {
            FactorNd::Var(n) => n.analyze(c),
            FactorNd::Value(_) => Ok(Type::Int),
            FactorNd::Func(n) => n.analyze(c),
        }
    }
}

impl FuncCallNd {
    /// Checks the callee and the arguments; the call's type is the callee's
    /// return type.
    pub fn analyze(&mut self, c: &Context) -> (r: Result<Type, ErrKind>)
        requires
            c.wf(),
        ensures
            r == call_type(c, *old(self)),
            r is Ok ==> call_annotated(c, *final(self)),
            final(self).var.name == old(self).var.name,
            final(self).params@.len() == old(self).params@.len(),
        decreases *old(self),
    {
        let id = c.fetch(&self.var.name)?;
        proof {
            assert forall|id2: usize| #[trigger] c.resolves(self.var.name@, id2) implies id2 == id by {
                c.lemma_resolves_unique(self.var.name@, id, id2);
            }
        }
        self.var.id = id;
        let ty = match c.get_func_type(id) {
            Some(t) => t,
            None => return Err(ErrKind::TypeErr),
        };
        if self.params.len() != ty.params.len() {
            return Err(ErrKind::TypeErr);
        }
        let ghost args = old(self).params@;
        let mut i: usize = 0;
        while i < self.params.len()
            invariant
                c.wf(),
                c.visible(old(self).var.name@),
                forall|id2: usize| #[trigger] c.resolves(old(self).var.name@, id2) ==> id2 == id,
                c.resolves(old(self).var.name@, id),
                c.is_func(id),
                *ty == c.func_of(id).ty,
                args == old(self).params@,
                self.params@.len() == args.len(),
                args.len() == ty.params@.len(),
                i <= args.len(),
                forall|j: int| i <= j < args.len() ==> self.params@[j] == args[j],
                args_check(c, args.subrange(0, i as int), ty.params@) == Ok::<(), ErrKind>(()),
                decreases_to!(*old(self) => args),
                self.var.id == id,
                self.var.name == old(self).var.name,
                args_annotated(c, self.params@.subrange(0, i as int)),
            decreases args.len() - i,
        {
            proof {
                assert(args.subrange(0, i + 1).drop_last() =~= args.subrange(0, i as int));
                assert(decreases_to!(args => args[i as int]));
                assert(args.subrange(0, i + 1).last() == args[i as int]);
            }
            let ghost prev = self.params@;
            let t = self.params[i].analyze(c);
            proof {
                if t is Ok {
                    assert(self.params@.subrange(0, i + 1).drop_last() =~= prev.subrange(0, i as int));
                    assert(self.params@.subrange(0, i + 1).last() == self.params@[i as int]);
                }
            }
            match t {
                Err(e) => {
                    proof { lemma_args_err_prefix(c, args, ty.params@, i + 1); }
                    return Err(e);
                },
                Ok(t) => {
                    if t != ty.params[i] {
                        proof { lemma_args_err_prefix(c, args, ty.params@, i + 1); }
                        return Err(ErrKind::TypeErr);
                    }
                },
            }
            i += 1;
        }
        assert(args.subrange(0, i as int) =~= args);
        assert(self.params@.subrange(0, i as int) =~= self.params@);
        Ok(ty.ret)
    }
}

/// An argument check that fails on a prefix fails the same way on the whole.
pub(crate) proof fn lemma_args_err_prefix(c: &Context, args: Seq<ExprNd>, tys: Seq<Type>, k: int)
    requires
        0 <= k <= args.len(),
        args_check(c, args.subrange(0, k), tys) is Err,
    ensures
        args_check(c, args, tys) == args_check(c, args.subrange(0, k), tys),
    decreases args.len() - k,
{
    if k < args.len() {
        assert(args.subrange(0, k + 1).drop_last() =~= args.subrange(0, k));
        lemma_args_err_prefix(c, args, tys, k + 1);
    } else {
        assert(args.subrange(0, k) =~= args);
    }
}

/// A type simulation that fails on a prefix fails the same way on the whole.
proof fn lemma_items_err_prefix(c: &Context, items: Seq<CalcItem>, k: int)
    requires
        0 <= k <= items.len(),
        items_type(c, items.subrange(0, k)) is Err,
    ensures
        items_type(c, items) == items_type(c, items.subrange(0, k)),
    decreases items.len() - k,
{
    if k < items.len() {
        assert(items.subrange(0, k + 1).drop_last() =~= items.subrange(0, k));
        lemma_items_err_prefix(c, items, k + 1);
    } else {
        assert(items.subrange(0, k) =~= items);
    }
}

impl ExprNd {
    /// Type-checks the postfix sequence as a stack machine would run it.
    pub fn analyze(&mut self, c: &Context) -> (r: Result<Type, ErrKind>)
        requires
            c.wf(),
        ensures
            r == expr_type(c, *old(self)),
            r is Ok ==> expr_annotated(c, *final(self)),
        decreases *old(self),
    {
        let ghost items = old(self).stack@;
        let mut st: Vec<Type> = Vec::new();
        let mut i: usize = 0;
        while i < self.stack.len()
            invariant
                c.wf(),
                items == old(self).stack@,
                self.stack@.len() == items.len(),
                i <= items.len(),
                forall|j: int| i <= j < items.len() ==> self.stack@[j] == items[j],
                items_type(c, items.subrange(0, i as int)) == Ok::<Seq<Type>, ErrKind>(st@),
                decreases_to!(*old(self) => items),
                items_annotated(c, self.stack@.subrange(0, i as int)),
            decreases items.len() - i,
        {
            proof {
                assert(items.subrange(0, i + 1).drop_last() =~= items.subrange(0, i as int));
                assert(items.subrange(0, i + 1).last() == items[i as int]);
            }
            let ghost prev = self.stack@;
            match &mut self.stack[i] {
                CalcItem::Op(op) => {
                    let num = get_op_param_num(*op);
                    if st.len() < num {
                        proof {
                            assert(items_type(c, items.subrange(0, i + 1)) == Err::<Seq<Type>, ErrKind>(ErrKind::TypeErr));
                            lemma_items_err_prefix(c, items, i + 1);
                        }
                        return Err(ErrKind::TypeErr);
                    }
                    let mut k: usize = 0;
                    let ghost st0 = st@;
                    while k < num
                        invariant
                            k <= num,
                            items == old(self).stack@,
                            i < items.len(),
                            items[i as int] == CalcItem::Op(*op),
                            items.subrange(0, i + 1).drop_last() == items.subrange(0, i as int),
                            items.subrange(0, i + 1).last() == items[i as int],
                            items_type(c, items.subrange(0, i as int)) == Ok::<Seq<Type>, ErrKind>(st0),
                            num == op_arity(*op),
                            st0.len() >= num,
                            st@ == st0.subrange(0, st0.len() - k),
                            forall|j: int| st0.len() - k <= j < st0.len() ==> st0[j] == Type::Int,
                        decreases num - k,
                    {
                        let t = st.pop().unwrap();
                        if t != Type::Int {
                            proof {
                                assert(st0[st0.len() - k - 1] != Type::Int);
                                assert(items_type(c, items.subrange(0, i + 1)) == Err::<Seq<Type>, ErrKind>(ErrKind::TypeErr));
                                lemma_items_err_prefix(c, items, i + 1);
                            }
                            return Err(ErrKind::TypeErr);
                        }
                        k += 1;
                    }
                    st.push(Type::Int);
                    proof {
                        assert(st@ =~= st0.subrange(0, st0.len() - num).push(Type::Int));
                    }
                },
                CalcItem::Factor(f) => {
                    proof {
                        assert(decreases_to!(items => items[i as int]));
                    }
                    match f.analyze(c) {
                        Ok(t) => st.push(t),
                        Err(e) => {
                            proof { lemma_items_err_prefix(c, items, i + 1); }
                            return Err(e);
                        },
                    }
                },
            }
            proof {
                assert(self.stack@.subrange(0, i + 1).drop_last() =~= prev.subrange(0, i as int));
                assert(self.stack@.subrange(0, i + 1).last() == self.stack@[i as int]);
            }
            i += 1;
        }
        assert(items.subrange(0, i as int) =~= items);
        assert(self.stack@.subrange(0, i as int) =~= self.stack@);
        if st.len() != 1 {
            Err(ErrKind::TypeErr)
        } else {
            Ok(st[0])
        }
    }
}

/// The outcome of an assignment: the expression is checked first, then the
/// target, and their types must agree.
pub open spec fn assign_result(c: &Context, a: AssignNd) -> Result<Type, ErrKind> {
    match expr_type(c, a.expr) {
        Err(e) => Err(e),
        Ok(t) => match name_type(c, a.var.name@) {
            Err(e) => Err(e),
            Ok(vt) => if t != vt {
                Err(ErrKind::TypeErr)
            } else {
                Ok(Type::Void)
            },
        },
    }
}

impl AssignNd {
    pub fn analyze(&mut self, c: &Context) -> (r: Result<Type, ErrKind>)
        requires
            c.wf(),
        ensures
            r == assign_result(c, *old(self)),
            r is Ok ==> expr_annotated(c, final(self).expr) && c.resolves(old(self).var.name@, final(self).var.id),
    {
        let ty = self.expr.analyze(c)?;
        let vt = self.var.analyze(c)?;
        if ty != vt {
            Err(ErrKind::TypeErr)
        } else {
            Ok(Type::Void)
        }
    }
}

/// Whether `id` is the innermost open loop scope and `pop_off` the storage
/// allocated since it was opened, which a jump out of it discards.
pub open spec fn jump_target(c: &Context, id: usize, pop_off: usize) -> bool {
    exists|k: int| #[trigger] c.loop_scope_at(k) && c.scope_stack@[k] == id
        && (forall|k2: int| k < k2 < c.scope_stack@.len() ==> !#[trigger] c.loop_scope_at(k2))
        && pop_off == c.cur_offset - c.start_of(id)
}

/// Whether some loop scope is open.
pub open spec fn in_loop(c: &Context) -> bool {
    exists|k: int| 0 <= k < c.scope_stack@.len() && #[trigger] c.loop_scope_at(k)
}

impl BreakNd {
    /// Targets the innermost loop and records the storage to discard.
    pub fn analyze(&mut self, c: &Context) -> (r: Result<Type, ErrKind>)
        requires
            c.wf(),
        ensures
            !in_loop(c) ==> r == Err::<Type, ErrKind>(ErrKind::JumpNoLoop),
            !in_loop(c) ==> *final(self) == *old(self),
            in_loop(c) ==> r == Ok::<Type, ErrKind>(Type::Void) && jump_target(c, final(self).id, final(self).pop_off),
    {
        match c.get_loop_scope() {
            Some(id) => {
                self.id = id;
                self.pop_off = c.get_off_by_id(id);
                Ok(Type::Void)
            },
            None => Err(ErrKind::JumpNoLoop),
        }
    }
}

impl ContinueNd {
    /// Targets the innermost loop and records the storage to discard.
    pub fn analyze(&mut self, c: &Context) -> (r: Result<Type, ErrKind>)
        requires
            c.wf(),
        ensures
            !in_loop(c) ==> r == Err::<Type, ErrKind>(ErrKind::JumpNoLoop),
            !in_loop(c) ==> *final(self) == *old(self),
            in_loop(c) ==> r == Ok::<Type, ErrKind>(Type::Void) && jump_target(c, final(self).id, final(self).pop_off),
    {
        match c.get_loop_scope() {
            Some(id) => {
                self.id = id;
                self.pop_off = c.get_off_by_id(id);
                Ok(Type::Void)
            },
            None => Err(ErrKind::JumpNoLoop),
        }
    }
}

/// The outcome of a `return`: it must stand in a function, and a returned
/// value must have the function's return type.
pub open spec fn return_result(c: &Context, n: ReturnNd) -> Result<Type, ErrKind> {
    if c.cur_func_id == 0 {
        Err(ErrKind::TypeErr)
    } else {
        match n.expr {
            None => Ok(Type::Void),
            Some(e) => match expr_type(c, e) {
                Err(x) => Err(x),
                Ok(t) => if t != c.func_of(c.cur_func_id).ty.ret {
                    Err(ErrKind::TypeErr)
                } else {
                    Ok(Type::Void)
                },
            },
        }
    }
}

impl ReturnNd {
    /// Checks the returned value and records the size of the return type.
    pub fn analyze(&mut self, c: &Context) -> (r: Result<Type, ErrKind>)
        requires
            c.wf(),
        ensures
            r == return_result(c, *old(self)),
            r is Ok ==> final(self).sz == type_size(c.func_of(c.cur_func_id).ty.ret),
    {
        let func_id = c.get_cur_func_id();
        if func_id == 0 {
            return Err(ErrKind::TypeErr);
        }
        let ret = match c.get_func_type(func_id) {
            Some(t) => t.ret,
            None => return Err(ErrKind::TypeErr),
        };
        match &mut self.expr {
            Some(n) => {
                let ty = n.analyze(c)?;
                if ty != ret {
                    return Err(ErrKind::TypeErr);
                }
            },
            None => {},
        }
        self.sz = get_type_size(ret);
        Ok(Type::Void)
    }
}

/// What analysing a construct leaves as it found it on success: the scope
/// stack, the active function, and every binding already made.
pub open spec fn restored(old: &Context, new: &Context) -> bool {
    &&& new.scope_stack@ == old.scope_stack@
    &&& (old.current_scope() != 0 ==> new.cur_func_id == old.cur_func_id)
    &&& new.records@.len() >= old.records@.len()
    &&& forall|j: int| 0 <= j < old.records@.len() ==> (#[trigger] new.records@[j]).entity == old.records@[j].entity
        && new.records@[j].layout.start == old.records@[j].layout.start
    &&& new.cur_offset >= old.cur_offset
    &&& new.names@.len() >= old.names@.len()
    &&& forall|j: int| 0 <= j < old.names@.len() ==> #[trigger] new.names@[j] == old.names@[j]
    &&& forall|j: int| old.records@.len() <= j < new.records@.len() ==> !((#[trigger] new.records@[j]).entity is Func)
    &&& forall|k: int| old.names@.len() <= k < new.names@.len() ==> (#[trigger] new.names@[k]).scope_id == old.current_scope()
        || new.names@[k].scope_id >= old.records@.len()
}

/// The outcome of a declaration's checks, before the name is bound.
pub open spec fn declare_init_ok(c: &Context, d: DeclareNd) -> Result<Type, ErrKind> {
    match d.expr {
        None => Ok(d.ty),
        Some(e) => match expr_type(c, e) {
            Err(x) => Err(x),
            Ok(t) => if t != d.ty {
                Err(ErrKind::TypeErr)
            } else {
                Ok(d.ty)
            },
        },
    }
}

/// What analysing declaration `d` from `c0` returns, and the context it
/// leaves on success.
pub open spec fn declare_run(c0: Context, d: DeclareNd, r: Result<Type, ErrKind>, c1: Context) -> bool {
    match declare_init_ok(&c0, d) {
        Err(x) => r == Err::<Type, ErrKind>(x),
        Ok(_) => if bound_in(c0.names@, d.var.name@, c0.current_scope()) {
            r == Err::<Type, ErrKind>(ErrKind::ReDeclare)
        } else {
            &&& r == Ok::<Type, ErrKind>(Type::Void)
            &&& c1.cur_func_id == c0.cur_func_id
            &&& exists|id: usize| Context::declared(&c0, &c1, d.var.name@, type_size(d.ty), id)
                && #[trigger] c1.records@[id as int].entity == Entity::Var(VarInfo {
                    scope_id: c0.current_scope(),
                    func_id: c0.cur_func_id,
                    ty: d.ty,
                })
        },
    }
}

/// What analysing statement `s` from `c0` returns, and the context it leaves.
pub open spec fn stmt_run(c0: Context, s: StmtNd, r: Result<Type, ErrKind>, c1: Context) -> bool {
    match s {
        StmtNd::Assign(a) => r == assign_result(&c0, a) && c1 == c0,
        StmtNd::Declare(d) => declare_run(c0, d, r, c1),
        StmtNd::Expr(e) => r == expr_type(&c0, e) && c1 == c0,
        StmtNd::Print(v) => r == name_type(&c0, v.name@) && c1 == c0,
        StmtNd::Empty => r == Ok::<Type, ErrKind>(Type::Void) && c1 == c0,
    }
}

/// Marks the intermediate contexts and results that a run passes through;
/// it holds of all of them.
pub open spec fn step(c: Context, r: Result<Type, ErrKind>) -> bool {
    true
}

/// Keeps an error, and turns any success into `Ok(Void)`.
pub open spec fn as_void(r: Result<Type, ErrKind>) -> Result<Type, ErrKind> {
    match r {
        Err(e) => Err(e),
        Ok(_) => Ok(Type::Void),
    }
}

/// What analysing item `it` from `c0` returns, and, on success, the context
/// it leaves: the result of one run of the analysis through the contexts
/// that each step leaves.
pub open spec fn item_run(c0: Context, it: ItemNd, r: Result<Type, ErrKind>, c1: Context) -> bool
    decreases it,
{
    match it {
        ItemNd::Stmt(s) => stmt_run(c0, s, r, c1),
        ItemNd::Block(b) => block_run(c0, b, r, c1),
        ItemNd::If(n) => if_run(c0, *n, r, c1),
        ItemNd::While(n) => while_run(c0, *n, r, c1),
        ItemNd::Return(n) => r == return_result(&c0, n) && c1 == c0,
        ItemNd::Break(_) => r == (if in_loop(&c0) { Ok::<Type, ErrKind>(Type::Void) } else { Err(ErrKind::JumpNoLoop) }) && c1 == c0,
        ItemNd::Continue(_) => r == (if in_loop(&c0) { Ok::<Type, ErrKind>(Type::Void) } else { Err(ErrKind::JumpNoLoop) }) && c1 == c0,
    }
}

/// A block: its items run in order in a new plain scope, which is closed
/// after them; the first error is the block's.
pub open spec fn block_run(c0: Context, b: BlockNd, r: Result<Type, ErrKind>, c1: Context) -> bool
    decreases b,
{
    exists|ca: Context, rb: Result<Type, ErrKind>, cb: Context|
        #[trigger] Context::entered(&c0, &ca, false, c0.records@.len() as usize)
        && #[trigger] step(cb, rb) && items_run(ca, b.items@, rb, cb)
        && match rb {
            Err(e) => r == Err::<Type, ErrKind>(e),
            Ok(_) => r == Ok::<Type, ErrKind>(Type::Void) && Context::exited(&cb, &c1),
        }
}

/// Items run one after the other, each from the context the previous one
/// left, until the first error.
pub open spec fn items_run(c0: Context, items: Seq<ItemNd>, r: Result<Type, ErrKind>, c1: Context) -> bool
    decreases items,
{
    if items.len() == 0 {
        r == Ok::<Type, ErrKind>(Type::Void) && c1 == c0
    } else {
        exists|cm: Context, rm: Result<Type, ErrKind>| #[trigger] step(cm, rm) && items_run(c0, items.drop_last(), rm, cm) && match rm {
            Err(e) => r == Err::<Type, ErrKind>(e),
            Ok(_) => exists|rl: Result<Type, ErrKind>| #[trigger] step(c1, rl) && item_run(cm, items.last(), rl, c1) && r == as_void(rl),
        }
    }
}

/// A conditional: the condition must be an integer; the branch runs in a new
/// plain scope; the `else` part runs after that scope is closed.
pub open spec fn if_run(c0: Context, n: IfNd, r: Result<Type, ErrKind>, c1: Context) -> bool
    decreases n,
{
    match expr_type(&c0, n.expr) {
        Err(e) => r == Err::<Type, ErrKind>(e),
        Ok(t) => if t != Type::Int {
            r == Err::<Type, ErrKind>(ErrKind::TypeErr)
        } else {
            exists|ca: Context, ri: Result<Type, ErrKind>, cb: Context|
                #[trigger] Context::entered(&c0, &ca, false, c0.records@.len() as usize)
                && #[trigger] step(cb, ri) && item_run(ca, n.item, ri, cb)
                && match ri {
                    Err(e) => r == Err::<Type, ErrKind>(e),
                    Ok(_) => exists|cc: Context| #[trigger] Context::exited(&cb, &cc) && match n.els {
                        None => r == Ok::<Type, ErrKind>(Type::Void) && c1 == cc,
                        Some(el) => exists|re: Result<Type, ErrKind>| #[trigger] step(c1, re) && els_run(cc, el, re, c1) && r == as_void(re),
                    },
                }
        },
    }
}

pub open spec fn els_run(c0: Context, e: ElsNd, r: Result<Type, ErrKind>, c1: Context) -> bool
    decreases e,
{
    match e {
        ElsNd::If(n) => if_run(c0, *n, r, c1),
        ElsNd::Item(it) => item_run(c0, it, r, c1),
    }
}

/// A loop: the condition must be an integer; the body runs in a new loop
/// scope, closed after it.
pub open spec fn while_run(c0: Context, n: WhileNd, r: Result<Type, ErrKind>, c1: Context) -> bool
    decreases n,
{
    match expr_type(&c0, n.expr) {
        Err(e) => r == Err::<Type, ErrKind>(e),
        Ok(t) => if t != Type::Int {
            r == Err::<Type, ErrKind>(ErrKind::TypeErr)
        } else {
            exists|ca: Context, ri: Result<Type, ErrKind>, cb: Context|
                #[trigger] Context::entered(&c0, &ca, true, c0.records@.len() as usize)
                && #[trigger] step(cb, ri) && item_run(ca, n.item, ri, cb)
                && match ri {
                    Err(e) => r == Err::<Type, ErrKind>(e),
                    Ok(_) => r == Ok::<Type, ErrKind>(Type::Void) && Context::exited(&cb, &c1),
                }
        },
    }
}

impl DeclareNd {
    /// Checks the initializer against the declared type, then binds the name.
    pub fn analyze(&mut self, c: &mut Context) -> (r: Result<Type, ErrKind>)
        requires
            old(c).wf(),
        ensures
            final(c).wf(),
            final(c).cur_func_id == old(c).cur_func_id,
            declare_init_ok(old(c), *old(self)) matches Err(x) ==> r == Err::<Type, ErrKind>(x),
            declare_init_ok(old(c), *old(self)) is Ok ==> {
                &&& bound_in(old(c).names@, old(self).var.name@, old(c).current_scope()) ==> r == Err::<Type, ErrKind>(ErrKind::ReDeclare)
                &&& !bound_in(old(c).names@, old(self).var.name@, old(c).current_scope()) ==> r == Ok::<Type, ErrKind>(Type::Void)
                    && Context::declared(old(c), final(c), old(self).var.name@, type_size(old(self).ty), final(self).var.id)
            },
            final(self).ty == old(self).ty,
            final(self).var.name == old(self).var.name,
            r is Ok ==> restored(old(c), final(c)),
            declare_run(*old(c), *old(self), r, *final(c)),
    {
        match &mut self.expr {
            Some(e) => {
                let t = e.analyze(c)?;
                if t != self.ty {
                    return Err(ErrKind::TypeErr);
                }
            },
            None => {},
        }
        let ghost c0 = *c;
        let id = c.declare_var(&self.var.name, self.ty)?;
        self.var.id = id;
        proof {
            assert(Context::declared(&c0, c, old(self).var.name@, type_size(old(self).ty), id));
            assert(c.records@[id as int].entity == Entity::Var(VarInfo {
                scope_id: old(c).current_scope(),
                func_id: old(c).cur_func_id,
                ty: old(self).ty,
            }));
        }
        Ok(Type::Void)
    }
}

impl StmtNd {
    pub fn analyze(&mut self, c: &mut Context) -> (r: Result<Type, ErrKind>)
        requires
            old(c).wf(),
        ensures
            final(c).wf(),
            final(c).cur_func_id == old(c).cur_func_id,
            r is Ok ==> restored(old(c), final(c)),
            *old(self) is Assign ==> r == assign_result(old(c), (*old(self))->Assign_0),
            *old(self) is Expr ==> r == expr_type(old(c), (*old(self))->Expr_0),
            *old(self) is Print ==> r == name_type(old(c), (*old(self))->Print_0.name@),
            *old(self) is Empty ==> r == Ok::<Type, ErrKind>(Type::Void) && final(c).names@ == old(c).names@,
            stmt_run(*old(c), *old(self), r, *final(c)),
            *old(self) is Declare ==> {
                let d = (*old(self))->Declare_0;
                &&& declare_init_ok(old(c), d) matches Err(x) ==> r == Err::<Type, ErrKind>(x)
                &&& declare_init_ok(old(c), d) is Ok ==> {
                    &&& bound_in(old(c).names@, d.var.name@, old(c).current_scope()) ==> r == Err::<Type, ErrKind>(ErrKind::ReDeclare)
                    &&& !bound_in(old(c).names@, d.var.name@, old(c).current_scope()) ==> r == Ok::<Type, ErrKind>(Type::Void)
                        && *final(self) is Declare
                        && Context::declared(old(c), final(c), d.var.name@, type_size(d.ty), (*final(self))->Declare_0.var.id)
                }
            },
    {
        match self {
            StmtNd::Assign(n) => n.analyze(c),
            StmtNd::Declare(n) => n.analyze(c),
            StmtNd::Expr(n) => n.analyze(c),
            StmtNd::Print(n) => n.analyze(c),
            StmtNd::Empty => Ok(Type::Void),
        }
    }
}

/// Whether `e` is a single literal, a condition that always type-checks.
pub open spec fn literal_cond(e: ExprNd) -> bool {
    e.stack@.len() == 1 && e.stack@[0] is Factor && e.stack@[0]->Factor_0 is Value
}

/// Items built from empty statements, blocks, and conditionals and loops on
/// literal conditions: they bind and reference no name, so their analysis
/// always succeeds.
pub open spec fn plain_item(it: ItemNd) -> bool
    decreases it,
{
    match it {
        ItemNd::Stmt(StmtNd::Empty) => true,
        ItemNd::Block(b) => plain_items(b.items@),
        ItemNd::If(n) => plain_if(*n),
        ItemNd::While(n) => literal_cond(n.expr) && plain_item(n.item),
        _ => false,
    }
}

pub open spec fn plain_if(n: IfNd) -> bool
    decreases n,
{
    literal_cond(n.expr) && plain_item(n.item) && match n.els {
        None => true,
        Some(e) => plain_els(e),
    }
}

pub open spec fn plain_els(e: ElsNd) -> bool
    decreases e,
{
    match e {
        ElsNd::If(n) => plain_if(*n),
        ElsNd::Item(it) => plain_item(it),
    }
}

pub open spec fn plain_items(items: Seq<ItemNd>) -> bool
    decreases items,
{
    items.len() == 0 || (plain_items(items.drop_last()) && plain_item(items.last()))
}

proof fn lemma_plain_items_prefix(items: Seq<ItemNd>, k: int)
    requires
        0 <= k <= items.len(),
        plain_items(items),
    ensures
        plain_items(items.subrange(0, k)),
        k < items.len() ==> plain_item(items[k]),
    decreases items.len() - k,
{
    if k < items.len() {
        assert(items.subrange(0, k + 1).drop_last() =~= items.subrange(0, k));
        assert(items.subrange(0, k + 1).last() == items[k]);
        lemma_plain_items_prefix(items, k + 1);
    } else {
        assert(items.subrange(0, k) =~= items);
    }
}

/// A run of items that fails on a prefix fails the same way on the whole.
proof fn lemma_items_run_err(c0: Context, items: Seq<ItemNd>, k: int, e: ErrKind, c: Context)
    requires
        0 <= k <= items.len(),
        items_run(c0, items.subrange(0, k), Err(e), c),
    ensures
        items_run(c0, items, Err(e), c),
    decreases items.len() - k,
{
    if k < items.len() {
        let pre = items.subrange(0, k + 1);
        assert(pre.drop_last() =~= items.subrange(0, k));
        assert(items_run(c0, pre.drop_last(), Err(e), c));
        assert(step(c, Err(e)));
        assert(items_run(c0, pre, Err(e), c));
        lemma_items_run_err(c0, items, k + 1, e, c);
    } else {
        assert(items.subrange(0, k) =~= items);
    }
}

impl ItemNd {
    pub fn analyze(&mut self, c: &mut Context) -> (r: Result<Type, ErrKind>)
        requires
            old(c).wf(),
        ensures
            final(c).wf(),
            r is Ok ==> restored(old(c), final(c)),
            item_run(*old(c), *old(self), r, *final(c)),
            (*old(self) is Break || *old(self) is Continue) && !in_loop(old(c)) ==> r == Err::<Type, ErrKind>(ErrKind::JumpNoLoop),
            (*old(self) is Break || *old(self) is Continue) && in_loop(old(c)) ==> r == Ok::<Type, ErrKind>(Type::Void),
            *old(self) is Return ==> r == return_result(old(c), (*old(self))->Return_0),
            plain_item(*old(self)) ==> r is Ok && final(c).names@ == old(c).names@,
        decreases *old(self),
    {
        match self {
            ItemNd::Block(n) => n.analyze(c),
            ItemNd::Stmt(n) => n.analyze(c),
            ItemNd::If(n) => n.analyze(c),
            ItemNd::While(n) => n.analyze(c),
            ItemNd::Break(n) => n.analyze(c),
            ItemNd::Continue(n) => n.analyze(c),
            ItemNd::Return(n) => n.analyze(c),
        }
    }
}

/// Bindings added in scopes created after `c0` leave name resolution on the
/// same scope stack as it was.
pub proof fn lemma_resolution_kept(c0: &Context, c1: &Context)
    requires
        c0.wf(),
        c1.scope_stack@ == c0.scope_stack@,
        c1.names@.len() >= c0.names@.len(),
        forall|j: int| 0 <= j < c0.names@.len() ==> #[trigger] c1.names@[j] == c0.names@[j],
        forall|k: int| c0.names@.len() <= k < c1.names@.len() ==> (#[trigger] c1.names@[k]).scope_id >= c0.records@.len(),
    ensures
        forall|n: Seq<char>, id: usize| c0.resolves(n, id) <==> #[trigger] c1.resolves(n, id),
{
    assert forall|n: Seq<char>, k: int| 0 <= k < c0.scope_stack@.len() implies
        (#[trigger] bound_in(c1.names@, n, c0.scope_stack@[k]) <==> bound_in(c0.names@, n, c0.scope_stack@[k])) by {
        assert(c0.is_scope(c0.scope_stack@[k]));
        if bound_in(c1.names@, n, c0.scope_stack@[k]) {
            let b = choose|b: int| 0 <= b < c1.names@.len() && #[trigger] c1.names@[b].name@ == n
                && c1.names@[b].scope_id == c0.scope_stack@[k];
            if b >= c0.names@.len() {
                assert(c1.names@[b].scope_id >= c0.records@.len());
            } else {
                assert(c0.names@[b] == c1.names@[b]);
            }
        }
        if bound_in(c0.names@, n, c0.scope_stack@[k]) {
            let b = choose|b: int| 0 <= b < c0.names@.len() && #[trigger] c0.names@[b].name@ == n
                && c0.names@[b].scope_id == c0.scope_stack@[k];
            assert(c0.names@[b] == c1.names@[b]);
        }
    }
    assert forall|n: Seq<char>, id: usize| c0.resolves(n, id) <==> #[trigger] c1.resolves(n, id) by {
        if c0.resolves(n, id) {
            let (k, i) = choose|k: int, i: int|
                0 <= k < c0.scope_stack@.len() && 0 <= i < c0.names@.len()
                    && #[trigger] c0.names@[i].name@ == n
                    && c0.names@[i].scope_id == #[trigger] c0.scope_stack@[k]
                    && c0.names@[i].id == id
                    && forall|k2: int| k < k2 < c0.scope_stack@.len()
                        ==> !bound_in(c0.names@, n, #[trigger] c0.scope_stack@[k2]);
            assert(c1.names@[i] == c0.names@[i]);
            assert forall|k2: int| k < k2 < c1.scope_stack@.len() implies !bound_in(c1.names@, n, #[trigger] c1.scope_stack@[k2]) by {
                assert(!bound_in(c0.names@, n, c0.scope_stack@[k2]));
            }
        }
        if c1.resolves(n, id) {
            let (k, i) = choose|k: int, i: int|
                0 <= k < c1.scope_stack@.len() && 0 <= i < c1.names@.len()
                    && #[trigger] c1.names@[i].name@ == n
                    && c1.names@[i].scope_id == #[trigger] c1.scope_stack@[k]
                    && c1.names@[i].id == id
                    && forall|k2: int| k < k2 < c1.scope_stack@.len()
                        ==> !bound_in(c1.names@, n, #[trigger] c1.scope_stack@[k2]);
            assert(c0.is_scope(c0.scope_stack@[k]));
            if i >= c0.names@.len() {
                assert(c1.names@[i].scope_id >= c0.records@.len());
            }
            assert(c0.names@[i] == c1.names@[i]);
            assert forall|k2: int| k < k2 < c0.scope_stack@.len() implies !bound_in(c0.names@, n, #[trigger] c0.scope_stack@[k2]) by {
                assert(!bound_in(c1.names@, n, c1.scope_stack@[k2]));
            }
        }
    }
}

impl BlockNd {
    /// Analyses the items in a scope of their own, recorded on the node.
    pub fn analyze(&mut self, c: &mut Context) -> (r: Result<Type, ErrKind>)
        requires
            old(c).wf(),
        ensures
            final(c).wf(),
            r is Ok ==> restored(old(c), final(c)),
            block_run(*old(c), *old(self), r, *final(c)),
            final(self).id == old(c).records@.len(),
            r is Ok ==> final(c).records@[final(self).id as int].entity == Entity::Scope(ScopeInfo { is_loop: false, func_id: old(c).cur_func_id })
                && final(c).records@[final(self).id as int].layout.start == old(c).cur_offset,
            plain_items(old(self).items@) ==> r is Ok && final(c).names@ == old(c).names@,
            r is Ok ==> forall|n: Seq<char>, id: usize| old(c).resolves(n, id) <==> #[trigger] final(c).resolves(n, id),
        decreases *old(self),
    {
        let ghost c0 = *c;
        let scope_id = c.in_scope();
        self.id = scope_id;
        let ghost items = old(self).items@;
        let ghost c1 = *c;
        let mut i: usize = 0;
        proof {
            assert(items.subrange(0, 0) =~= Seq::<ItemNd>::empty());
        }
        while i < self.items.len()
            invariant
                items == old(self).items@,
                decreases_to!(*old(self) => items),
                self.items@.len() == items.len(),
                i <= items.len(),
                forall|j: int| i <= j < items.len() ==> self.items@[j] == items[j],
                self.id == scope_id,
                scope_id == old(c).records@.len(),
                c0 == *old(c),
                c.wf(),
                Context::entered(old(c), &c1, false, scope_id),
                restored(&c1, c),
                plain_items(items) ==> c.names@ == old(c).names@,
                items_run(c1, items.subrange(0, i as int), Ok::<Type, ErrKind>(Type::Void), *c),
            decreases items.len() - i,
        {
            proof {
                if plain_items(items) {
                    lemma_plain_items_prefix(items, i as int);
                }
                assert(decreases_to!(items => items[i as int]));
            }
            let ghost cprev = *c;
            let ri = self.items[i].analyze(c);
            proof {
                let pre = items.subrange(0, i + 1);
                assert(pre.drop_last() =~= items.subrange(0, i as int));
                assert(pre.last() == items[i as int]);
                assert(items_run(c1, pre.drop_last(), Ok::<Type, ErrKind>(Type::Void), cprev));
                assert(item_run(cprev, pre.last(), ri, *c));
                assert(step(cprev, Ok::<Type, ErrKind>(Type::Void)));
                assert(step(*c, ri));
                assert(items_run(c1, pre, as_void(ri), *c));
            }
            match ri {
                Err(e) => {
                    proof {
                        lemma_items_run_err(c1, items, i + 1, e, *c);
                        assert(Context::entered(&c0, &c1, false, c0.records@.len() as usize));
                        assert(items_run(c1, items, Err::<Type, ErrKind>(e), *c));
                        assert(step(*c, Err::<Type, ErrKind>(e)));
                    }
                    return Err(e);
                },
                Ok(_) => {},
            }
            i += 1;
        }
        assert(items.subrange(0, i as int) =~= items);
        let ghost cb = *c;
        c.out_scope();
        assert(c.scope_stack@ =~= old(c).scope_stack@);
        proof {
            assert(Context::entered(&c0, &c1, false, c0.records@.len() as usize));
            assert(items_run(c1, items, Ok::<Type, ErrKind>(Type::Void), cb));
            assert(step(cb, Ok::<Type, ErrKind>(Type::Void)));
            assert(Context::exited(&cb, c));
            lemma_resolution_kept(old(c), c);
        }
        Ok(Type::Void)
    }
}

impl IfNd {
    /// Analyses the condition, then the branch in a scope of its own, then
    /// the `else` part after that scope is closed.
    pub fn analyze(&mut self, c: &mut Context) -> (r: Result<Type, ErrKind>)
        requires
            old(c).wf(),
        ensures
            final(c).wf(),
            r is Ok ==> restored(old(c), final(c)),
            if_run(*old(c), *old(self), r, *final(c)),
            r is Ok ==> final(self).id == old(c).records@.len(),
            expr_type(old(c), old(self).expr) matches Err(x) ==> r == Err::<Type, ErrKind>(x),
            expr_type(old(c), old(self).expr) matches Ok(t) && t != Type::Int ==> r == Err::<Type, ErrKind>(ErrKind::TypeErr),
            plain_if(*old(self)) ==> r is Ok && final(c).names@ == old(c).names@,
            r is Ok && old(self).els is None ==> forall|n: Seq<char>, id: usize| old(c).resolves(n, id) <==> #[trigger] final(c).resolves(n, id),
        decreases *old(self),
    {
        let ghost c0 = *c;
        let t = match self.expr.analyze(c) {
            Ok(t) => t,
            Err(e) => return Err(e),
        };
        if t != Type::Int {
            return Err(ErrKind::TypeErr);
        }
        let scope_id = c.in_scope();
        self.id = scope_id;
        let ghost ca = *c;
        let ri = self.item.analyze(c);
        let ghost cb = *c;
        proof {
            assert(Context::entered(&c0, &ca, false, c0.records@.len() as usize));
            assert(item_run(ca, old(self).item, ri, cb));
            assert(step(cb, ri));
        }
        match ri {
            Err(e) => return Err(e),
            Ok(_) => {},
        }
        c.out_scope();
        assert(c.scope_stack@ =~= old(c).scope_stack@);
        let ghost cc = *c;
        proof {
            assert(Context::exited(&cb, &cc));
            lemma_resolution_kept(old(c), &cc);
        }
        match &mut self.els {
            Some(e) => {
                let re = e.analyze(c);
                proof {
                    assert(els_run(cc, old(self).els->Some_0, re, *c));
                    assert(step(*c, re));
                }
                match re {
                    Err(x) => return Err(x),
                    Ok(_) => {},
                }
            },
            None => {},
        }
        Ok(Type::Void)
    }
}

impl ElsNd {
    pub fn analyze(&mut self, c: &mut Context) -> (r: Result<Type, ErrKind>)
        requires
            old(c).wf(),
        ensures
            final(c).wf(),
            r is Ok ==> restored(old(c), final(c)),
            els_run(*old(c), *old(self), r, *final(c)),
            plain_els(*old(self)) ==> r is Ok && final(c).names@ == old(c).names@,
        decreases *old(self),
    {
        match self {
            ElsNd::If(n) => n.analyze(c),
            ElsNd::Item(n) => n.analyze(c),
        }
    }
}

impl WhileNd {
    /// Analyses the condition, then the body in a loop scope, recorded on
    /// the node.
    pub fn analyze(&mut self, c: &mut Context) -> (r: Result<Type, ErrKind>)
        requires
            old(c).wf(),
        ensures
            final(c).wf(),
            r is Ok ==> restored(old(c), final(c)),
            while_run(*old(c), *old(self), r, *final(c)),
            r is Ok ==> final(self).id == old(c).records@.len(),
            expr_type(old(c), old(self).expr) matches Err(x) ==> r == Err::<Type, ErrKind>(x),
            expr_type(old(c), old(self).expr) matches Ok(t) && t != Type::Int ==> r == Err::<Type, ErrKind>(ErrKind::TypeErr),
            r is Ok ==> final(c).records@[final(self).id as int].entity == Entity::Scope(ScopeInfo { is_loop: true, func_id: old(c).cur_func_id })
                && final(c).records@[final(self).id as int].layout.start == old(c).cur_offset,
            literal_cond(old(self).expr) && plain_item(old(self).item) ==> r is Ok && final(c).names@ == old(c).names@,
            r is Ok ==> forall|n: Seq<char>, id: usize| old(c).resolves(n, id) <==> #[trigger] final(c).resolves(n, id),
        decreases *old(self),
    {
        let ghost c0 = *c;
        let t = match self.expr.analyze(c) {
            Ok(t) => t,
            Err(e) => return Err(e),
        };
        if t != Type::Int {
            return Err(ErrKind::TypeErr);
        }
        let scope_id = c.enter_loop_scope();
        self.id = scope_id;
        let ghost ca = *c;
        let ri = self.item.analyze(c);
        let ghost cb = *c;
        proof {
            assert(Context::entered(&c0, &ca, true, c0.records@.len() as usize));
            assert(item_run(ca, old(self).item, ri, cb));
            assert(step(cb, ri));
        }
        match ri {
            Err(e) => return Err(e),
            Ok(_) => {},
        }
        c.out_scope();
        assert(c.scope_stack@ =~= old(c).scope_stack@);
        proof {
            assert(Context::exited(&cb, c));
            lemma_resolution_kept(old(c), c);
        }
        Ok(Type::Void)
    }
}

/// Every function of `c0` is still a function of `c1`, with the same
/// signature, and still implemented if it was; no other entity of `c0` has
/// become one.
pub open spec fn funcs_kept(c0: &Context, c1: &Context) -> bool {
    &&& c1.records@.len() >= c0.records@.len()
    &&& forall|j: usize| j < c0.records@.len() && #[trigger] c1.is_func(j) ==> c0.is_func(j)
    &&& forall|j: usize| j < c0.records@.len() && #[trigger] c0.is_func(j) ==> {
        &&& c1.is_func(j)
        &&& c1.func_of(j).ty == c0.func_of(j).ty
        &&& (c0.func_of(j).has_impl ==> c1.func_of(j).has_impl)
    }
}

/// Whether function `id` of `c` has the signature that `f` declares.
pub open spec fn has_sig(c: &Context, id: usize, f: FuncNd) -> bool {
    c.is_func(id) && c.func_of(id).ty.params@ == func_type_of(f).0 && c.func_of(id).ty.ret == func_type_of(f).1
}

/// The name of parameter `p`, which must carry one.
pub open spec fn param_name(p: (Type, Option<VarNd>)) -> Seq<char> {
    p.1->Some_0.name@
}

/// Whether no two parameters share a name.
pub open spec fn distinct_params(ps: Seq<(Type, Option<VarNd>)>) -> bool {
    forall|i: int, j: int| 0 <= i < j < ps.len() ==> param_name(#[trigger] ps[i]) != param_name(#[trigger] ps[j])
}

/// Whether `name` may be implemented now with the signature of `f`: it is
/// new, or it denotes an unimplemented function of that signature.
pub open spec fn implementable(c: &Context, f: FuncNd) -> bool {
    forall|id: usize| #[trigger] c.resolves(f.var.name@, id) ==> has_sig(c, id, f) && !c.func_of(id).has_impl
}

/// Parameter `i` of `f` (as it was before analysis: `f0`) is declared in the
/// function's scope `fs` as entity `fs + 1 + i`, a variable of its type owned
/// by the function, bound under its name.
pub open spec fn param_declared(c: &Context, f: FuncNd, f0: FuncNd, fs: usize, i: int) -> bool {
    let pid = f.params@[i].1->Some_0.id;
    &&& f.params@[i].1 is Some
    &&& f.params@[i].1->Some_0.name@ == param_name(f0.params@[i])
    &&& pid == fs + 1 + i
    &&& pid < c.records@.len()
    &&& c.records@[pid as int].entity == Entity::Var(VarInfo { scope_id: fs, func_id: f.var.id, ty: f0.params@[i].0 })
    &&& exists|b: int| 0 <= b < c.names@.len() && #[trigger] c.names@[b].name@ == param_name(f0.params@[i])
        && c.names@[b].scope_id == fs && c.names@[b].id == pid
}

impl FuncNd {
    /// Declares a prototype, or implements the function: its parameters are
    /// declared in order in a scope that also holds the body.
    pub fn analyze(&mut self, c: &mut Context) -> (r: Result<Type, ErrKind>)
        requires
            old(c).wf(),
            old(c).scope_stack@.len() == 1,
            old(c).cur_func_id == 0,
            old(self).block is Some ==> forall|i: int| 0 <= i < old(self).params@.len() ==> #[trigger] named(old(self).params@[i]),
        ensures
            final(c).wf(),
            old(self).block is None && bound_in(old(c).names@, old(self).var.name@, 0) ==> r == Err::<Type, ErrKind>(ErrKind::ReDeclare),
            old(self).block is Some ==> forall|id: usize| #[trigger] old(c).resolves(old(self).var.name@, id) ==> {
                &&& !has_sig(old(c), id, *old(self)) ==> r == Err::<Type, ErrKind>(ErrKind::TypeErr)
                &&& has_sig(old(c), id, *old(self)) && old(c).func_of(id).has_impl ==> r == Err::<Type, ErrKind>(ErrKind::ReImpl)
            },
            old(self).block is None && !bound_in(old(c).names@, old(self).var.name@, 0) ==> r == Ok::<Type, ErrKind>(Type::Void),
            old(self).block matches Some(b) && implementable(old(c), *old(self)) && distinct_params(old(self).params@)
                && plain_items(b.items@) ==> r == Ok::<Type, ErrKind>(Type::Void),
            old(self).block matches Some(b) && plain_items(b.items@) && r is Ok
                ==> forall|k: int| old(c).names@.len() <= k < final(c).names@.len() && (#[trigger] final(c).names@[k]).scope_id == 0
                    ==> final(c).names@[k].name@ == old(self).var.name@,
            old(self).block is None && r is Ok ==> !final(c).func_of(final(self).var.id).has_impl,
            r is Ok && !old(c).visible(old(self).var.name@) ==> forall|j: int| 0 <= j < old(c).records@.len()
                ==> #[trigger] final(c).records@[j].entity == old(c).records@[j].entity,
            old(self).block is None && r is Ok ==> names_pushed(old(c).names@, final(c).names@, old(self).var.name@, 0, final(self).var.id),
            r is Ok ==> {
                &&& final(c).resolves(old(self).var.name@, final(self).var.id)
                &&& final(c).scope_stack@ == old(c).scope_stack@
                &&& final(c).cur_func_id == 0
                &&& has_sig(final(c), final(self).var.id, *old(self))
                &&& (old(self).block is Some ==> final(c).func_of(final(self).var.id).has_impl)
                &&& final(c).records@.len() >= old(c).records@.len()
                &&& funcs_kept(old(c), final(c))
                &&& final(c).names@.len() >= old(c).names@.len()
                &&& forall|j: int| 0 <= j < old(c).names@.len() ==> #[trigger] final(c).names@[j] == old(c).names@[j]
            },
            final(self).var.name == old(self).var.name,
            final(self).block is Some <==> old(self).block is Some,
            final(self).params@.len() == old(self).params@.len(),
            r is Ok ==> forall|j: int| old(c).records@.len() <= j < final(c).records@.len()
                && (#[trigger] final(c).records@[j]).entity is Func ==> j == final(self).var.id,
            old(self).block is Some && implementable(old(c), *old(self)) && distinct_params(old(self).params@)
                ==> exists|ca: Context, rb: Result<Type, ErrKind>, cb: Context|
                    #[trigger] step(ca, Ok::<Type, ErrKind>(Type::Void)) && #[trigger] step(cb, rb)
                    && ca.wf()
                    && ca.cur_func_id == final(self).var.id
                    && ca.scope_stack@.len() == 2
                    && ca.scope_stack@[0] == 0
                    && (forall|i: int| 0 <= i < old(self).params@.len()
                        ==> #[trigger] param_declared(&ca, *final(self), *old(self), ca.current_scope(), i))
                    && block_run(ca, old(self).block->Some_0, rb, cb)
                    && r == as_void(rb),
            r is Ok && old(self).block is Some ==> exists|fs: usize| {
                &&& fs >= old(c).records@.len()
                &&& fs < final(c).records@.len()
                &&& final(c).records@[fs as int].entity == Entity::Scope(ScopeInfo { is_loop: false, func_id: final(self).var.id })
                &&& forall|i: int| 0 <= i < old(self).params@.len()
                    ==> #[trigger] param_declared(final(c), *final(self), *old(self), fs, i)
            },
    {
        let ty = self.func_ty();
        if self.block.is_none() {
            let id = c.declare_fn(&self.var.name, &ty)?;
            self.var.id = id;
            proof {
                lemma_prefix_agrees(old(c).records@, c.records@);
                lemma_prefix_agrees(old(c).names@, c.names@);
            }
            return Ok(Type::Void);
        }
        let id = c.impl_fn(&self.var.name, &ty)?;
        self.var.id = id;
        proof {
            assert forall|j: usize| j < old(c).records@.len() && #[trigger] old(c).is_func(j) implies {
                &&& c.is_func(j)
                &&& c.func_of(j).ty == old(c).func_of(j).ty
                &&& (old(c).func_of(j).has_impl ==> c.func_of(j).has_impl)
            } by {
                if j != id {
                    assert(c.records@[j as int] == old(c).records@[j as int]);
                }
            }
        }
        let ghost c_impl = *c;
        proof {
            assert forall|id2: usize| #[trigger] old(c).resolves(old(self).var.name@, id2) implies
                has_sig(old(c), id2, *old(self)) && !old(c).func_of(id2).has_impl by {}
        }
        let ghost c1 = *c;
        let ghost params = self.params@;
        let fs = c.in_scope();
        let mut i: usize = 0;
        while i < self.params.len()
            invariant
                self.block is Some,
                forall|id2: usize| #[trigger] old(c).resolves(old(self).var.name@, id2) ==>
                    has_sig(old(c), id2, *old(self)) && !old(c).func_of(id2).has_impl,
                params == old(self).params@,
                self.params@.len() == params.len(),
                forall|j: int| 0 <= j < params.len() ==> #[trigger] named(params[j]),
                forall|j: int| i <= j < params.len() ==> self.params@[j] == params[j],
                forall|j: int| 0 <= j < params.len() ==> self.params@[j].0 == params[j].0,
                i <= params.len(),
                c.wf(),
                c.scope_stack@.len() == 2,
                c.scope_stack@[0] == 0,
                c.cur_func_id == id,
                has_sig(c, id, *old(self)),
                c.func_of(id).has_impl,
                c.records@.len() > c1.records@.len(),
                c1.records@.len() >= old(c).records@.len(),
                funcs_kept(old(c), &c_impl),
                c_impl.resolves(old(self).var.name@, id),
                c_impl.scope_stack@ == old(c).scope_stack@,
                c.names@.len() >= c_impl.names@.len(),
                forall|j: int| 0 <= j < c_impl.names@.len() ==> #[trigger] c.names@[j] == c_impl.names@[j],
                self.var.name == old(self).var.name,
                old(self).block is Some,
                self.block == old(self).block,
                forall|k: int| c_impl.names@.len() <= k < c.names@.len() ==> (#[trigger] c.names@[k]).scope_id == fs,
                fs != 0,
                distinct_params(params) ==> forall|n: Seq<char>| bound_in(c.names@, n, c.current_scope())
                    ==> exists|j: int| 0 <= j < i && #[trigger] param_name(params[j]) == n,
                c_impl.records@.len() <= c.records@.len(),
                forall|j: int| 0 <= j < c_impl.records@.len() ==> (#[trigger] c.records@[j]).entity == c_impl.records@[j].entity,
                self.var.id == id,
                self.ret_ty == old(self).ret_ty,
                fs == c_impl.records@.len(),
                c.records@.len() == fs + 1 + i,
                c.records@[fs as int].entity == Entity::Scope(ScopeInfo { is_loop: false, func_id: id }),
                c.current_scope() == fs,
                forall|j: int| 0 <= j < i ==> #[trigger] param_declared(c, *self, *old(self), fs, j),
                forall|j: int| c_impl.records@.len() <= j < c.records@.len() ==> !((#[trigger] c.records@[j]).entity is Func),
            decreases params.len() - i,
        {
            let t = self.params[i].0;
            proof {
                assert(named(params[i as int]));
            }
            let ghost prev = *c;
            let ghost prev_self = *self;
            proof {
                if distinct_params(params) && bound_in(c.names@, param_name(params[i as int]), c.current_scope()) {
                    let j = choose|j: int| 0 <= j < i && #[trigger] param_name(params[j]) == param_name(params[i as int]);
                    assert(param_name(params[j]) != param_name(params[i as int]));
                }
            }
            match &mut self.params[i].1 {
                Some(v) => {
                    let vid = c.declare_var(&v.name, t)?;
                    v.id = vid;
                    proof {
                        assert forall|j: int| 0 <= j < c_impl.names@.len() implies #[trigger] c.names@[j] == c_impl.names@[j] by {
                            assert(c.names@[j] == c.names@.subrange(0, prev.names@.len() as int)[j]);
                        }
                        if distinct_params(params) {
                            assert forall|n: Seq<char>| bound_in(c.names@, n, c.current_scope()) implies
                                exists|j: int| 0 <= j < i + 1 && #[trigger] param_name(params[j]) == n by {
                                let b = choose|b: int| 0 <= b < c.names@.len() && #[trigger] c.names@[b].name@ == n
                                    && c.names@[b].scope_id == c.current_scope();
                                if b < prev.names@.len() {
                                    assert(c.names@[b] == c.names@.subrange(0, prev.names@.len() as int)[b]);
                                    assert(bound_in(prev.names@, n, prev.current_scope()));
                                } else {
                                    assert(param_name(params[i as int]) == n);
                                }
                            }
                        }
                        assert forall|j: int| 0 <= j < c_impl.records@.len() implies
                            (#[trigger] c.records@[j]).entity == c_impl.records@[j].entity by {
                            assert(c.records@[j] == c.records@.subrange(0, prev.records@.len() as int)[j]);
                        }
                        assert(c.records@[fs as int] == c.records@.subrange(0, prev.records@.len() as int)[fs as int]);
                        assert forall|k: int| c_impl.names@.len() <= k < c.names@.len() implies (#[trigger] c.names@[k]).scope_id == fs by {
                            if k < prev.names@.len() {
                                assert(c.names@[k] == c.names@.subrange(0, prev.names@.len() as int)[k]);
                            }
                        }
                        assert forall|j: int| c_impl.records@.len() <= j < c.records@.len() implies
                            !((#[trigger] c.records@[j]).entity is Func) by {
                            if j < prev.records@.len() {
                                assert(c.records@[j] == c.records@.subrange(0, prev.records@.len() as int)[j]);
                            }
                        }
                        let nb = prev.names@.len() as int;
                        assert(c.names@[nb].name@ == param_name(params[i as int]));
                        assert forall|j: int| 0 <= j < i + 1 implies #[trigger] param_declared(c, *self, *old(self), fs, j) by {
                            if j < i {
                                assert(self.params@[j] == prev_self.params@[j]);
                                assert(param_declared(&prev, prev_self, *old(self), fs, j));
                                let pid = prev_self.params@[j].1->Some_0.id;
                                assert(c.records@[pid as int] == c.records@.subrange(0, prev.records@.len() as int)[pid as int]);
                                let b = choose|b: int| 0 <= b < prev.names@.len() && #[trigger] prev.names@[b].name@ == param_name(old(self).params@[j])
                                    && prev.names@[b].scope_id == fs && prev.names@[b].id == pid;
                                assert(c.names@[b] == c.names@.subrange(0, prev.names@.len() as int)[b]);
                            } else {
                                assert(c.names@[nb].name@ == param_name(old(self).params@[j]));
                            }
                        }
                    }
                },
                None => {},
            }
            i += 1;
        }
        assert(func_type_of(*self) == func_type_of(*old(self))) by {
            assert(self.params@.map_values(|p: (Type, Option<VarNd>)| p.0) =~= old(self).params@.map_values(|p: (Type, Option<VarNd>)| p.0));
        }
        let ghost c_params = *c;
        let ghost self_params = *self;
        let rb = match &mut self.block {
            Some(b) => b.analyze(c),
            None => Ok(Type::Void),
        };
        proof {
            assert(step(c_params, Ok::<Type, ErrKind>(Type::Void)));
            assert(step(*c, rb));
            assert(block_run(c_params, old(self).block->Some_0, rb, *c));
            assert(self.params == self_params.params && self.var == self_params.var);
            assert(c_params.current_scope() == fs);
            assert forall|i: int| 0 <= i < old(self).params@.len()
                implies #[trigger] param_declared(&c_params, *self, *old(self), c_params.current_scope(), i) by {
                assert(param_declared(&c_params, self_params, *old(self), fs, i));
            }
        }
        match rb {
            Err(e) => return Err(e),
            Ok(_) => {},
        }
        c.out_scope();
        assert(c.scope_stack@ =~= old(c).scope_stack@);
        proof {
            assert(self.params == self_params.params);
            assert(c.records@[fs as int].entity == c_params.records@[fs as int].entity);
            assert forall|i: int| 0 <= i < old(self).params@.len()
                implies #[trigger] param_declared(c, *self, *old(self), fs, i) by {
                assert(param_declared(&c_params, self_params, *old(self), fs, i));
                let pid = self_params.params@[i].1->Some_0.id;
                assert(c.records@[pid as int].entity == c_params.records@[pid as int].entity);
                let b = choose|b: int| 0 <= b < c_params.names@.len() && #[trigger] c_params.names@[b].name@ == param_name(old(self).params@[i])
                    && c_params.names@[b].scope_id == fs && c_params.names@[b].id == pid;
                assert(c.names@[b] == c_params.names@[b]);
            }
        }
        proof {
            let (k, bi) = choose|k: int, bi: int|
                0 <= k < c_impl.scope_stack@.len() && 0 <= bi < c_impl.names@.len()
                    && #[trigger] c_impl.names@[bi].name@ == old(self).var.name@
                    && c_impl.names@[bi].scope_id == #[trigger] c_impl.scope_stack@[k]
                    && c_impl.names@[bi].id == id
                    && forall|k2: int| k < k2 < c_impl.scope_stack@.len()
                        ==> !bound_in(c_impl.names@, old(self).var.name@, #[trigger] c_impl.scope_stack@[k2]);
            assert(c.names@[bi] == c_impl.names@[bi]);
            assert(c.names@[bi].scope_id == c.scope_stack@[k]);
            if plain_items(old(self).block->Some_0.items@) {
                assert forall|k: int| old(c).names@.len() <= k < c.names@.len() && (#[trigger] c.names@[k]).scope_id == 0
                    implies c.names@[k].name@ == old(self).var.name@ by {
                    assert(c.names@ == c_params.names@);
                    if k >= c_impl.names@.len() {
                        assert(c_params.names@[k].scope_id == fs);
                    } else {
                        assert(c_impl.names@ == old(c).names@ || names_pushed(old(c).names@, c_impl.names@, old(self).var.name@, old(c).current_scope(), id));
                    }
                }
            }
            if !old(c).visible(old(self).var.name@) {
                lemma_prefix_agrees(old(c).records@, c_impl.records@);
                assert forall|j: int| 0 <= j < old(c).records@.len()
                    implies #[trigger] c.records@[j].entity == old(c).records@[j].entity by {
                    assert(c.records@[j].entity == c_params.records@[j].entity);
                    assert(c_params.records@[j].entity == c_impl.records@[j].entity);
                }
            }
            assert forall|j: int| old(c).records@.len() <= j < c.records@.len()
                && (#[trigger] c.records@[j]).entity is Func implies j == id by {
                if j >= c_impl.records@.len() {
                    if j >= c_params.records@.len() {
                        assert(!(c.records@[j].entity is Func));
                    } else {
                        assert(c.records@[j].entity == c_params.records@[j].entity);
                    }
                }
            }
            assert(c.resolves(old(self).var.name@, id));
            assert forall|j: int| 0 <= j < old(c).names@.len() implies #[trigger] c.names@[j] == old(c).names@[j] by {
                assert(c.names@[j] == c_impl.names@[j]);
            }
        }
        Ok(Type::Void)
    }
}

/// Whether function `id` of `c` has the signature that `f` declares, and a
/// body when `f` has one.
pub open spec fn func_recorded(c: &Context, id: usize, f: FuncNd) -> bool {
    has_sig(c, id, f) && (f.block is Some ==> c.func_of(id).has_impl)
}

/// Whether every integer global among `items` folds to a constant.
pub open spec fn globals_constant(items: Seq<GItemNd>) -> bool {
    forall|i: int| 0 <= i < items.len() && (#[trigger] items[i]) is Declare && items[i]->Declare_0.ty == Type::Int
        ==> declare_const_of(items[i]->Declare_0) is Some
}

/// Whether a function item that has a body names all its parameters.
pub open spec fn params_named(f: FuncNd) -> bool {
    f.block is Some ==> forall|i: int| 0 <= i < f.params@.len() ==> #[trigger] named(f.params@[i])
}

/// Whether every function of a program that has a body names all its parameters.
pub open spec fn all_params_named(items: Seq<GItemNd>) -> bool {
    forall|i: int| 0 <= i < items.len() && (#[trigger] items[i]) is Func ==> params_named(items[i]->Func_0)
}

/// The name a top-level item declares.
pub open spec fn item_name(g: GItemNd) -> Seq<char> {
    match g {
        GItemNd::Func(f) => f.var.name@,
        GItemNd::Declare(d) => d.var.name@,
    }
}

/// The entity a top-level item was bound to.
pub open spec fn item_id(g: GItemNd) -> usize {
    match g {
        GItemNd::Func(f) => f.var.id,
        GItemNd::Declare(d) => d.var.id,
    }
}

/// A prototype, or an integer global without an initializer or with a
/// literal one.
pub open spec fn decl_item(g: GItemNd) -> bool {
    match g {
        GItemNd::Func(f) => f.block is None,
        GItemNd::Declare(d) => d.ty == Type::Int && (d.expr is None || literal_cond(d.expr->Some_0)),
    }
}

/// A declaration as above, or a function with distinct parameter names whose
/// body is made of plain items.
pub open spec fn simple_item(g: GItemNd) -> bool {
    decl_item(g) || (g is Func && distinct_params(g->Func_0.params@) && g->Func_0.block is Some
        && plain_items(g->Func_0.block->Some_0.items@))
}

/// A program of such items, no two of which share a name.
pub open spec fn simple_program(items: Seq<GItemNd>) -> bool {
    &&& forall|i: int| 0 <= i < items.len() ==> simple_item(#[trigger] items[i])
    &&& forall|i: int, j: int| 0 <= i < j < items.len() ==> item_name(#[trigger] items[i]) != item_name(#[trigger] items[j])
}

impl GItemNd {
    /// A global declaration must in addition fold to a constant when it is an
    /// integer. Globals of another type are accepted as they are: they take
    /// their type's storage (none for `void`) and no cell of the memory image.
    pub fn analyze(&mut self, c: &mut Context) -> (r: Result<Type, ErrKind>)
        requires
            old(c).wf(),
            old(c).scope_stack@.len() == 1,
            old(c).cur_func_id == 0,
            *old(self) is Func ==> params_named((*old(self))->Func_0),
        ensures
            final(c).wf(),
            r is Ok ==> final(c).scope_stack@ == old(c).scope_stack@ && final(c).cur_func_id == 0,
            r is Ok ==> funcs_kept(old(c), final(c)),
            *old(self) is Func && (*old(self))->Func_0.block is None && r is Ok
                ==> !final(c).func_of(item_id(*final(self))).has_impl,
            r is Ok && !old(c).visible(item_name(*old(self))) ==> forall|j: int| 0 <= j < old(c).records@.len()
                ==> #[trigger] final(c).records@[j].entity == old(c).records@[j].entity,
            r is Ok ==> forall|j: int| old(c).records@.len() <= j < final(c).records@.len()
                && (#[trigger] final(c).records@[j]).entity is Func ==> *final(self) is Func && j == (*final(self))->Func_0.var.id,
            r is Ok ==> final(c).names@.len() >= old(c).names@.len()
                && forall|j: int| 0 <= j < old(c).names@.len() ==> #[trigger] final(c).names@[j] == old(c).names@[j],
            *old(self) is Func <==> *final(self) is Func,
            *old(self) is Func ==> (*final(self))->Func_0.var.name == (*old(self))->Func_0.var.name,
            r is Ok ==> *final(self) is Func && (*final(self))->Func_0.block is None || *final(self) is Declare
                ==> names_pushed(old(c).names@, final(c).names@, item_name(*old(self)), 0, item_id(*final(self))),
            *old(self) is Func && (*old(self))->Func_0.block is None
                && !bound_in(old(c).names@, (*old(self))->Func_0.var.name@, 0) ==> r == Ok::<Type, ErrKind>(Type::Void),
            *old(self) is Func && (*old(self))->Func_0.block is Some && distinct_params((*old(self))->Func_0.params@)
                && plain_items((*old(self))->Func_0.block->Some_0.items@) && implementable(old(c), (*old(self))->Func_0)
                ==> r == Ok::<Type, ErrKind>(Type::Void),
            *old(self) is Func && (*old(self))->Func_0.block is Some
                && plain_items((*old(self))->Func_0.block->Some_0.items@) && r is Ok
                ==> forall|k: int| old(c).names@.len() <= k < final(c).names@.len() && (#[trigger] final(c).names@[k]).scope_id == 0
                    ==> final(c).names@[k].name@ == item_name(*old(self)),
            *old(self) is Declare ==> *final(self) is Declare && (*final(self))->Declare_0.var.name == (*old(self))->Declare_0.var.name,
            *old(self) is Func ==> ((*final(self))->Func_0.block is None <==> (*old(self))->Func_0.block is None),
            *old(self) is Func && r is Ok ==> final(c).resolves((*old(self))->Func_0.var.name@, (*final(self))->Func_0.var.id),
            *old(self) is Func && r is Ok ==> func_recorded(final(c), (*final(self))->Func_0.var.id, (*old(self))->Func_0),
            *old(self) is Declare ==> {
                let d = (*old(self))->Declare_0;
                &&& declare_init_ok(old(c), d) matches Err(x) ==> r == Err::<Type, ErrKind>(x)
                &&& declare_init_ok(old(c), d) is Ok && bound_in(old(c).names@, d.var.name@, 0)
                    ==> r == Err::<Type, ErrKind>(ErrKind::ReDeclare)
                &&& declare_init_ok(old(c), d) is Ok && !bound_in(old(c).names@, d.var.name@, 0) ==> {
                    if d.ty == Type::Int && declare_const_of(d) is None {
                        r == Err::<Type, ErrKind>(ErrKind::GlobalNeedConst)
                    } else {
                        r == Ok::<Type, ErrKind>(Type::Void)
                    }
                }
            },
    {
        match self {
            GItemNd::Func(n) => n.analyze(c),
            GItemNd::Declare(n) => {
                let k = n.try_retrieve_const();
                let ghost prev = *c;
                n.analyze(c)?;
                proof {
                    lemma_prefix_agrees(prev.records@, c.records@);
                    lemma_prefix_agrees(prev.names@, c.names@);
                }
                if n.ty == Type::Int && k.is_none() {
                    Err(ErrKind::GlobalNeedConst)
                } else {
                    Ok(Type::Void)
                }
            },
        }
    }
}

impl RootNd {
    /// Analyses the top-level items in order; the first error ends it.
    pub fn analyze(&mut self, c: &mut Context) -> (r: Result<Type, ErrKind>)
        requires
            old(c).wf(),
            old(c).scope_stack@.len() == 1,
            old(c).cur_func_id == 0,
            all_params_named(old(self).items@),
        ensures
            final(c).wf(),
            r is Ok ==> final(c).scope_stack@ == old(c).scope_stack@ && final(c).cur_func_id == 0,
            r is Ok ==> globals_constant(old(self).items@),
            simple_program(old(self).items@) && old(c).names@.len() == 0 ==> r is Ok,
            simple_program(old(self).items@) && old(c).names@.len() == 0 ==> forall|n: Seq<char>|
                bound_in(final(c).names@, n, 0) ==> exists|j: int| 0 <= j < old(self).items@.len()
                    && #[trigger] item_name(old(self).items@[j]) == n,
            r is Ok ==> forall|j: usize| old(c).records@.len() <= j < final(c).records@.len()
                && (#[trigger] final(c).records@[j as int]).entity is Func ==> exists|k: int| 0 <= k < old(self).items@.len()
                    && #[trigger] final(self).items@[k] is Func && final(self).items@[k]->Func_0.var.id == j,
            r is Ok ==> forall|k: int| 0 <= k < old(self).items@.len()
                ==> (#[trigger] final(self).items@[k] is Func <==> old(self).items@[k] is Func),
            r is Ok && simple_program(old(self).items@) && old(c).names@.len() == 0 ==> forall|k: int|
                0 <= k < old(self).items@.len() && (#[trigger] old(self).items@[k]) is Func && old(self).items@[k]->Func_0.block is None
                ==> !final(c).func_of(final(self).items@[k]->Func_0.var.id).has_impl,
            r is Ok ==> final(self).items@.len() == old(self).items@.len()
                && forall|j: int| 0 <= j < old(self).items@.len() && (#[trigger] old(self).items@[j]) is Func
                    ==> final(self).items@[j] is Func
                        && func_recorded(final(c), final(self).items@[j]->Func_0.var.id, old(self).items@[j]->Func_0)
                        && final(c).resolves(old(self).items@[j]->Func_0.var.name@, final(self).items@[j]->Func_0.var.id),
    {
        let ghost items = old(self).items@;
        let mut i: usize = 0;
        while i < self.items.len()
            invariant
                items == old(self).items@,
                all_params_named(items),
                self.items@.len() == items.len(),
                i <= items.len(),
                forall|j: int| i <= j < items.len() ==> self.items@[j] == items[j],
                c.wf(),
                c.scope_stack@ == old(c).scope_stack@,
                old(c).scope_stack@.len() == 1,
                c.cur_func_id == 0,
                globals_constant(items.subrange(0, i as int)),
                forall|j: int| 0 <= j < i && (#[trigger] items[j]) is Func ==> self.items@[j] is Func
                    && func_recorded(c, self.items@[j]->Func_0.var.id, items[j]->Func_0)
                    && c.resolves(items[j]->Func_0.var.name@, self.items@[j]->Func_0.var.id),
                forall|k: int| 0 <= k < i ==> (#[trigger] self.items@[k] is Func <==> items[k] is Func),
                simple_program(items) && old(c).names@.len() == 0 ==> forall|k: int|
                    0 <= k < i && (#[trigger] items[k]) is Func && items[k]->Func_0.block is None
                    ==> !c.func_of(self.items@[k]->Func_0.var.id).has_impl,
                forall|j: usize| old(c).records@.len() <= j < c.records@.len()
                    && (#[trigger] c.records@[j as int]).entity is Func ==> exists|k: int| 0 <= k < i
                        && #[trigger] self.items@[k] is Func && self.items@[k]->Func_0.var.id == j,
                simple_program(items) && old(c).names@.len() == 0 ==> forall|n: Seq<char>|
                    bound_in(c.names@, n, 0) ==> exists|j: int| 0 <= j < i && #[trigger] item_name(items[j]) == n,
            decreases items.len() - i,
        {
            proof {
                assert(items[i as int] is Func ==> params_named(items[i as int]->Func_0));
            }
            let ghost prev = *c;
            let ghost prev_items = self.items@;
            proof {
                if simple_program(items) && old(c).names@.len() == 0 {
                    assert(simple_item(items[i as int]));
                    if items[i as int] is Func {
                        let f = items[i as int]->Func_0;
                        assert forall|id: usize| #[trigger] c.resolves(f.var.name@, id) implies
                            has_sig(c, id, f) && !c.func_of(id).has_impl by {
                            let (k, bi) = choose|k: int, bi: int|
                                0 <= k < c.scope_stack@.len() && 0 <= bi < c.names@.len()
                                    && #[trigger] c.names@[bi].name@ == f.var.name@
                                    && c.names@[bi].scope_id == #[trigger] c.scope_stack@[k]
                                    && c.names@[bi].id == id
                                    && forall|k2: int| k < k2 < c.scope_stack@.len()
                                        ==> !bound_in(c.names@, f.var.name@, #[trigger] c.scope_stack@[k2]);
                            assert(bound_in(c.names@, item_name(items[i as int]), 0));
                            let j = choose|j: int| 0 <= j < i && #[trigger] item_name(items[j]) == item_name(items[i as int]);
                            assert(item_name(items[j]) != item_name(items[i as int]));
                        }
                    }
                    if items[i as int] is Declare {
                        let d = items[i as int]->Declare_0;
                        if d.expr is Some {
                            let e = d.expr->Some_0;
                            assert(e.stack@.drop_last() =~= Seq::<CalcItem>::empty());
                            assert(items_type(c, e.stack@.drop_last()) == Ok::<Seq<Type>, ErrKind>(Seq::empty()));
                            assert(expr_type(c, e) == Ok::<Type, ErrKind>(Type::Int));
                            assert(fold_items(e.stack@.drop_last()) == Some(Seq::<i32>::empty()));
                            assert(declare_const_of(d) is Some);
                        }
                    }
                    if bound_in(c.names@, item_name(items[i as int]), 0) {
                        let j = choose|j: int| 0 <= j < i && #[trigger] item_name(items[j]) == item_name(items[i as int]);
                        assert(item_name(items[j]) != item_name(items[i as int]));
                    }
                }
            }
            self.items[i].analyze(c)?;
            proof {
                if simple_program(items) && old(c).names@.len() == 0 {
                    assert(!prev.visible(item_name(items[i as int]))) by {
                        if prev.visible(item_name(items[i as int])) {
                            let kk = choose|kk: int| 0 <= kk < prev.scope_stack@.len()
                                && bound_in(prev.names@, item_name(items[i as int]), #[trigger] prev.scope_stack@[kk]);
                            assert(prev.scope_stack@[kk] == 0);
                            let j = choose|j: int| 0 <= j < i && #[trigger] item_name(items[j]) == item_name(items[i as int]);
                            assert(item_name(items[j]) != item_name(items[i as int]));
                        }
                    }
                    assert(prev_items[i as int] == items[i as int]);
                    assert forall|k: int| 0 <= k < i + 1 && (#[trigger] items[k]) is Func && items[k]->Func_0.block is None
                        implies !c.func_of(self.items@[k]->Func_0.var.id).has_impl by {
                        if k < i {
                            assert(self.items@[k] == prev_items[k]);
                            let fid = prev_items[k]->Func_0.var.id;
                            assert(func_recorded(&prev, fid, items[k]->Func_0));
                            assert(c.records@[fid as int].entity == prev.records@[fid as int].entity);
                        }
                    }
                }
                assert forall|k: int| 0 <= k < i + 1 implies (#[trigger] self.items@[k] is Func <==> items[k] is Func) by {
                    if k < i {
                        assert(self.items@[k] == prev_items[k]);
                    }
                }
                assert forall|j: usize| old(c).records@.len() <= j < c.records@.len()
                    && (#[trigger] c.records@[j as int]).entity is Func implies exists|k: int| 0 <= k < i + 1
                        && #[trigger] self.items@[k] is Func && self.items@[k]->Func_0.var.id == j by {
                    if j < prev.records@.len() {
                        assert(c.is_func(j));
                        assert(prev.is_func(j));
                        let k = choose|k: int| 0 <= k < i && #[trigger] prev_items[k] is Func && prev_items[k]->Func_0.var.id == j;
                        assert(self.items@[k] == prev_items[k]);
                    } else {
                        assert(self.items@[i as int] is Func);
                    }
                }
            }
            proof {
                if simple_program(items) && old(c).names@.len() == 0 {
                    assert forall|n: Seq<char>| bound_in(c.names@, n, 0) implies
                        exists|j: int| 0 <= j < i + 1 && #[trigger] item_name(items[j]) == n by {
                        let b = choose|b: int| 0 <= b < c.names@.len() && #[trigger] c.names@[b].name@ == n
                            && c.names@[b].scope_id == 0;
                        if b < prev.names@.len() {
                            assert(c.names@[b] == c.names@.subrange(0, prev.names@.len() as int)[b]);
                            assert(bound_in(prev.names@, n, 0));
                        } else {
                            assert(item_name(items[i as int]) == n);
                        }
                    }
                }
            }
            proof {
                assert forall|j: int| 0 <= j < i + 1 && (#[trigger] items[j]) is Func implies self.items@[j] is Func
                    && func_recorded(c, self.items@[j]->Func_0.var.id, items[j]->Func_0)
                    && c.resolves(items[j]->Func_0.var.name@, self.items@[j]->Func_0.var.id) by {
                    if j < i {
                        assert(self.items@[j] == prev_items[j]);
                        let id = self.items@[j]->Func_0.var.id;
                        let nm = items[j]->Func_0.var.name@;
                        assert(prev.is_func(id));
                        assert(prev.resolves(nm, id));
                        let (k, bi) = choose|k: int, bi: int|
                            0 <= k < prev.scope_stack@.len() && 0 <= bi < prev.names@.len()
                                && #[trigger] prev.names@[bi].name@ == nm
                                && prev.names@[bi].scope_id == #[trigger] prev.scope_stack@[k]
                                && prev.names@[bi].id == id
                                && forall|k2: int| k < k2 < prev.scope_stack@.len()
                                    ==> !bound_in(prev.names@, nm, #[trigger] prev.scope_stack@[k2]);
                        assert(c.names@[bi] == prev.names@[bi]);
                        assert(c.names@[bi].scope_id == c.scope_stack@[k]);
                        assert(c.resolves(nm, id));
                    }
                }
                assert forall|j: int| 0 <= j < i + 1 && (#[trigger] items.subrange(0, i + 1)[j]) is Declare
                    && items.subrange(0, i + 1)[j]->Declare_0.ty == Type::Int
                    implies declare_const_of(items.subrange(0, i + 1)[j]->Declare_0) is Some by {
                    if j < i {
                        assert(items.subrange(0, i + 1)[j] == items.subrange(0, i as int)[j]);
                    }
                }
            }
            i += 1;
        }
        assert(items.subrange(0, i as int) =~= items);
        Ok(Type::Void)
    }
}

/// Whether every function item of a program has a body.
pub open spec fn all_implemented_items(items: Seq<GItemNd>) -> bool {
    forall|k: int| 0 <= k < items.len() && (#[trigger] items[k]) is Func ==> items[k]->Func_0.block is Some
}

/// Whether some function item is a `main` without parameters returning an
/// integer.
pub open spec fn has_main(items: Seq<GItemNd>) -> bool {
    exists|k: int| 0 <= k < items.len() && (#[trigger] items[k]) is Func && items[k]->Func_0.var.name@ == main_name()
        && items[k]->Func_0.params@.len() == 0 && items[k]->Func_0.ret_ty == Type::Int
}

/// Runs semantic analysis over a whole program and finalizes its model.
pub fn analyze_program(root: &mut RootNd) -> (r: Result<SemanticModel, ErrKind>)
    requires
        all_params_named(old(root).items@),
    ensures
        r matches Ok(m) ==> m.checked(),
        r is Ok ==> globals_constant(old(root).items@),
        r matches Ok(m) ==> forall|j: int| 0 <= j < old(root).items@.len() && (#[trigger] old(root).items@[j]) is Func
            ==> final(root).items@[j] is Func && {
                let id = final(root).items@[j]->Func_0.var.id;
                &&& id < m.records@.len()
                &&& m.records@[id as int].entity is Func
                &&& m.records@[id as int].entity->Func_0.ty.params@ == func_type_of(old(root).items@[j]->Func_0).0
                &&& m.records@[id as int].entity->Func_0.ty.ret == func_type_of(old(root).items@[j]->Func_0).1
                &&& m.records@[id as int].entity->Func_0.has_impl
            },
        forall|j: int| 0 <= j < old(root).items@.len() && (#[trigger] old(root).items@[j]) is Func
            && old(root).items@[j]->Func_0.var.name@ == main_name()
            && !(old(root).items@[j]->Func_0.params@.len() == 0 && old(root).items@[j]->Func_0.ret_ty == Type::Int)
            ==> r is Err,
        simple_program(old(root).items@) ==> forall|j: int| 0 <= j < old(root).items@.len() && (#[trigger] old(root).items@[j]) is Func
            && old(root).items@[j]->Func_0.var.name@ == main_name()
            && !(old(root).items@[j]->Func_0.params@.len() == 0 && old(root).items@[j]->Func_0.ret_ty == Type::Int)
            ==> r == Err::<SemanticModel, ErrKind>(ErrKind::TypeErr),
        simple_program(old(root).items@)
            && (forall|j: int| 0 <= j < old(root).items@.len() ==> item_name(#[trigger] old(root).items@[j]) != main_name())
            ==> r == Err::<SemanticModel, ErrKind>(ErrKind::NoMainFunc),
        simple_program(old(root).items@) && all_implemented_items(old(root).items@) && has_main(old(root).items@) ==> r is Ok,
        simple_program(old(root).items@) && !all_implemented_items(old(root).items@) && has_main(old(root).items@)
            ==> r == Err::<SemanticModel, ErrKind>(ErrKind::FuncNoImpl),
{
    let mut c = Context::new();
    root.analyze(&mut c)?;
    // Reading the length tells the proof that every id of the arena fits in `usize`.
    let n_records = c.records.len();
    let ghost ca = c;
    let r = c.finalize();
    proof {
        if r is Ok {
            let m = r->Ok_0;
            assert forall|j: int| 0 <= j < old(root).items@.len() && (#[trigger] old(root).items@[j]) is Func
                implies root.items@[j] is Func && {
                    let id = root.items@[j]->Func_0.var.id;
                    &&& id < m.records@.len()
                    &&& m.records@[id as int].entity is Func
                    &&& m.records@[id as int].entity->Func_0.ty.params@ == func_type_of(old(root).items@[j]->Func_0).0
                    &&& m.records@[id as int].entity->Func_0.ty.ret == func_type_of(old(root).items@[j]->Func_0).1
                    &&& m.records@[id as int].entity->Func_0.has_impl
                } by {
                let id = root.items@[j]->Func_0.var.id;
                assert(func_recorded(&ca, id, old(root).items@[j]->Func_0));
                assert(m.records@[id as int] == ca.records@[id as int]);
            }
        }
        assert forall|j: int| 0 <= j < old(root).items@.len() && (#[trigger] old(root).items@[j]) is Func
            && old(root).items@[j]->Func_0.var.name@ == main_name()
            && !(old(root).items@[j]->Func_0.params@.len() == 0 && old(root).items@[j]->Func_0.ret_ty == Type::Int)
            implies r == Err::<SemanticModel, ErrKind>(ErrKind::TypeErr) by {
            let id = root.items@[j]->Func_0.var.id;
            assert(ca.resolves(main_name(), id));
            assert(func_type_of(old(root).items@[j]->Func_0).0.len() == old(root).items@[j]->Func_0.params@.len());
            assert(!ca.is_main_sig(id));
        }
        if simple_program(old(root).items@) && all_implemented_items(old(root).items@) && has_main(old(root).items@) {
            let k = choose|k: int| 0 <= k < old(root).items@.len() && (#[trigger] old(root).items@[k]) is Func
                && old(root).items@[k]->Func_0.var.name@ == main_name()
                && old(root).items@[k]->Func_0.params@.len() == 0 && old(root).items@[k]->Func_0.ret_ty == Type::Int;
            let id = root.items@[k]->Func_0.var.id;
            assert(ca.resolves(main_name(), id));
            assert(func_recorded(&ca, id, old(root).items@[k]->Func_0));
            assert(func_type_of(old(root).items@[k]->Func_0).0.len() == 0);
            assert(ca.is_main_sig(id));
            assert forall|j: int| 0 <= j < ca.records@.len() && (#[trigger] ca.records@[j]).entity is Func
                implies ca.records@[j].entity->Func_0.has_impl by {
                let ju = j as usize;
                assert(ca.records@[ju as int].entity is Func);
                let k2 = choose|k2: int| 0 <= k2 < old(root).items@.len()
                    && #[trigger] root.items@[k2] is Func && root.items@[k2]->Func_0.var.id == ju;
                assert(old(root).items@[k2] is Func);
                assert(func_recorded(&ca, ju, old(root).items@[k2]->Func_0));
            }
            assert(ca.all_implemented());
        }
        if simple_program(old(root).items@) && !all_implemented_items(old(root).items@) && has_main(old(root).items@) {
            let k = choose|k: int| 0 <= k < old(root).items@.len() && (#[trigger] old(root).items@[k]) is Func
                && old(root).items@[k]->Func_0.var.name@ == main_name()
                && old(root).items@[k]->Func_0.params@.len() == 0 && old(root).items@[k]->Func_0.ret_ty == Type::Int;
            let id = root.items@[k]->Func_0.var.id;
            assert(ca.resolves(main_name(), id));
            assert(func_recorded(&ca, id, old(root).items@[k]->Func_0));
            assert(func_type_of(old(root).items@[k]->Func_0).0.len() == 0);
            assert(ca.is_main_sig(id));
            let p = choose|p: int| 0 <= p < old(root).items@.len() && (#[trigger] old(root).items@[p]) is Func
                && !(old(root).items@[p]->Func_0.block is Some);
            let pid = root.items@[p]->Func_0.var.id;
            assert(func_recorded(&ca, pid, old(root).items@[p]->Func_0));
            assert(!ca.func_of(pid).has_impl);
            assert(ca.records@[pid as int].entity is Func);
            assert(!ca.all_implemented());
        }
        if simple_program(old(root).items@)
            && (forall|j: int| 0 <= j < old(root).items@.len() ==> item_name(#[trigger] old(root).items@[j]) != main_name()) {
            if ca.visible(main_name()) {
                let k = choose|k: int| 0 <= k < ca.scope_stack@.len() && bound_in(ca.names@, main_name(), #[trigger] ca.scope_stack@[k]);
                assert(ca.scope_stack@[k] == 0);
                let j = choose|j: int| 0 <= j < old(root).items@.len() && #[trigger] item_name(old(root).items@[j]) == main_name();
            }
        }
    }
    r
}

} // verus!
