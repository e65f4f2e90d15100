use vstd::prelude::*;
use crate::types::{calc_op_1, calc_op_2, eval_op_1, eval_op_2, get_op_param_num, op_arity, FuncType, Op, Type, Value};

verus! {

/// An operand of an expression.
#[derive(Debug)]
pub enum FactorNd {
    Var(VarNd),
    Value(Value),
    Func(FuncCallNd),
}

/// One entry of a postfix expression.
#[derive(Debug)]
pub enum CalcItem {
    Op(Op),
    Factor(FactorNd),
}

/// An expression, its operands and operators laid out in postfix order.
#[derive(Debug)]
pub struct ExprNd {
    pub stack: Vec<CalcItem>,
}

/// One step of constant folding: the operand stack after `it`, or `None`
/// once folding has given up.
pub open spec fn fold_step(st: Seq<i32>, it: CalcItem) -> Option<Seq<i32>> {
    match it {
        CalcItem::Op(op) => if st.len() < op_arity(op) {
            None
        } else if op_arity(op) == 1 {
            match eval_op_1(op, st.last()) {
                Some(n) => Some(st.drop_last().push(n)),
                None => None,
            }
        } else {
            match eval_op_2(op, st[st.len() - 2], st.last()) {
                Some(n) => Some(st.drop_last().drop_last().push(n)),
                None => None,
            }
        },
        CalcItem::Factor(FactorNd::Value(Value::Int(n))) => Some(st.push(n)),
        _ => None,
    }
}

/// The operand stack after folding `items` from an empty stack.
pub open spec fn fold_items(items: Seq<CalcItem>) -> Option<Seq<i32>>
    decreases items.len(),
{
    if items.len() == 0 {
        Some(Seq::empty())
    } else {
        match fold_items(items.drop_last()) {
            Some(st) => fold_step(st, items.last()),
            None => None,
        }
    }
}

/// The compile-time value of a postfix sequence: defined when it holds only
/// literals and operators with a compile-time value, and leaves one value.
pub open spec fn const_of(items: Seq<CalcItem>) -> Option<i32> {
    match fold_items(items) {
        Some(st) => if st.len() == 1 {
            Some(st[0])
        } else {
            None
        },
        None => None,
    }
}

/// Once folding has given up on a prefix, it gives up on the whole sequence.
proof fn lemma_fold_none_prefix(items: Seq<CalcItem>, k: int)
    requires
        0 <= k <= items.len(),
        fold_items(items.subrange(0, k)) is None,
    ensures
        fold_items(items) is None,
    decreases items.len() - k,
{
    if k < items.len() {
        assert(items.subrange(0, k + 1).drop_last() =~= items.subrange(0, k));
        lemma_fold_none_prefix(items, k + 1);
    } else {
        assert(items.subrange(0, k) =~= items);
    }
}

impl ExprNd {
    pub fn new(stack: Vec<CalcItem>) -> (r: Self)
        ensures
            r.stack@ == stack@,
    {
        ExprNd { stack }
    }

    /// The variable this expression consists of, if it is a single variable.
    pub fn try_to_var(&self) -> (r: Option<VarNd>)
        ensures
            r matches Some(v) <==> (self.stack@.len() == 1
                && self.stack@[0] is Factor && self.stack@[0]->Factor_0 is Var),
            r matches Some(v) ==> v == self.stack@[0]->Factor_0->Var_0,
    {
        if self.stack.len() != 1 {
            None
        } else {
            match &self.stack[0] {
                CalcItem::Factor(FactorNd::Var(v)) => Some(VarNd { name: v.name.clone(), id: v.id }),
                _ => None,
            }
        }
    }

    /// Folds the expression to a constant, if it is built from literals and
    /// operators with a compile-time value alone.
    pub fn try_retrieve_const(&self) -> (r: Option<i32>)
        ensures
            r == const_of(self.stack@),
    {
        let mut st: Vec<i32> = Vec::new();
        let mut i: usize = 0;
        while i < self.stack.len()
            invariant
                i <= self.stack@.len(),
                fold_items(self.stack@.subrange(0, i as int)) == Some(st@),
            decreases self.stack@.len() - i,
        {
            proof {
                assert(self.stack@.subrange(0, i + 1).drop_last() =~= self.stack@.subrange(0, i as int));
            }
            proof {
                if fold_items(self.stack@.subrange(0, i + 1)) is None {
                    lemma_fold_none_prefix(self.stack@, i + 1);
                }
            }
            match &self.stack[i] {
                CalcItem::Op(op) => {
                    let num = get_op_param_num(*op);
                    if st.len() < num {
                        return None;
                    }
                    if num == 1 {
                        let a = st.pop().unwrap();
                        match calc_op_1(*op, a) {
                            Some(n) => st.push(n),
                            None => return None,
                        }
                    } else {
                        let b = st.pop().unwrap();
                        let a = st.pop().unwrap();
                        match calc_op_2(*op, a, b) {
                            Some(n) => st.push(n),
                            None => return None,
                        }
                    }
                },
                CalcItem::Factor(FactorNd::Value(Value::Int(n))) => {
                    st.push(*n);
                },
                _ => {
                    return None;
                },
            }
            i += 1;
        }
        assert(self.stack@.subrange(0, i as int) =~= self.stack@);
        if st.len() != 1 {
            None
        } else {
            Some(st[0])
        }
    }
}

/// A reference to a name; `id` is the entity it resolves to, set by analysis.
#[derive(Debug)]
pub struct VarNd {
    pub name: String,
    pub id: usize,
}

impl VarNd {
    pub fn new(name: String) -> (r: Self)
        ensures
            r.name@ == name@,
            r.id == 0,
    {
        VarNd { name, id: 0 }
    }

    pub fn get_id(&self) -> (r: usize)
        ensures
            r == self.id,
    {
        self.id
    }

    pub fn set_id(&mut self, id: usize)
        ensures
            final(self).id == id,
            final(self).name == old(self).name,
    {
        self.id = id;
    }
}

/// `name = expr;`
#[derive(Debug)]
pub struct AssignNd {
    pub var: VarNd,
    pub expr: ExprNd,
}

impl AssignNd {
    pub fn new(v: VarNd, ex: ExprNd) -> (r: Self)
        ensures
            r.var == v,
            r.expr == ex,
    {
        AssignNd { var: v, expr: ex }
    }
}

/// `ty name [= expr];`
#[derive(Debug)]
pub struct DeclareNd {
    pub ty: Type,
    pub var: VarNd,
    pub expr: Option<ExprNd>,
}

/// The constant a declaration stores: zero without an initializer, else
/// the folded initializer.
pub open spec fn declare_const_of(d: DeclareNd) -> Option<i32> {
    match d.expr {
        None => Some(0),
        Some(e) => const_of(e.stack@),
    }
}

impl DeclareNd {
    pub fn new(ty: Type, v: VarNd, ex: Option<ExprNd>) -> (r: Self)
        ensures
            r.ty == ty,
            r.var == v,
            r.expr == ex,
    {
        DeclareNd { ty, var: v, expr: ex }
    }

    /// The constant this declaration stores, if it can be folded.
    pub fn try_retrieve_const(&self) -> (r: Option<i32>)
        ensures
            r == declare_const_of(*self),
    {
        match &self.expr {
            None => Some(0),
            Some(e) => e.try_retrieve_const(),
        }
    }
}

/// `if (expr) item [else ...]`; `id` is the scope of the taken branch.
#[derive(Debug)]
pub struct IfNd {
    pub expr: ExprNd,
    pub item: ItemNd,
    pub els: Option<ElsNd>,
    pub id: usize,
}

impl IfNd {
    pub fn new(expr: ExprNd, item: ItemNd, els: Option<ElsNd>) -> (r: Self)
        ensures
            r.expr == expr,
            r.item == item,
            r.els == els,
            r.id == 0,
    {
        IfNd { expr, item, els, id: 0 }
    }

    pub fn get_id(&self) -> (r: usize)
        ensures
            r == self.id,
    {
        self.id
    }

    pub fn set_id(&mut self, id: usize)
        ensures
            *final(self) == (IfNd { id, ..*old(self) }),
    {
        self.id = id;
    }
}

/// What follows `else`.
#[derive(Debug)]
pub enum ElsNd {
    If(Box<IfNd>),
    Item(ItemNd),
}

/// `while (expr) item`; `id` is the loop scope.
#[derive(Debug)]
pub struct WhileNd {
    pub expr: ExprNd,
    pub item: ItemNd,
    pub id: usize,
}

impl WhileNd {
    pub fn new(expr: ExprNd, item: ItemNd) -> (r: Self)
        ensures
            r.expr == expr,
            r.item == item,
            r.id == 0,
    {
        WhileNd { expr, item, id: 0 }
    }

    pub fn get_id(&self) -> (r: usize)
        ensures
            r == self.id,
    {
        self.id
    }

    pub fn set_id(&mut self, id: usize)
        ensures
            *final(self) == (WhileNd { id, ..*old(self) }),
    {
        self.id = id;
    }
}

/// `break;`: `id` is the target loop scope, `pop_off` the storage units to
/// discard when jumping out.
#[derive(Debug)]
pub struct BreakNd {
    pub id: usize,
    pub pop_off: usize,
}

impl BreakNd {
    pub fn new() -> (r: Self)
        ensures
            r.id == 0,
            r.pop_off == 0,
    {
        BreakNd { id: 0, pop_off: 0 }
    }

    pub fn get_id(&self) -> (r: usize)
        ensures
            r == self.id,
    {
        self.id
    }

    pub fn set_id(&mut self, id: usize)
        ensures
            final(self).id == id,
            final(self).pop_off == old(self).pop_off,
    {
        self.id = id;
    }

    pub fn get_pop_off(&self) -> (r: usize)
        ensures
            r == self.pop_off,
    {
        self.pop_off
    }

    pub fn set_pop_off(&mut self, pop_off: usize)
        ensures
            final(self).pop_off == pop_off,
            final(self).id == old(self).id,
    {
        self.pop_off = pop_off;
    }
}

/// `continue;`: annotated as `break` is.
#[derive(Debug)]
pub struct ContinueNd {
    pub id: usize,
    pub pop_off: usize,
}

impl ContinueNd {
    pub fn new() -> (r: Self)
        ensures
            r.id == 0,
            r.pop_off == 0,
    {
        ContinueNd { id: 0, pop_off: 0 }
    }

    pub fn get_id(&self) -> (r: usize)
        ensures
            r == self.id,
    {
        self.id
    }

    pub fn set_id(&mut self, id: usize)
        ensures
            final(self).id == id,
            final(self).pop_off == old(self).pop_off,
    {
        self.id = id;
    }

    pub fn get_pop_off(&self) -> (r: usize)
        ensures
            r == self.pop_off,
    {
        self.pop_off
    }

    pub fn set_pop_off(&mut self, pop_off: usize)
        ensures
            final(self).pop_off == pop_off,
            final(self).id == old(self).id,
    {
        self.pop_off = pop_off;
    }
}

/// `return [expr];`: `sz` is the size of the function's return type.
#[derive(Debug)]
pub struct ReturnNd {
    pub expr: Option<ExprNd>,
    pub sz: usize,
}

impl ReturnNd {
    pub fn new(expr: Option<ExprNd>) -> (r: Self)
        ensures
            r.expr == expr,
            r.sz == 0,
    {
        ReturnNd { expr, sz: 0 }
    }

    pub fn get_sz(&self) -> (r: usize)
        ensures
            r == self.sz,
    {
        self.sz
    }

    pub fn set_sz(&mut self, sz: usize)
        ensures
            final(self).sz == sz,
            final(self).expr == old(self).expr,
    {
        self.sz = sz;
    }
}

/// A simple statement.
#[derive(Debug)]
pub enum StmtNd {
    Assign(AssignNd),
    Declare(DeclareNd),
    Expr(ExprNd),
    Print(VarNd),
    Empty,
}

/// A statement, block or control-flow construct.
#[derive(Debug)]
pub enum ItemNd {
    Stmt(StmtNd),
    Block(BlockNd),
    If(Box<IfNd>),
    While(Box<WhileNd>),
    Return(ReturnNd),
    Continue(ContinueNd),
    Break(BreakNd),
}

impl ItemNd {
    pub fn is_declare(&self) -> (r: bool)
        ensures
            r == (self is Stmt && self->Stmt_0 is Declare),
    {
        if let ItemNd::Stmt(StmtNd::Declare(_)) = self {
            true
        } else {
            false
        }
    }
}

/// `{ items }`; `id` is its scope.
#[derive(Debug)]
pub struct BlockNd {
    pub items: Vec<ItemNd>,
    pub id: usize,
}

impl BlockNd {
    pub fn new(items: Vec<ItemNd>) -> (r: Self)
        ensures
            r.items@ == items@,
            r.id == 0,
    {
        BlockNd { items, id: 0 }
    }

    pub fn get_id(&self) -> (r: usize)
        ensures
            r == self.id,
    {
        self.id
    }

    pub fn set_id(&mut self, id: usize)
        ensures
            final(self).id == id,
            final(self).items == old(self).items,
    {
        self.id = id;
    }
}

/// A function prototype (no block) or implementation.
#[derive(Debug)]
pub struct FuncNd {
    pub ret_ty: Type,
    pub var: VarNd,
    pub params: Vec<(Type, Option<VarNd>)>,
    pub block: Option<BlockNd>,
}

/// The signature a function node declares.
pub open spec fn func_type_of(f: FuncNd) -> (Seq<Type>, Type) {
    (f.params@.map_values(|p: (Type, Option<VarNd>)| p.0), f.ret_ty)
}

/// Whether a parameter carries a name.
pub open spec fn named(p: (Type, Option<VarNd>)) -> bool {
    p.1 is Some
}

impl FuncNd {
    pub fn new(ty: Type, var: VarNd, params: Vec<(Type, Option<VarNd>)>, block: Option<BlockNd>) -> (r: Self)
        ensures
            r.ret_ty == ty,
            r.var == var,
            r.params@ == params@,
            r.block == block,
    {
        FuncNd { ret_ty: ty, var, params, block }
    }

    pub fn is_impl(&self) -> (r: bool)
        ensures
            r == (self.block is Some),
    {
        self.block.is_some()
    }

    /// An implementation must name every parameter.
    pub fn check(&self) -> (r: bool)
        ensures
            r == ((self.block is Some) ==> forall|i: int|
                0 <= i < self.params@.len() ==> #[trigger] named(self.params@[i])),
    {
        if self.is_impl() {
            let mut i: usize = 0;
            while i < self.params.len()
                invariant
                    self.block is Some,
                    i <= self.params@.len(),
                    forall|j: int| 0 <= j < i ==> #[trigger] named(self.params@[j]),
                decreases self.params@.len() - i,
            {
                match &self.params[i].1 {
                    None => {
                        assert(!named(self.params@[i as int]));
                        return false;
                    },
                    Some(_) => {},
                }
                i += 1;
            }
        }
        true
    }

    /// The signature this function declares.
    pub fn func_ty(&self) -> (r: FuncType)
        ensures
            (r.params@, r.ret) == func_type_of(*self),
    {
        let mut ty_vec: Vec<Type> = Vec::new();
        let mut i: usize = 0;
        while i < self.params.len()
            invariant
                i <= self.params@.len(),
                ty_vec@ =~= self.params@.subrange(0, i as int).map_values(|p: (Type, Option<VarNd>)| p.0),
            decreases self.params@.len() - i,
        {
            ty_vec.push(self.params[i].0);
            i += 1;
        }
        assert(self.params@.subrange(0, i as int) =~= self.params@);
        FuncType { params: ty_vec, ret: self.ret_ty }
    }
}

/// `name(args...)`
#[derive(Debug)]
pub struct FuncCallNd {
    pub var: VarNd,
    pub params: Vec<ExprNd>,
}

impl FuncCallNd {
    pub fn new(var: VarNd, params: Vec<ExprNd>) -> (r: Self)
        ensures
            r.var == var,
            r.params@ == params@,
    {
        FuncCallNd { var, params }
    }
}

/// A top-level item.
#[derive(Debug)]
pub enum GItemNd {
    Declare(DeclareNd),
    Func(FuncNd),
}

/// A whole program.
#[derive(Debug)]
pub struct RootNd {
    pub items: Vec<GItemNd>,
}

impl RootNd {
    pub fn new(items: Vec<GItemNd>) -> (r: Self)
        ensures
            r.items@ == items@,
    {
        RootNd { items }
    }
}

} // verus!
