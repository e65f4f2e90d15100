use vstd::prelude::*;
use crate::code::{Addr, Code};
use crate::context::{owner_of, Entity, SemanticModel};
use crate::nodes::{
    AssignNd, BlockNd, CalcItem, DeclareNd, ElsNd, ExprNd, FactorNd, FuncCallNd,
    FuncNd, GItemNd, IfNd, ItemNd, RootNd, StmtNd, VarNd, WhileNd, declare_const_of,
};
use crate::types::{Type, Value};

verus! {

/// Where the value of entity `id` lives: a frame slot for entities owned by
/// a function, static memory for globals. Ids outside the model, which
/// analysis never records, address the first static cell.
pub open spec fn location(m: &SemanticModel, id: usize) -> Addr {
    if id < m.offsets@.len() && id < m.records@.len() {
        if owner_of(m.records@[id as int].entity) != 0 {
            Addr::Indirect(m.offsets@[id as int])
        } else {
            Addr::Direct(m.offsets@[id as int])
        }
    } else {
        Addr::Direct(0)
    }
}

/// Where the value of entity `id` lives.
pub fn get_location(m: &SemanticModel, id: usize) -> (r: Addr)
    ensures
        r == location(m, id),
{
    if id < m.offsets.len() && id < m.records.len() {
        let off = m.offsets[id];
        let owned = match &m.records[id].entity {
            Entity::Scope(s) => s.func_id != 0,
            Entity::Var(v) => v.func_id != 0,
            Entity::Func(_) => false,
        };
        if owned {
            Addr::Indirect(off)
        } else {
            Addr::Direct(off)
        }
    } else {
        Addr::Direct(0)
    }
}

/// The instructions of an operand.
pub open spec fn factor_code(m: &SemanticModel, f: FactorNd) -> Seq<Code>
    decreases f,
{
    match f {
        FactorNd::Var(v) => seq![Code::PushA(location(m, v.id))],
        FactorNd::Value(Value::Int(n)) => seq![Code::PushV(n)],
        FactorNd::Func(call) => call_code(m, call),
    }
}

/// The instructions of a call: the arguments left to right, then the call
/// of the callee's identity, which linking turns into its address.
pub open spec fn call_code(m: &SemanticModel, call: FuncCallNd) -> Seq<Code>
    decreases call,
{
    args_code(m, call.params@) + seq![Code::Call(call.var.id)]
}

pub open spec fn args_code(m: &SemanticModel, args: Seq<ExprNd>) -> Seq<Code>
    decreases args,
{
    if args.len() == 0 {
        Seq::empty()
    } else {
        args_code(m, args.drop_last()) + expr_code(m, args.last())
    }
}

/// The postfix sequence replayed item by item.
pub open spec fn items_code(m: &SemanticModel, items: Seq<CalcItem>) -> Seq<Code>
    decreases items,
{
    if items.len() == 0 {
        Seq::empty()
    } else {
        items_code(m, items.drop_last()) + match items.last() {
            CalcItem::Op(op) => seq![Code::Op(op)],
            CalcItem::Factor(f) => factor_code(m, f),
        }
    }
}

pub open spec fn expr_code(m: &SemanticModel, e: ExprNd) -> Seq<Code>
    decreases e,
{
    items_code(m, e.stack@)
}

/// The instruction stream being built and the static memory image.
#[derive(Debug)]
pub struct Emitter {
    pub code: Vec<Code>,
    pub memory: Vec<i32>,
}

impl Emitter {
    pub fn new() -> (r: Self)
        ensures
            r.code@.len() == 0,
            r.memory@.len() == 0,
    {
        Emitter { code: Vec::new(), memory: Vec::new() }
    }

    pub fn add_code(&mut self, c: Code)
        ensures
            final(self).code@ == old(self).code@.push(c),
            final(self).memory@ == old(self).memory@,
    {
        self.code.push(c);
    }
}

impl VarNd {
    /// Pushes the variable's value.
    pub fn compile(&self, m: &SemanticModel, out: &mut Emitter)
        ensures
            final(out).code@ == old(out).code@.push(Code::PushA(location(m, self.id))),
            final(out).memory@ == old(out).memory@,
    {
        out.add_code(Code::PushA(get_location(m, self.id)));
    }
}

impl FactorNd {
    pub fn compile(&self, m: &SemanticModel, out: &mut Emitter)
        ensures
            final(out).code@ == old(out).code@ + factor_code(m, *self),
            final(out).memory@ == old(out).memory@,
        decreases self,
    {
        match self {
            FactorNd::Var(n) => {
                n.compile(m, out);
                assert(final(out).code@ =~= old(out).code@ + factor_code(m, *self));
            },
            FactorNd::Value(Value::Int(n)) => {
                out.add_code(Code::PushV(*n));
                assert(final(out).code@ =~= old(out).code@ + factor_code(m, *self));
            },
            FactorNd::Func(n) => n.compile(m, out),
        }
    }
}

impl FuncCallNd {
    /// Pushes the arguments left to right, then calls.
    pub fn compile(&self, m: &SemanticModel, out: &mut Emitter)
        ensures
            final(out).code@ == old(out).code@ + call_code(m, *self),
            final(out).memory@ == old(out).memory@,
        decreases self,
    {
        let ghost args = self.params@;
        let mut i: usize = 0;
        while i < self.params.len()
            invariant
                args == self.params@,
                decreases_to!(*self => args),
                i <= args.len(),
                out.code@ == old(out).code@ + args_code(m, args.subrange(0, i as int)),
                out.memory@ == old(out).memory@,
            decreases args.len() - i,
        {
            proof {
                assert(decreases_to!(args => args[i as int]));
                assert(args.subrange(0, i + 1).drop_last() =~= args.subrange(0, i as int));
                assert(args.subrange(0, i + 1).last() == args[i as int]);
            }
            self.params[i].compile(m, out);
            proof {
                assert(out.code@ =~= old(out).code@ + args_code(m, args.subrange(0, i + 1)));
            }
            i += 1;
        }
        assert(args.subrange(0, i as int) =~= args);
        out.add_code(Code::Call(self.var.id));
        assert(final(out).code@ =~= old(out).code@ + call_code(m, *self));
    }
}

impl ExprNd {
    /// Replays the postfix sequence: operands push, operators apply.
    pub fn compile(&self, m: &SemanticModel, out: &mut Emitter)
        ensures
            final(out).code@ == old(out).code@ + expr_code(m, *self),
            final(out).memory@ == old(out).memory@,
        decreases self,
    {
        let ghost items = self.stack@;
        let mut i: usize = 0;
        while i < self.stack.len()
            invariant
                items == self.stack@,
                decreases_to!(*self => items),
                i <= items.len(),
                out.code@ == old(out).code@ + items_code(m, items.subrange(0, i as int)),
                out.memory@ == old(out).memory@,
            decreases items.len() - i,
        {
            proof {
                assert(decreases_to!(items => items[i as int]));
                assert(items.subrange(0, i + 1).drop_last() =~= items.subrange(0, i as int));
                assert(items.subrange(0, i + 1).last() == items[i as int]);
            }
            match &self.stack[i] {
                CalcItem::Op(op) => out.add_code(Code::Op(*op)),
                CalcItem::Factor(f) => f.compile(m, out),
            }
            proof {
                assert(out.code@ =~= old(out).code@ + items_code(m, items.subrange(0, i + 1)));
            }
            i += 1;
        }
        assert(items.subrange(0, i as int) =~= items);
    }
}

/// The instructions of a simple statement. A declaration stores its initial
/// value into the variable's slot.
pub open spec fn stmt_code(m: &SemanticModel, s: StmtNd) -> Seq<Code> {
    match s {
        StmtNd::Assign(a) => expr_code(m, a.expr).push(Code::Store(location(m, a.var.id))),
        StmtNd::Declare(d) => match d.expr {
            Some(e) => expr_code(m, e).push(Code::Store(location(m, d.var.id))),
            None => seq![Code::PushV(0), Code::Store(location(m, d.var.id))],
        },
        StmtNd::Expr(e) => expr_code(m, e).push(Code::Pop),
        StmtNd::Print(v) => seq![Code::PushA(location(m, v.id)), Code::Print, Code::Pop],
        StmtNd::Empty => Seq::empty(),
    }
}

impl AssignNd {
    /// Computes the value, then stores it into the variable.
    pub fn compile(&self, m: &SemanticModel, out: &mut Emitter)
        ensures
            final(out).code@ == old(out).code@ + stmt_code(m, StmtNd::Assign(*self)),
            final(out).memory@ == old(out).memory@,
    {
        self.expr.compile(m, out);
        out.add_code(Code::Store(get_location(m, self.var.id)));
    }
}

impl DeclareNd {
    /// Computes the initial value, zero without an initializer, and stores
    /// it into the variable's slot.
    pub fn compile(&self, m: &SemanticModel, out: &mut Emitter)
        ensures
            final(out).code@ == old(out).code@ + stmt_code(m, StmtNd::Declare(*self)),
            final(out).memory@ == old(out).memory@,
    {
        match &self.expr {
            Some(e) => e.compile(m, out),
            None => out.add_code(Code::PushV(0)),
        }
        out.add_code(Code::Store(get_location(m, self.var.id)));
        assert(final(out).code@ =~= old(out).code@ + stmt_code(m, StmtNd::Declare(*self)));
    }
}

impl StmtNd {
    pub fn compile(&self, m: &SemanticModel, out: &mut Emitter)
        ensures
            final(out).code@ == old(out).code@ + stmt_code(m, *self),
            final(out).memory@ == old(out).memory@,
    {
        match self {
            StmtNd::Assign(n) => n.compile(m, out),
            StmtNd::Declare(n) => n.compile(m, out),
            StmtNd::Expr(n) => {
                n.compile(m, out);
                out.add_code(Code::Pop);
            },
            StmtNd::Print(n) => {
                n.compile(m, out);
                out.add_code(Code::Print);
                out.add_code(Code::Pop);
            },
            StmtNd::Empty => {},
        }
        assert(final(out).code@ =~= old(out).code@ + stmt_code(m, *self));
    }
}

/// The relative offset of a jump at `from` to `to`.
pub open spec fn rel(from: int, to: int) -> isize {
    (to - from) as isize
}

fn jump_offset(from: usize, to: usize) -> (r: isize)
    requires
        from <= isize::MAX,
        to <= isize::MAX,
    ensures
        r == rel(from as int, to as int),
{
    (to as isize) - (from as isize)
}

/// `n` discards.
pub open spec fn pops(n: nat) -> Seq<Code> {
    Seq::new(n, |i: int| Code::Pop)
}

/// A jump out of or back into a loop: release the `pop_off` units of local
/// storage allocated since the loop was entered, then jump to `target`.
pub open spec fn jump_code(pos: int, pop_off: usize, target: usize) -> Seq<Code> {
    pops(pop_off as nat).push(Code::Jump(rel(pos + pop_off, target as int)))
}

/// The instructions of an item placed at `pos`; `lp` holds the continue and
/// break targets of the innermost loop.
pub open spec fn item_code(m: &SemanticModel, it: ItemNd, pos: int, lp: Option<(usize, usize)>) -> Seq<Code>
    decreases it,
{
    match it {
        ItemNd::Stmt(s) => stmt_code(m, s),
        ItemNd::Block(b) => block_code(m, b.items@, pos, lp),
        ItemNd::If(n) => if_code(m, *n, pos, lp),
        ItemNd::While(n) => while_code(m, *n, pos),
        ItemNd::Return(r) => match r.expr {
            Some(e) => expr_code(m, e).push(Code::Ret),
            None => seq![Code::Ret],
        },
        ItemNd::Break(b) => match lp {
            Some((_, brk)) => jump_code(pos, b.pop_off, brk),
            None => Seq::empty(),
        },
        ItemNd::Continue(c) => match lp {
            Some((cont, _)) => jump_code(pos, c.pop_off, cont),
            None => Seq::empty(),
        },
    }
}

/// The items of a block one after the other from `pos`.
pub open spec fn block_code(m: &SemanticModel, items: Seq<ItemNd>, pos: int, lp: Option<(usize, usize)>) -> Seq<Code>
    decreases items,
{
    if items.len() == 0 {
        Seq::empty()
    } else {
        let pre = block_code(m, items.drop_last(), pos, lp);
        pre + item_code(m, items.last(), pos + pre.len(), lp)
    }
}

/// condition; jump past the branch when false; branch; and with an `else`,
/// a jump past the `else` part, then that part.
pub open spec fn if_code(m: &SemanticModel, n: IfNd, pos: int, lp: Option<(usize, usize)>) -> Seq<Code>
    decreases n,
{
    let c = expr_code(m, n.expr);
    let tpos = pos + c.len() + 1;
    let t = item_code(m, n.item, tpos, lp);
    match n.els {
        None => c.push(Code::CondJump(rel(pos + c.len(), tpos + t.len()))) + t,
        Some(e) => {
            let epos = tpos + t.len() + 1;
            let el = els_code(m, e, epos, lp);
            c.push(Code::CondJump(rel(pos + c.len(), epos))) + t.push(Code::Jump(rel(epos - 1, epos + el.len()))) + el
        },
    }
}

pub open spec fn els_code(m: &SemanticModel, e: ElsNd, pos: int, lp: Option<(usize, usize)>) -> Seq<Code>
    decreases e,
{
    match e {
        ElsNd::If(n) => if_code(m, *n, pos, lp),
        ElsNd::Item(it) => item_code(m, it, pos, lp),
    }
}

/// A loop at `pos`: a jump over the break landing, the break landing (a
/// jump to the exit), the condition, a jump to the exit when it is false,
/// the body, and a jump back to the condition.
pub open spec fn while_code(m: &SemanticModel, n: WhileNd, pos: int) -> Seq<Code>
    decreases n,
{
    let c = expr_code(m, n.expr);
    let bpos = pos + 2 + c.len() + 1;
    let b = item_code(m, n.item, bpos, Some(((pos + 2) as usize, (pos + 1) as usize)));
    let exit = bpos + b.len() + 1;
    seq![Code::Jump(2), Code::Jump(rel(pos + 1, exit))] + c.push(Code::CondJump(rel(pos + 2 + c.len(), exit)))
        + b.push(Code::Jump(rel(bpos + b.len(), pos + 2)))
}

/// Whether code of `len` instructions placed at the end of `out` keeps every
/// address within jump range, and the loop targets are already placed.
pub open spec fn fits(out: &Emitter, len: int, lp: Option<(usize, usize)>) -> bool {
    &&& out.code@.len() + len <= isize::MAX
    &&& lp matches Some((c, b)) ==> c <= out.code@.len() && b <= out.code@.len()
}

impl ItemNd {
    pub fn compile(&self, m: &SemanticModel, out: &mut Emitter, lp: Option<(usize, usize)>)
        requires
            fits(old(out), item_code(m, *self, old(out).code@.len() as int, lp).len() as int, lp),
        ensures
            final(out).code@ == old(out).code@ + item_code(m, *self, old(out).code@.len() as int, lp),
            final(out).memory@ == old(out).memory@,
        decreases self,
    {
        match self {
            ItemNd::Stmt(n) => n.compile(m, out),
            ItemNd::Block(n) => n.compile(m, out, lp),
            ItemNd::If(n) => n.compile(m, out, lp),
            ItemNd::While(n) => n.compile(m, out),
            ItemNd::Return(n) => {
                match &n.expr {
                    Some(e) => e.compile(m, out),
                    None => {},
                }
                out.add_code(Code::Ret);
                assert(final(out).code@ =~= old(out).code@ + item_code(m, *self, old(out).code@.len() as int, lp));
            },
            ItemNd::Break(n) => {
                match lp {
                    Some((_, brk)) => emit_jump(out, n.pop_off, brk),
                    None => {},
                }
                assert(final(out).code@ =~= old(out).code@ + item_code(m, *self, old(out).code@.len() as int, lp));
            },
            ItemNd::Continue(n) => {
                match lp {
                    Some((cont, _)) => emit_jump(out, n.pop_off, cont),
                    None => {},
                }
                assert(final(out).code@ =~= old(out).code@ + item_code(m, *self, old(out).code@.len() as int, lp));
            },
        }
    }
}

/// Discards `pop_off` values, then jumps to `target`.
fn emit_jump(out: &mut Emitter, pop_off: usize, target: usize)
    requires
        old(out).code@.len() + pop_off + 1 <= isize::MAX,
        target <= isize::MAX,
    ensures
        final(out).code@ == old(out).code@ + jump_code(old(out).code@.len() as int, pop_off, target),
        final(out).memory@ == old(out).memory@,
{
    let mut i: usize = 0;
    while i < pop_off
        invariant
            i <= pop_off,
            out.code@ =~= old(out).code@ + pops(i as nat),
            out.memory@ == old(out).memory@,
        decreases pop_off - i,
    {
        out.add_code(Code::Pop);
        i += 1;
    }
    let from = out.code.len();
    out.add_code(Code::Jump(jump_offset(from, target)));
    assert(final(out).code@ =~= old(out).code@ + jump_code(old(out).code@.len() as int, pop_off, target));
}

impl BlockNd {
    pub fn compile(&self, m: &SemanticModel, out: &mut Emitter, lp: Option<(usize, usize)>)
        requires
            fits(old(out), block_code(m, self.items@, old(out).code@.len() as int, lp).len() as int, lp),
        ensures
            final(out).code@ == old(out).code@ + block_code(m, self.items@, old(out).code@.len() as int, lp),
            final(out).memory@ == old(out).memory@,
        decreases self,
    {
        let ghost items = self.items@;
        let ghost pos = old(out).code@.len() as int;
        let mut i: usize = 0;
        while i < self.items.len()
            invariant
                items == self.items@,
                decreases_to!(*self => items),
                i <= items.len(),
                fits(old(out), block_code(m, items, pos, lp).len() as int, lp),
                pos == old(out).code@.len(),
                out.code@ == old(out).code@ + block_code(m, items.subrange(0, i as int), pos, lp),
                out.memory@ == old(out).memory@,
            decreases items.len() - i,
        {
            proof {
                assert(decreases_to!(items => items[i as int]));
                assert(items.subrange(0, i + 1).drop_last() =~= items.subrange(0, i as int));
                assert(items.subrange(0, i + 1).last() == items[i as int]);
                lemma_block_prefix_len(m, items, pos, lp, i + 1);
            }
            self.items[i].compile(m, out, lp);
            proof {
                assert(out.code@ =~= old(out).code@ + block_code(m, items.subrange(0, i + 1), pos, lp));
            }
            i += 1;
        }
        assert(items.subrange(0, i as int) =~= items);
    }
}

/// The code of a prefix of a block is no longer than that of the block.
proof fn lemma_block_prefix_len(m: &SemanticModel, items: Seq<ItemNd>, pos: int, lp: Option<(usize, usize)>, k: int)
    requires
        0 <= k <= items.len(),
    ensures
        block_code(m, items.subrange(0, k), pos, lp).len() <= block_code(m, items, pos, lp).len(),
    decreases items.len() - k,
{
    if k < items.len() {
        lemma_block_prefix_len(m, items, pos, lp, k + 1);
        assert(items.subrange(0, k + 1).drop_last() =~= items.subrange(0, k));
    } else {
        assert(items.subrange(0, k) =~= items);
    }
}

impl IfNd {
    pub fn compile(&self, m: &SemanticModel, out: &mut Emitter, lp: Option<(usize, usize)>)
        requires
            fits(old(out), if_code(m, *self, old(out).code@.len() as int, lp).len() as int, lp),
        ensures
            final(out).code@ == old(out).code@ + if_code(m, *self, old(out).code@.len() as int, lp),
            final(out).memory@ == old(out).memory@,
        decreases self,
    {
        let ghost pos = old(out).code@.len() as int;
        self.expr.compile(m, out);
        let j = out.code.len();
        out.add_code(Code::CondJump(0));
        self.item.compile(m, out, lp);
        match &self.els {
            None => {
                let end = out.code.len();
                out.code.set(j, Code::CondJump(jump_offset(j, end)));
                assert(out.code@ =~= old(out).code@ + if_code(m, *self, pos, lp));
            },
            Some(e) => {
                let k = out.code.len();
                out.add_code(Code::Jump(0));
                out.code.set(j, Code::CondJump(jump_offset(j, k + 1)));
                e.compile(m, out, lp);
                let end = out.code.len();
                out.code.set(k, Code::Jump(jump_offset(k, end)));
                assert(out.code@ =~= old(out).code@ + if_code(m, *self, pos, lp));
            },
        }
    }
}

impl ElsNd {
    pub fn compile(&self, m: &SemanticModel, out: &mut Emitter, lp: Option<(usize, usize)>)
        requires
            fits(old(out), els_code(m, *self, old(out).code@.len() as int, lp).len() as int, lp),
        ensures
            final(out).code@ == old(out).code@ + els_code(m, *self, old(out).code@.len() as int, lp),
            final(out).memory@ == old(out).memory@,
        decreases self,
    {
        match self {
            ElsNd::If(n) => n.compile(m, out, lp),
            ElsNd::Item(n) => n.compile(m, out, lp),
        }
    }
}

impl WhileNd {
    pub fn compile(&self, m: &SemanticModel, out: &mut Emitter)
        requires
            old(out).code@.len() + while_code(m, *self, old(out).code@.len() as int).len() <= isize::MAX,
        ensures
            final(out).code@ == old(out).code@ + while_code(m, *self, old(out).code@.len() as int),
            final(out).memory@ == old(out).memory@,
        decreases self,
    {
        let pos = out.code.len();
        out.add_code(Code::Jump(2));
        out.add_code(Code::Jump(0));
        self.expr.compile(m, out);
        let j = out.code.len();
        out.add_code(Code::CondJump(0));
        self.item.compile(m, out, Some((pos + 2, pos + 1)));
        let back = out.code.len();
        out.add_code(Code::Jump(jump_offset(back, pos + 2)));
        let exit = out.code.len();
        out.code.set(pos + 1, Code::Jump(jump_offset(pos + 1, exit)));
        out.code.set(j, Code::CondJump(jump_offset(j, exit)));
        assert(out.code@ =~= old(out).code@ + while_code(m, *self, pos as int));
    }
}

/// The body of an implemented function followed by its implicit return;
/// prototypes and globals emit nothing.
pub open spec fn gitem_code(m: &SemanticModel, g: GItemNd, pos: int) -> Seq<Code> {
    match g {
        GItemNd::Func(f) => match f.block {
            Some(b) => block_code(m, b.items@, pos, None).push(Code::Ret),
            None => Seq::empty(),
        },
        GItemNd::Declare(_) => Seq::empty(),
    }
}

/// The top-level items one after the other from `pos`.
pub open spec fn program_code(m: &SemanticModel, items: Seq<GItemNd>, pos: int) -> Seq<Code>
    decreases items.len(),
{
    if items.len() == 0 {
        Seq::empty()
    } else {
        let pre = program_code(m, items.drop_last(), pos);
        pre + gitem_code(m, items.last(), pos + pre.len())
    }
}

/// The entry address of each implemented function, in program order.
pub open spec fn program_entries(m: &SemanticModel, items: Seq<GItemNd>, pos: int) -> Seq<(usize, usize)>
    decreases items.len(),
{
    if items.len() == 0 {
        Seq::empty()
    } else {
        let pre = program_entries(m, items.drop_last(), pos);
        let at = pos + program_code(m, items.drop_last(), pos).len();
        match items.last() {
            GItemNd::Func(f) => if f.block is Some {
                pre.push((f.var.id, at as usize))
            } else {
                pre
            },
            GItemNd::Declare(_) => pre,
        }
    }
}

/// The value an integer global starts with.
pub open spec fn global_value(d: DeclareNd) -> i32 {
    match declare_const_of(d) {
        Some(v) => v,
        None => 0,
    }
}

/// `mem` with `v` in cell `at`, grown with zero cells as far as needed.
pub open spec fn placed(mem: Seq<i32>, at: int, v: i32) -> Seq<i32> {
    if at < mem.len() {
        mem.update(at, v)
    } else {
        (mem + Seq::new((at - mem.len()) as nat, |i: int| 0i32)).push(v)
    }
}

/// The static cell of entity `id`: the offset its location names.
pub open spec fn cell_of(m: &SemanticModel, id: usize) -> int {
    match location(m, id) {
        Addr::Direct(a) => a as int,
        Addr::Indirect(a) => a as int,
    }
}

/// The memory image after a top-level item: an integer global puts its
/// value in the cell that its address names.
pub open spec fn gitem_memory(m: &SemanticModel, mem: Seq<i32>, g: GItemNd) -> Seq<i32> {
    match g {
        GItemNd::Declare(d) => if d.ty == Type::Int {
            placed(mem, cell_of(m, d.var.id), global_value(d))
        } else {
            mem
        },
        GItemNd::Func(_) => mem,
    }
}

/// The static memory image: each integer global's value in its own cell,
/// the cells between them zero.
pub open spec fn program_memory(m: &SemanticModel, items: Seq<GItemNd>) -> Seq<i32>
    decreases items.len(),
{
    if items.len() == 0 {
        Seq::empty()
    } else {
        gitem_memory(m, program_memory(m, items.drop_last()), items.last())
    }
}

/// Stores `v` in cell `at`, growing the image with zero cells as needed.
fn place(mem: &mut Vec<i32>, at: usize, v: i32)
    ensures
        final(mem)@ == placed(old(mem)@, at as int, v),
{
    if at < mem.len() {
        mem.set(at, v);
    } else {
        while mem.len() < at
            invariant
                old(mem)@.len() <= mem@.len() <= at,
                mem@ =~= old(mem)@ + Seq::new((mem@.len() - old(mem)@.len()) as nat, |i: int| 0i32),
            decreases at - mem@.len(),
        {
            mem.push(0);
        }
        mem.push(v);
        assert(mem@ =~= placed(old(mem)@, at as int, v));
    }
}

/// The entry address recorded last for function `id`.
pub open spec fn entry_of(entries: Seq<(usize, usize)>, id: usize) -> Option<usize>
    decreases entries.len(),
{
    if entries.len() == 0 {
        None
    } else if entries.last().0 == id {
        Some(entries.last().1)
    } else {
        entry_of(entries.drop_last(), id)
    }
}

/// A call of a function identity turned into a call of its entry address.
pub open spec fn linked(c: Code, entries: Seq<(usize, usize)>) -> Code {
    match c {
        Code::Call(id) => match entry_of(entries, id) {
            Some(a) => Code::Call(a),
            None => c,
        },
        _ => c,
    }
}

fn find_entry(entries: &Vec<(usize, usize)>, id: usize) -> (r: Option<usize>)
    ensures
        r == entry_of(entries@, id),
{
    let mut k: usize = entries.len();
    assert(entries@.subrange(0, k as int) =~= entries@);
    while k > 0
        invariant
            k <= entries@.len(),
            entry_of(entries@, id) == entry_of(entries@.subrange(0, k as int), id),
        decreases k,
    {
        proof {
            assert(entries@.subrange(0, k as int).drop_last() =~= entries@.subrange(0, k - 1));
        }
        if entries[k - 1].0 == id {
            return Some(entries[k - 1].1);
        }
        k -= 1;
    }
    None
}

/// Resolves every call to the entry address of its callee.
pub fn link(code: &mut Vec<Code>, entries: &Vec<(usize, usize)>)
    ensures
        final(code)@.len() == old(code)@.len(),
        forall|i: int| 0 <= i < old(code)@.len() ==> #[trigger] final(code)@[i] == linked(old(code)@[i], entries@),
{
    let mut i: usize = 0;
    while i < code.len()
        invariant
            i <= code@.len(),
            code@.len() == old(code)@.len(),
            forall|j: int| 0 <= j < i ==> #[trigger] code@[j] == linked(old(code)@[j], entries@),
            forall|j: int| i <= j < code@.len() ==> #[trigger] code@[j] == old(code)@[j],
        decreases code@.len() - i,
    {
        match code[i] {
            Code::Call(id) => {
                match find_entry(entries, id) {
                    Some(a) => code.set(i, Code::Call(a)),
                    None => {},
                }
            },
            _ => {},
        }
        i += 1;
    }
}

impl FuncNd {
    /// Emits the body of an implemented function and its implicit return;
    /// returns the entry address.
    pub fn compile(&self, m: &SemanticModel, out: &mut Emitter) -> (r: Option<usize>)
        requires
            old(out).code@.len() + gitem_code(m, GItemNd::Func(*self), old(out).code@.len() as int).len() <= isize::MAX,
        ensures
            final(out).code@ == old(out).code@ + gitem_code(m, GItemNd::Func(*self), old(out).code@.len() as int),
            final(out).memory@ == old(out).memory@,
            r == (if self.block is Some { Some(old(out).code@.len() as usize) } else { None::<usize> }),
    {
        match &self.block {
            Some(b) => {
                let entry = out.code.len();
                b.compile(m, out, None);
                out.add_code(Code::Ret);
                assert(final(out).code@ =~= old(out).code@ + gitem_code(m, GItemNd::Func(*self), entry as int));
                Some(entry)
            },
            None => {
                assert(final(out).code@ =~= old(out).code@);
                None
            },
        }
    }
}

impl GItemNd {
    /// Emits a function body, or adds an integer global's folded value to
    /// the memory image; returns the entry of an emitted function.
    pub fn compile(&self, m: &SemanticModel, out: &mut Emitter) -> (r: Option<(usize, usize)>)
        requires
            old(out).code@.len() + gitem_code(m, *self, old(out).code@.len() as int).len() <= isize::MAX,
        ensures
            final(out).code@ == old(out).code@ + gitem_code(m, *self, old(out).code@.len() as int),
            final(out).memory@ == gitem_memory(m, old(out).memory@, *self),
            r == (match *self {
                GItemNd::Func(f) => if f.block is Some {
                    Some((f.var.id, old(out).code@.len() as usize))
                } else {
                    None::<(usize, usize)>
                },
                GItemNd::Declare(_) => None::<(usize, usize)>,
            }),
    {
        match self {
            GItemNd::Func(f) => {
                let r = match f.compile(m, out) {
                    Some(a) => Some((f.var.id, a)),
                    None => None,
                };
                r
            },
            GItemNd::Declare(d) => {
                if d.ty == Type::Int {
                    let v = match d.try_retrieve_const() {
                        Some(v) => v,
                        None => 0,
                    };
                    let at = match get_location(m, d.var.id) {
                        Addr::Direct(a) => a,
                        Addr::Indirect(a) => a,
                    };
                    place(&mut out.memory, at, v);
                }
                assert(final(out).code@ =~= old(out).code@ + gitem_code(m, *self, old(out).code@.len() as int));
                None
            },
        }
    }
}

impl RootNd {
    /// Emits the program: a call of `main` and a halt, then every function
    /// body, with calls linked to entry addresses; integer globals fill the
    /// static memory image.
    pub fn compile(&self, m: &SemanticModel) -> (r: Emitter)
        requires
            2 + program_code(m, self.items@, 2).len() <= isize::MAX,
        ensures
            r.memory@ == program_memory(m, self.items@),
            r.code@.len() == 2 + program_code(m, self.items@, 2).len(),
            forall|i: int| 0 <= i < r.code@.len() ==> #[trigger] r.code@[i] == linked(
                (seq![Code::Call(m.main_id), Code::Exit] + program_code(m, self.items@, 2))[i],
                program_entries(m, self.items@, 2),
            ),
    {
        let mut out = Emitter::new();
        out.add_code(Code::Call(m.main_id));
        out.add_code(Code::Exit);
        let mut entries: Vec<(usize, usize)> = Vec::new();
        let ghost items = self.items@;
        let ghost head = out.code@;
        let mut i: usize = 0;
        while i < self.items.len()
            invariant
                items == self.items@,
                i <= items.len(),
                head == seq![Code::Call(m.main_id), Code::Exit],
                2 + program_code(m, items, 2).len() <= isize::MAX,
                out.code@ == head + program_code(m, items.subrange(0, i as int), 2),
                out.memory@ == program_memory(m, items.subrange(0, i as int)),
                entries@ == program_entries(m, items.subrange(0, i as int), 2),
            decreases items.len() - i,
        {
            proof {
                assert(items.subrange(0, i + 1).drop_last() =~= items.subrange(0, i as int));
                assert(items.subrange(0, i + 1).last() == items[i as int]);
                lemma_program_prefix_len(m, items, i + 1);
            }
            match self.items[i].compile(m, &mut out) {
                Some(entry) => entries.push(entry),
                None => {},
            }
            proof {
                assert(out.code@ =~= head + program_code(m, items.subrange(0, i + 1), 2));
                assert(out.memory@ == program_memory(m, items.subrange(0, i + 1)));
            }
            i += 1;
        }
        assert(items.subrange(0, i as int) =~= items);
        link(&mut out.code, &entries);
        out
    }
}

/// The code of a prefix of a program is no longer than that of the program.
proof fn lemma_program_prefix_len(m: &SemanticModel, items: Seq<GItemNd>, k: int)
    requires
        0 <= k <= items.len(),
    ensures
        program_code(m, items.subrange(0, k), 2).len() <= program_code(m, items, 2).len(),
    decreases items.len() - k,
{
    if k < items.len() {
        lemma_program_prefix_len(m, items, k + 1);
        assert(items.subrange(0, k + 1).drop_last() =~= items.subrange(0, k));
    } else {
        assert(items.subrange(0, k) =~= items);
    }
}

} // verus!
