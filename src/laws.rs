use vstd::prelude::*;
use crate::analyzer::{args_check, call_type, expr_type, lemma_args_err_prefix};
use crate::code::Code;
use crate::codegen::{expr_code, items_code};
use crate::context::{bound_in, Context, SemanticModel};
use crate::nodes::{const_of, fold_items, CalcItem, ExprNd, FactorNd, FuncCallNd};
use crate::types::{eval_op_1, eval_op_2, op_arity, ErrKind, Type, Value};

verus! {

/// One step of the stack machine on the instructions that arithmetic uses;
/// `None` where the step fails or leaves arithmetic.
pub open spec fn machine_step(st: Seq<i32>, c: Code) -> Option<Seq<i32>> {
    match c {
        Code::PushV(n) => Some(st.push(n)),
        Code::Op(op) => if st.len() < op_arity(op) {
            None
        } else if op_arity(op) == 1 {
            match eval_op_1(op, st.last()) {
                Some(n) => Some(st.drop_last().push(n)),
                None => None,
            }
        } else {
            match eval_op_2(op, st[st.len() - 2], st.last()) {
                Some(n) => Some(st.drop_last().drop_last().push(n)),
                None => None,
            }
        },
        _ => None,
    }
}

/// The operand stack after running `code` from an empty stack.
pub open spec fn run(code: Seq<Code>) -> Option<Seq<i32>>
    decreases code.len(),
{
    if code.len() == 0 {
        Some(Seq::empty())
    } else {
        match run(code.drop_last()) {
            Some(st) => machine_step(st, code.last()),
            None => None,
        }
    }
}

proof fn lemma_run_items(m: &SemanticModel, items: Seq<CalcItem>)
    requires
        fold_items(items) is Some,
    ensures
        run(items_code(m, items)) == fold_items(items),
    decreases items.len(),
{
    if items.len() > 0 {
        let pre = items.drop_last();
        if fold_items(pre) is None {
            assert(fold_items(items) is None);
        }
        lemma_run_items(m, pre);
        let c = items_code(m, items);
        match items.last() {
            CalcItem::Op(op) => {
                assert(c == items_code(m, pre).push(Code::Op(op)));
                assert(c.drop_last() =~= items_code(m, pre));
            },
            CalcItem::Factor(f) => {
                match f {
                    FactorNd::Value(Value::Int(n)) => {
                        assert(crate::codegen::factor_code(m, f) == seq![Code::PushV(n)]);
                        assert(c =~= items_code(m, pre).push(Code::PushV(n)));
                        assert(c.drop_last() =~= items_code(m, pre));
                    },
                    _ => {
                        assert(fold_items(items) is None);
                    },
                }
            },
        }
    }
}

/// Round trip: an expression that folds to a constant compiles to
/// instructions that, run on the stack machine from an empty stack, leave
/// exactly that value.
pub proof fn law_constant_round_trip(m: &SemanticModel, e: ExprNd, v: i32)
    requires
        const_of(e.stack@) == Some(v),
    ensures
        run(expr_code(m, e)) == Some(seq![v]),
{
    lemma_run_items(m, e.stack@);
    let st = fold_items(e.stack@)->Some_0;
    assert(st =~= seq![v]);
}

/// Shadowing: after a scope is entered and `name` is declared in it, `name`
/// denotes the new entity; once the scope is left it denotes again what it
/// denoted before. The declaration cannot fail, the new scope being empty.
pub proof fn law_shadowing(
    c0: Context,
    c1: Context,
    c2: Context,
    c3: Context,
    name: Seq<char>,
    is_loop: bool,
    scope: usize,
    size: nat,
    inner: usize,
    outer: usize,
)
    requires
        c0.wf(),
        c0.resolves(name, outer),
        Context::entered(&c0, &c1, is_loop, scope),
        Context::declared(&c1, &c2, name, size, inner),
        Context::exited(&c2, &c3),
    ensures
        !bound_in(c1.names@, name, c1.current_scope()),
        c2.resolves(name, inner),
        c3.resolves(name, outer),
{
    let n = c0.records@.len();
    assert(c1.current_scope() == scope);
    assert forall|i: int| 0 <= i < c1.names@.len() implies !(#[trigger] c1.names@[i].name@ == name
        && c1.names@[i].scope_id == scope) by {
        assert(c1.names@[i] == c0.names@[i]);
    }
    let last = c2.names@.len() - 1;
    assert(c2.names@[last].name@ == name && c2.names@[last].scope_id == c2.scope_stack@[c2.scope_stack@.len() - 1]);
    assert(c2.resolves(name, inner));
    assert(c3.scope_stack@ =~= c0.scope_stack@);
    assert(c3.names@ == c2.names@);
    assert(c2.names@.subrange(0, c1.names@.len() as int) == c0.names@);
    let (k, i) = choose|k: int, i: int|
        0 <= k < c0.scope_stack@.len() && 0 <= i < c0.names@.len()
            && #[trigger] c0.names@[i].name@ == name
            && c0.names@[i].scope_id == #[trigger] c0.scope_stack@[k]
            && c0.names@[i].id == outer
            && forall|k2: int| k < k2 < c0.scope_stack@.len()
                ==> !bound_in(c0.names@, name, #[trigger] c0.scope_stack@[k2]);
    assert(c3.names@[i] == c0.names@[i]);
    assert forall|k2: int| k < k2 < c3.scope_stack@.len() implies
        !bound_in(c3.names@, name, #[trigger] c3.scope_stack@[k2]) by {
        assert(!bound_in(c0.names@, name, c0.scope_stack@[k2]));
        assert(c0.is_scope(c0.scope_stack@[k2]));
        if bound_in(c3.names@, name, c3.scope_stack@[k2]) {
            let j = choose|j: int| 0 <= j < c3.names@.len() && #[trigger] c3.names@[j].name@ == name
                && c3.names@[j].scope_id == c3.scope_stack@[k2];
            if j < last {
                assert(c3.names@[j] == c0.names@[j]);
            }
        }
    }
    assert(c3.resolves(name, outer));
}

/// Re-declaration: once `name` has been declared, it is bound in the scope
/// that is still current, so declaring it there again fails with
/// `ReDeclare`.
pub proof fn law_redeclare(c0: Context, c1: Context, name: Seq<char>, size: nat, id: usize)
    requires
        Context::declared(&c0, &c1, name, size, id),
    ensures
        bound_in(c1.names@, name, c1.current_scope()),
{
    let last = c1.names@.len() - 1;
    assert(c1.names@[last].name@ == name && c1.names@[last].scope_id == c1.current_scope());
}

/// Determinism: the frame-relative offsets that finalization produces are a
/// function of the layout arena alone, so equal arenas give equal offsets.
pub proof fn law_offsets_deterministic(c1: Context, c2: Context)
    requires
        c1.records@ == c2.records@,
    ensures
        forall|i: int| 0 <= i < c1.records@.len() ==> #[trigger] c1.frame_offset(i) == c2.frame_offset(i),
{
}

proof fn lemma_args_ok_prefix(c: &Context, args: Seq<ExprNd>, tys: Seq<Type>, k: int)
    requires
        0 <= k <= args.len(),
        args.len() <= tys.len(),
        forall|i: int| 0 <= i < k ==> expr_type(c, #[trigger] args[i]) == Ok::<Type, ErrKind>(tys[i]),
    ensures
        args_check(c, args.subrange(0, k), tys) == Ok::<(), ErrKind>(()),
    decreases k,
{
    if k > 0 {
        lemma_args_ok_prefix(c, args, tys, k - 1);
        assert(args.subrange(0, k).drop_last() =~= args.subrange(0, k - 1));
        assert(args.subrange(0, k).last() == args[k - 1]);
    }
}

/// Arity and argument types: for a call of a function with as many
/// arguments as it has parameters, all but one of them well typed, the call
/// has the function's return type when the remaining argument has its
/// parameter's type, and fails with `TypeErr` when it has another type.
pub proof fn law_call_argument_types(c: &Context, call: FuncCallNd, id: usize, j: int, t: Type)
    requires
        c.wf(),
        c.resolves(call.var.name@, id),
        c.is_func(id),
        call.params@.len() == c.func_of(id).ty.params@.len(),
        0 <= j < call.params@.len(),
        expr_type(c, call.params@[j]) == Ok::<Type, ErrKind>(t),
        forall|i: int| 0 <= i < call.params@.len() && i != j
            ==> expr_type(c, #[trigger] call.params@[i]) == Ok::<Type, ErrKind>(c.func_of(id).ty.params@[i]),
    ensures
        t == c.func_of(id).ty.params@[j] ==> call_type(c, call) == Ok::<Type, ErrKind>(c.func_of(id).ty.ret),
        t != c.func_of(id).ty.params@[j] ==> call_type(c, call) == Err::<Type, ErrKind>(ErrKind::TypeErr),
{
    let name = call.var.name@;
    let args = call.params@;
    let tys = c.func_of(id).ty.params@;
    let (k, i) = choose|k: int, i: int|
        0 <= k < c.scope_stack@.len() && 0 <= i < c.names@.len()
            && #[trigger] c.names@[i].name@ == name
            && c.names@[i].scope_id == #[trigger] c.scope_stack@[k]
            && c.names@[i].id == id
            && forall|k2: int| k < k2 < c.scope_stack@.len()
                ==> !bound_in(c.names@, name, #[trigger] c.scope_stack@[k2]);
    assert(bound_in(c.names@, name, c.scope_stack@[k]));
    assert(c.visible(name));
    let chosen = choose|id2: usize| c.resolves(name, id2);
    c.lemma_resolves_unique(name, id, chosen);
    if t == tys[j] {
        lemma_args_ok_prefix(c, args, tys, args.len() as int);
        assert(args.subrange(0, args.len() as int) =~= args);
    } else {
        lemma_args_ok_prefix(c, args, tys, j);
        assert(args.subrange(0, j + 1).drop_last() =~= args.subrange(0, j));
        assert(args.subrange(0, j + 1).last() == args[j]);
        assert(args_check(c, args.subrange(0, j + 1), tys) == Err::<(), ErrKind>(ErrKind::TypeErr));
        lemma_args_err_prefix(c, args, tys, j + 1);
    }
}

} // verus!
