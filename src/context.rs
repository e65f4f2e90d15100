use vstd::prelude::*;
use crate::types::{type_size, get_type_size, ErrKind, FuncType, Type};

verus! {

/// The storage taken by one allocation: it starts at `start`; `end` is set
/// when it is closed.
#[derive(Debug, Clone, Copy, PartialEq, Eq, Structural)]
pub struct Layout {
    pub start: usize,
    pub end: Option<usize>,
}

/// A lexical scope: whether it is a loop body, and the function it lives in
/// (0 at file level).
#[derive(Debug, Clone, Copy, PartialEq, Eq, Structural)]
pub struct ScopeInfo {
    pub is_loop: bool,
    pub func_id: usize,
}

/// A variable: the scope and function that own it, and its type.
#[derive(Debug, Clone, Copy, PartialEq, Eq, Structural)]
pub struct VarInfo {
    pub scope_id: usize,
    pub func_id: usize,
    pub ty: Type,
}

/// A function: its signature, whether its body has been seen, and where
/// its frame begins.
#[derive(Debug)]
pub struct FuncInfo {
    pub ty: FuncType,
    pub has_impl: bool,
    pub base: usize,
}

/// What an id stands for.
#[derive(Debug)]
pub enum Entity {
    Scope(ScopeInfo),
    Var(VarInfo),
    Func(FuncInfo),
}

/// An entry of the layout arena; its position is its id.
#[derive(Debug)]
pub struct Record {
    pub layout: Layout,
    pub entity: Entity,
}

/// `name` declared in scope `scope_id` as entity `id`.
#[derive(Debug)]
pub struct Binding {
    pub name: String,
    pub scope_id: usize,
    pub id: usize,
}

/// The analysis-time store: layout arena, name bindings, scope stack,
/// allocation cursor and the function being analysed (0 for none).
#[derive(Debug)]
pub struct Context {
    pub records: Vec<Record>,
    pub names: Vec<Binding>,
    pub scope_stack: Vec<usize>,
    pub cur_offset: usize,
    pub cur_func_id: usize,
}

/// The owning function of an entity, 0 for functions and file level.
pub open spec fn owner_of(e: Entity) -> usize {
    match e {
        Entity::Scope(s) => s.func_id,
        Entity::Var(v) => v.func_id,
        Entity::Func(_) => 0,
    }
}

/// Whether `name` is bound in scope `scope`.
pub open spec fn bound_in(names: Seq<Binding>, name: Seq<char>, scope: usize) -> bool {
    exists|i: int| 0 <= i < names.len() && #[trigger] names[i].name@ == name && names[i].scope_id == scope
}

/// The binding table after adding `name` in `scope` for `id`.
pub open spec fn names_pushed(old_names: Seq<Binding>, new_names: Seq<Binding>, name: Seq<char>, scope: usize, id: usize) -> bool {
    new_names.len() == old_names.len() + 1
        && new_names.subrange(0, old_names.len() as int) == old_names
        && new_names.last().name@ == name
        && new_names.last().scope_id == scope
        && new_names.last().id == id
}

/// The name of the function a program starts in.
pub open spec fn main_name() -> Seq<char> {
    seq!['m', 'a', 'i', 'n']
}

/// The outcome of analysis: the layout arena, each entity's frame-relative
/// offset, and the id of `main`.
#[derive(Debug)]
pub struct SemanticModel {
    pub records: Vec<Record>,
    pub offsets: Vec<usize>,
    pub main_id: usize,
}

/// A sequence that begins with `a` agrees with `a` at each of its positions.
pub proof fn lemma_prefix_agrees<T>(a: Seq<T>, b: Seq<T>)
    requires
        a.len() <= b.len(),
        b.subrange(0, a.len() as int) == a,
    ensures
        forall|j: int| 0 <= j < a.len() ==> #[trigger] b[j] == a[j],
{
    assert forall|j: int| 0 <= j < a.len() implies #[trigger] b[j] == a[j] by {
        assert(b[j] == b.subrange(0, a.len() as int)[j]);
    }
}

impl SemanticModel {
    /// What finalization guarantees of every model it returns: `main` is a
    /// function without parameters that returns an integer, every function
    /// has a body, and each entity has an offset.
    pub open spec fn checked(&self) -> bool {
        &&& self.main_id < self.records@.len()
        &&& self.records@[self.main_id as int].entity is Func
        &&& self.records@[self.main_id as int].entity->Func_0.ty.params@.len() == 0
        &&& self.records@[self.main_id as int].entity->Func_0.ty.ret == Type::Int
        &&& forall|i: int| 0 <= i < self.records@.len() && (#[trigger] self.records@[i]).entity is Func
            ==> self.records@[i].entity->Func_0.has_impl
        &&& self.offsets@.len() == self.records@.len()
    }
}

impl Context {
    pub open spec fn is_func(&self, id: usize) -> bool {
        id < self.records@.len() && self.records@[id as int].entity is Func
    }

    pub open spec fn is_scope(&self, id: usize) -> bool {
        id < self.records@.len() && self.records@[id as int].entity is Scope
    }

    pub open spec fn start_of(&self, id: usize) -> usize {
        self.records@[id as int].layout.start
    }

    pub open spec fn func_of(&self, id: usize) -> FuncInfo {
        self.records@[id as int].entity->Func_0
    }

    pub open spec fn current_scope(&self) -> usize {
        self.scope_stack@.last()
    }

    /// The entity that `name` denotes: the binding of the innermost scope on
    /// the stack that binds it.
    pub open spec fn resolves(&self, name: Seq<char>, id: usize) -> bool {
        exists|k: int, i: int|
            0 <= k < self.scope_stack@.len() && 0 <= i < self.names@.len()
                && #[trigger] self.names@[i].name@ == name
                && self.names@[i].scope_id == #[trigger] self.scope_stack@[k]
                && self.names@[i].id == id
                && forall|k2: int| k < k2 < self.scope_stack@.len()
                    ==> !bound_in(self.names@, name, #[trigger] self.scope_stack@[k2])
    }

    /// Whether `name` is bound in some scope on the stack.
    pub open spec fn visible(&self, name: Seq<char>) -> bool {
        exists|k: int| 0 <= k < self.scope_stack@.len() && bound_in(self.names@, name, #[trigger] self.scope_stack@[k])
    }

    /// Whether the `k`-th scope on the stack is a loop scope.
    pub open spec fn loop_scope_at(&self, k: int) -> bool {
        0 <= k < self.scope_stack@.len()
            && self.records@[self.scope_stack@[k] as int].entity is Scope
            && self.records@[self.scope_stack@[k] as int].entity->Scope_0.is_loop
    }

    pub open spec fn wf(&self) -> bool {
        let recs = self.records@;
        let n = recs.len();
        &&& n >= 1
        &&& recs[0].entity == Entity::Scope(ScopeInfo { is_loop: false, func_id: 0 })
        &&& self.scope_stack@.len() >= 1
        &&& self.scope_stack@[0] == 0
        &&& forall|k: int| 0 <= k < self.scope_stack@.len() ==> self.is_scope(#[trigger] self.scope_stack@[k])
        &&& forall|k: int| 1 <= k < self.scope_stack@.len() ==> #[trigger] self.scope_stack@[k] != 0
        &&& forall|i: int| 0 <= i < self.names@.len() ==> {
            &&& (#[trigger] self.names@[i]).scope_id < n
            &&& 0 < self.names@[i].id < n
        }
        &&& forall|i: int, j: int| 0 <= i < j < self.names@.len() ==>
            !(#[trigger] self.names@[i].name@ == #[trigger] self.names@[j].name@
                && self.names@[i].scope_id == self.names@[j].scope_id)
        &&& self.cur_offset < n
        &&& forall|i: int| 0 <= i < n ==> (#[trigger] recs[i]).layout.start <= self.cur_offset
            && (recs[i].layout.end matches Some(e) ==> recs[i].layout.start <= e)
        &&& (self.cur_func_id == 0 || (self.is_func(self.cur_func_id)
            && self.func_of(self.cur_func_id).base <= self.cur_offset))
        &&& self.cur_func_id != 0 ==> self.func_of(self.cur_func_id).has_impl
        &&& forall|i: int| 0 <= i < n ==> #[trigger] owner_of(recs[i].entity) != 0 ==> {
            &&& self.is_func(owner_of(recs[i].entity))
            &&& self.func_of(owner_of(recs[i].entity)).base <= recs[i].layout.start
            &&& self.func_of(owner_of(recs[i].entity)).has_impl
        }
    }

    /// Creates a context holding the file scope alone.
    pub fn new() -> (r: Self)
        ensures
            r.wf(),
            r.records@.len() == 1,
            r.records@[0].layout == (Layout { start: 0, end: None }),
            r.names@.len() == 0,
            r.scope_stack@ == seq![0usize],
            r.cur_offset == 0,
            r.cur_func_id == 0,
    {
        let mut records: Vec<Record> = Vec::new();
        records.push(Record {
            layout: Layout { start: 0, end: None },
            entity: Entity::Scope(ScopeInfo { is_loop: false, func_id: 0 }),
        });
        let mut scope_stack: Vec<usize> = Vec::new();
        scope_stack.push(0);
        Context { records, names: Vec::new(), scope_stack, cur_offset: 0, cur_func_id: 0 }
    }

    /// The innermost open scope.
    pub fn get_current_scope_id(&self) -> (r: usize)
        requires
            self.wf(),
        ensures
            r == self.current_scope(),
    {
        self.scope_stack[self.scope_stack.len() - 1]
    }

    /// The function being analysed, 0 at file level.
    pub fn get_cur_func_id(&self) -> (r: usize)
        ensures
            r == self.cur_func_id,
    {
        self.cur_func_id
    }


    /// The position in the binding table of `name` in scope `scope`.
    fn find_binding(&self, name: &String, scope: usize) -> (r: Option<usize>)
        ensures
            r is None <==> !bound_in(self.names@, name@, scope),
            r matches Some(i) ==> i < self.names@.len() && self.names@[i as int].name@ == name@
                && self.names@[i as int].scope_id == scope,
    {
        let mut i: usize = 0;
        while i < self.names.len()
            invariant
                i <= self.names@.len(),
                forall|j: int| 0 <= j < i ==> !(#[trigger] self.names@[j].name@ == name@
                    && self.names@[j].scope_id == scope),
            decreases self.names@.len() - i,
        {
            if self.names[i].scope_id == scope && self.names[i].name == *name {
                return Some(i);
            }
            i += 1;
        }
        None
    }

    /// Resolves `name` to the entity of the innermost scope that binds it.
    pub fn fetch(&self, name: &String) -> (r: Result<usize, ErrKind>)
        requires
            self.wf(),
        ensures
            r is Err <==> !self.visible(name@),
            r matches Err(e) ==> e == ErrKind::NoDeclare,
            r matches Ok(id) ==> self.resolves(name@, id) && 0 < id < self.records@.len(),
    {
        let mut k: usize = self.scope_stack.len();
        while k > 0
            invariant
                self.wf(),
                k <= self.scope_stack@.len(),
                forall|k2: int| k <= k2 < self.scope_stack@.len()
                    ==> !bound_in(self.names@, name@, #[trigger] self.scope_stack@[k2]),
            decreases k,
        {
            k -= 1;
            match self.find_binding(name, self.scope_stack[k]) {
                Some(i) => {
                    let id = self.names[i].id;
                    assert(self.names@[i as int].name@ == name@
                        && self.names@[i as int].scope_id == self.scope_stack@[k as int]);
                    return Ok(id);
                },
                None => {},
            }
        }
        assert forall|k2: int| 0 <= k2 < self.scope_stack@.len()
            implies !bound_in(self.names@, name@, #[trigger] self.scope_stack@[k2]) by {}
        Err(ErrKind::NoDeclare)
    }


    /// The effect of a successful declaration of `name` as entity `id`,
    /// taking `size` storage units at the cursor.
    pub open spec fn declared(old: &Context, new: &Context, name: Seq<char>, size: nat, id: usize) -> bool {
        &&& id == old.records@.len()
        &&& new.records@.len() == old.records@.len() + 1
        &&& new.records@.subrange(0, id as int) == old.records@
        &&& new.records@[id as int].layout == Layout { start: old.cur_offset, end: Some((old.cur_offset + size) as usize) }
        &&& names_pushed(old.names@, new.names@, name, old.current_scope(), id)
        &&& new.cur_offset == old.cur_offset + size
        &&& new.scope_stack@ == old.scope_stack@
    }

    fn declare(&mut self, name: &String, size: usize, entity: Entity) -> (r: Result<usize, ErrKind>)
        requires
            old(self).wf(),
            size <= 1,
            !(entity is Scope),
            owner_of(entity) == old(self).cur_func_id,
            entity is Func ==> entity->Func_0.base <= old(self).cur_offset,
        ensures
            final(self).wf(),
            final(self).cur_func_id == old(self).cur_func_id,
            bound_in(old(self).names@, name@, old(self).current_scope()) ==> r == Err::<usize, ErrKind>(ErrKind::ReDeclare)
                && *final(self) == *old(self),
            !bound_in(old(self).names@, name@, old(self).current_scope()) ==> (r matches Ok(id)
                && Self::declared(old(self), final(self), name@, size as nat, id)
                && final(self).records@[id as int].entity == entity),
    {
        let scope = self.get_current_scope_id();
        if self.find_binding(name, scope).is_some() {
            return Err(ErrKind::ReDeclare);
        }
        let id = self.records.len();
        let start = self.cur_offset;
        self.records.push(Record { layout: Layout { start, end: Some(start + size) }, entity });
        self.cur_offset = start + size;
        self.names.push(Binding { name: name.clone(), scope_id: scope, id });
        proof {
            let n = self.records@.len();
            assert(self.records@.subrange(0, id as int) =~= old(self).records@);
            assert forall|i: int| 0 <= i < n implies #[trigger] owner_of(self.records@[i].entity) != 0 ==> {
                &&& self.is_func(owner_of(self.records@[i].entity))
                &&& self.func_of(owner_of(self.records@[i].entity)).base <= self.records@[i].layout.start
                &&& self.func_of(owner_of(self.records@[i].entity)).has_impl
            } by {
                if i < n - 1 {
                    assert(self.records@[i] == old(self).records@[i]);
                    let f = owner_of(self.records@[i].entity);
                    if f != 0 {
                        assert(self.records@[f as int] == old(self).records@[f as int]);
                    }
                } else {
                    let f = owner_of(self.records@[i].entity);
                    if f != 0 {
                        assert(self.records@[f as int] == old(self).records@[f as int]);
                    }
                }
            }
            assert forall|i: int| 0 <= i < n implies (#[trigger] self.records@[i]).layout.start <= self.cur_offset by {
                if i < n - 1 {
                    assert(self.records@[i] == old(self).records@[i]);
                }
            }
            assert forall|k: int| 0 <= k < self.scope_stack@.len() implies self.is_scope(#[trigger] self.scope_stack@[k]) by {
                assert(self.records@[self.scope_stack@[k] as int] == old(self).records@[self.scope_stack@[k] as int]);
            }
            let m = self.names@.len();
            assert forall|i: int, j: int| 0 <= i < j < m implies
                !(#[trigger] self.names@[i].name@ == #[trigger] self.names@[j].name@
                    && self.names@[i].scope_id == self.names@[j].scope_id) by {
                if j == m - 1 {
                    assert(old(self).names@[i] == self.names@[i]);
                    if self.names@[i].name@ == name@ && self.names@[i].scope_id == scope {
                        assert(bound_in(old(self).names@, name@, scope));
                    }
                } else {
                    assert(old(self).names@[i] == self.names@[i]);
                    assert(old(self).names@[j] == self.names@[j]);
                }
            }
            assert forall|i: int| 0 <= i < m implies {
                &&& (#[trigger] self.names@[i]).scope_id < n
                &&& 0 < self.names@[i].id < n
            } by {
                if i < m - 1 {
                    assert(old(self).names@[i] == self.names@[i]);
                }
            }
            assert(self.names@.subrange(0, m - 1) =~= old(self).names@);
            if self.cur_func_id != 0 {
                assert(self.records@[self.cur_func_id as int] == old(self).records@[self.cur_func_id as int]);
            }
        }
        Ok(id)
    }

    /// Declares a variable of type `ty` in the innermost scope.
    pub fn declare_var(&mut self, name: &String, ty: Type) -> (r: Result<usize, ErrKind>)
        requires
            old(self).wf(),
        ensures
            final(self).wf(),
            final(self).cur_func_id == old(self).cur_func_id,
            bound_in(old(self).names@, name@, old(self).current_scope()) ==> r == Err::<usize, ErrKind>(ErrKind::ReDeclare)
                && *final(self) == *old(self),
            !bound_in(old(self).names@, name@, old(self).current_scope()) ==> (r matches Ok(id)
                && Self::declared(old(self), final(self), name@, type_size(ty), id)
                && final(self).records@[id as int].entity == Entity::Var(VarInfo {
                    scope_id: old(self).current_scope(),
                    func_id: old(self).cur_func_id,
                    ty,
                })),
    {
        let info = VarInfo { scope_id: self.get_current_scope_id(), func_id: self.cur_func_id, ty };
        let size = get_type_size(ty);
        self.declare(name, size, Entity::Var(info))
    }

    /// Declares a function with signature `ty`, not yet implemented.
    pub fn declare_fn(&mut self, name: &String, ty: &FuncType) -> (r: Result<usize, ErrKind>)
        requires
            old(self).wf(),
            old(self).cur_func_id == 0,
        ensures
            final(self).wf(),
            final(self).cur_func_id == old(self).cur_func_id,
            bound_in(old(self).names@, name@, old(self).current_scope()) ==> r == Err::<usize, ErrKind>(ErrKind::ReDeclare)
                && *final(self) == *old(self),
            !bound_in(old(self).names@, name@, old(self).current_scope()) ==> (r matches Ok(id)
                && Self::declared(old(self), final(self), name@, 0, id)
                && final(self).resolves(name@, id)
                && final(self).is_func(id)
                && final(self).func_of(id).ty.same(ty)
                && !final(self).func_of(id).has_impl),
    {
        let info = FuncInfo { ty: ty.duplicate(), has_impl: false, base: self.cur_offset };
        let r = self.declare(name, 0, Entity::Func(info));
        proof {
            if r is Ok {
                let k = self.scope_stack@.len() - 1;
                let i = self.names@.len() - 1;
                assert(self.names@[i].name@ == name@ && self.names@[i].scope_id == self.scope_stack@[k]);
            }
        }
        r
    }


    /// A name resolves to one entity at most.
    pub proof fn lemma_resolves_unique(&self, name: Seq<char>, a: usize, b: usize)
        requires
            self.wf(),
            self.resolves(name, a),
            self.resolves(name, b),
        ensures
            a == b,
    {
        let (k1, i1) = choose|k: int, i: int|
            0 <= k < self.scope_stack@.len() && 0 <= i < self.names@.len()
                && #[trigger] self.names@[i].name@ == name
                && self.names@[i].scope_id == #[trigger] self.scope_stack@[k]
                && self.names@[i].id == a
                && forall|k2: int| k < k2 < self.scope_stack@.len()
                    ==> !bound_in(self.names@, name, #[trigger] self.scope_stack@[k2]);
        let (k3, i3) = choose|k: int, i: int|
            0 <= k < self.scope_stack@.len() && 0 <= i < self.names@.len()
                && #[trigger] self.names@[i].name@ == name
                && self.names@[i].scope_id == #[trigger] self.scope_stack@[k]
                && self.names@[i].id == b
                && forall|k2: int| k < k2 < self.scope_stack@.len()
                    ==> !bound_in(self.names@, name, #[trigger] self.scope_stack@[k2]);
        if k1 < k3 {
            assert(bound_in(self.names@, name, self.scope_stack@[k3]));
        } else if k3 < k1 {
            assert(bound_in(self.names@, name, self.scope_stack@[k1]));
        } else if i1 < i3 {
            assert(self.names@[i1].name@ == self.names@[i3].name@);
        } else if i3 < i1 {
            assert(self.names@[i3].name@ == self.names@[i1].name@);
        }
    }

    /// Marks a function implemented, its frame beginning at the cursor, and
    /// makes it the active function. A name not yet visible is declared first.
    pub fn impl_fn(&mut self, name: &String, ty: &FuncType) -> (r: Result<usize, ErrKind>)
        requires
            old(self).wf(),
            old(self).cur_func_id == 0,
        ensures
            final(self).wf(),
            r is Err ==> *final(self) == *old(self),
            r is Err ==> exists|id: usize| #[trigger] old(self).resolves(name@, id) && (!old(self).is_func(id)
                || !old(self).func_of(id).ty.same(ty) || old(self).func_of(id).has_impl),
            r matches Ok(id) ==> {
                &&& final(self).records@.len() <= old(self).records@.len() + 1
                &&& (final(self).records@.len() == old(self).records@.len() + 1 ==> id == old(self).records@.len())
                &&& final(self).resolves(name@, id)
                &&& (final(self).names@ == old(self).names@
                    || names_pushed(old(self).names@, final(self).names@, name@, old(self).current_scope(), id))
                &&& final(self).names@.len() >= old(self).names@.len()
                &&& forall|j: int| 0 <= j < old(self).names@.len() ==> #[trigger] final(self).names@[j] == old(self).names@[j]
                &&& final(self).cur_func_id == id
                &&& final(self).scope_stack@ == old(self).scope_stack@
                &&& final(self).is_func(id)
                &&& final(self).func_of(id).has_impl
                &&& final(self).func_of(id).ty.same(ty)
                &&& final(self).records@.len() >= old(self).records@.len()
                &&& forall|j: int| 0 <= j < old(self).records@.len() && j != id
                    ==> #[trigger] final(self).records@[j] == old(self).records@[j]
                &&& (id < old(self).records@.len() ==> old(self).is_func(id)
                    && final(self).func_of(id).ty == old(self).func_of(id).ty)
            },
            old(self).visible(name@) ==> forall|id: usize| #[trigger] old(self).resolves(name@, id) ==> {
                if !old(self).is_func(id) || !old(self).func_of(id).ty.same(ty) {
                    r == Err::<usize, ErrKind>(ErrKind::TypeErr)
                } else if old(self).func_of(id).has_impl {
                    r == Err::<usize, ErrKind>(ErrKind::ReImpl)
                } else {
                    &&& r == Ok::<usize, ErrKind>(id)
                    &&& final(self).records@.len() == old(self).records@.len()
                    &&& forall|j: int| 0 <= j < old(self).records@.len() && j != id
                        ==> final(self).records@[j] == old(self).records@[j]
                    &&& final(self).records@[id as int].layout == old(self).records@[id as int].layout
                    &&& final(self).is_func(id)
                    &&& final(self).func_of(id).ty == old(self).func_of(id).ty
                    &&& final(self).func_of(id).has_impl
                    &&& final(self).func_of(id).base == old(self).cur_offset
                    &&& final(self).names@ == old(self).names@
                    &&& final(self).scope_stack@ == old(self).scope_stack@
                    &&& final(self).cur_offset == old(self).cur_offset
                    &&& final(self).cur_func_id == id
                }
            },
            !old(self).visible(name@) ==> (r matches Ok(id)
                && Self::declared(old(self), final(self), name@, 0, id)
                && final(self).is_func(id)
                && final(self).func_of(id).ty.same(ty)
                && final(self).func_of(id).has_impl
                && final(self).func_of(id).base == old(self).cur_offset
                && final(self).cur_func_id == id),
    {
        match self.fetch(name) {
            Ok(id) => {
                proof {
                    assert forall|id2: usize| #[trigger] self.resolves(name@, id2) implies id2 == id by {
                        self.lemma_resolves_unique(name@, id, id2);
                    }
                }
                let cur = self.cur_offset;
                let ghost old_ty = self.func_of(id).ty;
                match &self.records[id].entity {
                    Entity::Func(f) => {
                        if !f.ty.matches(ty) {
                            return Err(ErrKind::TypeErr);
                        }
                        if f.has_impl {
                            return Err(ErrKind::ReImpl);
                        }
                    },
                    _ => {
                        return Err(ErrKind::TypeErr);
                    },
                }
                match &mut self.records[id].entity {
                    Entity::Func(f) => {
                        f.has_impl = true;
                        f.base = cur;
                    },
                    _ => {},
                }
                self.cur_func_id = id;
                proof {
                    let n = self.records@.len();
                    assert forall|i: int| 0 <= i < n implies #[trigger] owner_of(self.records@[i].entity) != 0 ==> {
                        &&& self.is_func(owner_of(self.records@[i].entity))
                        &&& self.func_of(owner_of(self.records@[i].entity)).base <= self.records@[i].layout.start
                        &&& self.func_of(owner_of(self.records@[i].entity)).has_impl
                    } by {
                        if i != id {
                            assert(self.records@[i] == old(self).records@[i]);
                        }
                        let f = owner_of(self.records@[i].entity);
                        if f != 0 {
                            assert(f != id);
                            assert(self.records@[f as int] == old(self).records@[f as int]);
                        }
                    }
                    assert forall|i: int| 0 <= i < n implies (#[trigger] self.records@[i]).layout.start <= self.cur_offset by {
                        if i != id {
                            assert(self.records@[i] == old(self).records@[i]);
                        }
                    }
                    assert(self.names@ == old(self).names@);
                    assert(self.scope_stack@ == old(self).scope_stack@);
                    assert forall|k: int| 0 <= k < self.scope_stack@.len() implies self.is_scope(#[trigger] self.scope_stack@[k]) by {
                        assert(self.scope_stack@[k] != id);
                        assert(self.records@[self.scope_stack@[k] as int] == old(self).records@[self.scope_stack@[k] as int]);
                    }
                }
                Ok(id)
            },
            Err(_) => {
                proof {
                    assert forall|k: int| 0 <= k < self.scope_stack@.len() implies
                        !bound_in(self.names@, name@, #[trigger] self.scope_stack@[k]) by {}
                    assert(!bound_in(self.names@, name@, self.current_scope()));
                }
                let cur = self.cur_offset;
                let info = FuncInfo { ty: ty.duplicate(), has_impl: true, base: cur };
                let r = self.declare(name, 0, Entity::Func(info));
                let id = r.unwrap();
                self.cur_func_id = id;
                proof {
                    let k = self.scope_stack@.len() - 1;
                    let i = self.names@.len() - 1;
                    assert(self.names@[i].name@ == name@ && self.names@[i].scope_id == self.scope_stack@[k]);
                    lemma_prefix_agrees(old(self).names@, self.names@);
                }
                Ok(id)
            },
        }
    }

    /// The innermost loop scope that is open, if any.
    pub fn get_loop_scope(&self) -> (r: Option<usize>)
        requires
            self.wf(),
        ensures
            r is None <==> forall|k: int| 0 <= k < self.scope_stack@.len() ==> !#[trigger] self.loop_scope_at(k),
            r matches Some(id) ==> exists|k: int| #[trigger] self.loop_scope_at(k) && self.scope_stack@[k] == id
                && forall|k2: int| k < k2 < self.scope_stack@.len() ==> !#[trigger] self.loop_scope_at(k2),
    {
        let mut k: usize = self.scope_stack.len();
        while k > 0
            invariant
                self.wf(),
                k <= self.scope_stack@.len(),
                forall|k2: int| k <= k2 < self.scope_stack@.len() ==> !#[trigger] self.loop_scope_at(k2),
            decreases k,
        {
            k -= 1;
            let id = self.scope_stack[k];
            match &self.records[id].entity {
                Entity::Scope(info) => {
                    if info.is_loop {
                        assert(self.loop_scope_at(k as int));
                        return Some(id);
                    }
                },
                _ => {},
            }
        }
        None
    }

    /// Storage units allocated since entity `id` was opened.
    pub fn get_off_by_id(&self, id: usize) -> (r: usize)
        requires
            self.wf(),
            id < self.records@.len(),
        ensures
            r == self.cur_offset - self.start_of(id),
    {
        self.cur_offset - self.records[id].layout.start
    }

    /// The type an operand naming entity `id` has.
    pub open spec fn type_of(&self, id: usize) -> Type {
        match self.records@[id as int].entity {
            Entity::Var(v) => v.ty,
            Entity::Func(_) => Type::Func,
            Entity::Scope(_) => Type::Void,
        }
    }

    /// The type an operand naming entity `id` has.
    pub fn get_type_by_id(&self, id: usize) -> (r: Type)
        requires
            id < self.records@.len(),
        ensures
            r == self.type_of(id),
    {
        match &self.records[id].entity {
            Entity::Var(v) => v.ty,
            Entity::Func(_) => Type::Func,
            Entity::Scope(_) => Type::Void,
        }
    }

    /// The signature of function `id`.
    pub fn get_func_type(&self, id: usize) -> (r: Option<&FuncType>)
        requires
            id < self.records@.len(),
        ensures
            r is Some <==> self.is_func(id),
            r matches Some(t) ==> *t == self.func_of(id).ty,
    {
        match &self.records[id].entity {
            Entity::Func(f) => Some(&f.ty),
            _ => None,
        }
    }


    /// The storage offset of entity `i` relative to the frame of the function
    /// that owns it; entities at file level keep their absolute offset.
    pub open spec fn frame_offset(&self, i: int) -> int {
        let f = owner_of(self.records@[i].entity);
        if f == 0 {
            self.records@[i].layout.start as int
        } else {
            self.records@[i].layout.start - self.func_of(f).base
        }
    }

    /// Whether function `id` has the signature `main` needs: no parameters,
    /// an integer result.
    pub open spec fn is_main_sig(&self, id: usize) -> bool {
        self.is_func(id) && self.func_of(id).ty.params@.len() == 0 && self.func_of(id).ty.ret == Type::Int
    }

    /// Whether every declared function has been implemented.
    pub open spec fn all_implemented(&self) -> bool {
        forall|i: int| 0 <= i < self.records@.len() && (#[trigger] self.records@[i]).entity is Func
            ==> self.records@[i].entity->Func_0.has_impl
    }

    /// Checks the whole program and rewrites offsets to be frame-relative.
    pub fn finalize(self) -> (r: Result<SemanticModel, ErrKind>)
        requires
            self.wf(),
        ensures
            !self.visible(main_name()) ==> r == Err::<SemanticModel, ErrKind>(ErrKind::NoMainFunc),
            r matches Ok(m) ==> m.checked() && m.records@ == self.records@,
            forall|id: usize| #[trigger] self.resolves(main_name(), id) ==> {
                if !self.is_main_sig(id) {
                    r == Err::<SemanticModel, ErrKind>(ErrKind::TypeErr)
                } else if !self.all_implemented() {
                    r == Err::<SemanticModel, ErrKind>(ErrKind::FuncNoImpl)
                } else {
                    r matches Ok(m) && m.main_id == id && m.records@ == self.records@
                        && m.offsets@.len() == self.records@.len()
                        && forall|i: int| 0 <= i < self.records@.len()
                            ==> m.offsets@[i] as int == #[trigger] self.frame_offset(i)
                }
            },
    {
        let main = "main".to_string();
        proof {
            reveal_strlit("main");
            assert(main@ =~= main_name());
        }
        let id = match self.fetch(&main) {
            Ok(id) => id,
            Err(_) => return Err(ErrKind::NoMainFunc),
        };
        proof {
            assert forall|id2: usize| #[trigger] self.resolves(main_name(), id2) implies id2 == id by {
                self.lemma_resolves_unique(main_name(), id, id2);
            }
        }
        match self.get_func_type(id) {
            Some(t) => {
                if t.params.len() != 0 || t.ret != Type::Int {
                    return Err(ErrKind::TypeErr);
                }
            },
            None => return Err(ErrKind::TypeErr),
        }
        let mut offsets: Vec<usize> = Vec::new();
        let mut i: usize = 0;
        while i < self.records.len()
            invariant
                self.wf(),
                self.visible(main_name()),
                self.is_main_sig(id),
                forall|id2: usize| #[trigger] self.resolves(main_name(), id2) ==> id2 == id,
                i <= self.records@.len(),
                offsets@.len() == i,
                forall|j: int| 0 <= j < i ==> offsets@[j] as int == #[trigger] self.frame_offset(j),
                forall|j: int| 0 <= j < i && (#[trigger] self.records@[j]).entity is Func
                    ==> self.records@[j].entity->Func_0.has_impl,
            decreases self.records@.len() - i,
        {
            let rec = &self.records[i];
            let off = match &rec.entity {
                Entity::Scope(info) => self.relative(info.func_id, rec.layout.start, i),
                Entity::Var(info) => self.relative(info.func_id, rec.layout.start, i),
                Entity::Func(f) => {
                    if !f.has_impl {
                        assert(!self.all_implemented());
                        return Err(ErrKind::FuncNoImpl);
                    }
                    rec.layout.start
                },
            };
            offsets.push(off);
            i += 1;
        }
        Ok(SemanticModel { records: self.records, offsets, main_id: id })
    }

    fn relative(&self, f: usize, start: usize, i: usize) -> (r: usize)
        requires
            self.wf(),
            i < self.records@.len(),
            f == owner_of(self.records@[i as int].entity),
            start == self.records@[i as int].layout.start,
        ensures
            r as int == self.frame_offset(i as int),
    {
        if f == 0 {
            start
        } else {
            match &self.records[f].entity {
                Entity::Func(info) => start - info.base,
                _ => start,
            }
        }
    }

    /// Opens a scope at the cursor and makes it the innermost one.
    pub open spec fn entered(old: &Context, new: &Context, is_loop: bool, id: usize) -> bool {
        &&& id == old.records@.len()
        &&& new.records@ == old.records@.push(Record {
            layout: Layout { start: old.cur_offset, end: None },
            entity: Entity::Scope(ScopeInfo { is_loop, func_id: old.cur_func_id }),
        })
        &&& new.scope_stack@ == old.scope_stack@.push(id)
        &&& new.names@ == old.names@
        &&& new.cur_offset == old.cur_offset
        &&& new.cur_func_id == old.cur_func_id
    }

    fn open_scope(&mut self, is_loop: bool) -> (id: usize)
        requires
            old(self).wf(),
        ensures
            final(self).wf(),
            Self::entered(old(self), final(self), is_loop, id),
    {
        let id = self.records.len();
        self.records.push(Record {
            layout: Layout { start: self.cur_offset, end: None },
            entity: Entity::Scope(ScopeInfo { is_loop, func_id: self.cur_func_id }),
        });
        self.scope_stack.push(id);
        proof {
            let n = self.records@.len();
            assert forall|i: int| 0 <= i < n implies #[trigger] owner_of(self.records@[i].entity) != 0 ==> {
                &&& self.is_func(owner_of(self.records@[i].entity))
                &&& self.func_of(owner_of(self.records@[i].entity)).base <= self.records@[i].layout.start
                &&& self.func_of(owner_of(self.records@[i].entity)).has_impl
            } by {
                if i < n - 1 {
                    assert(self.records@[i] == old(self).records@[i]);
                }
            }
            assert forall|k: int| 0 <= k < self.scope_stack@.len() implies self.is_scope(#[trigger] self.scope_stack@[k]) by {
                if k < self.scope_stack@.len() - 1 {
                    assert(self.scope_stack@[k] == old(self).scope_stack@[k]);
                }
            }
        }
        id
    }

    /// Opens a plain scope (a block or a conditional branch).
    pub fn in_scope(&mut self) -> (id: usize)
        requires
            old(self).wf(),
        ensures
            final(self).wf(),
            Self::entered(old(self), final(self), false, id),
    {
        self.open_scope(false)
    }

    /// Opens the scope of a loop body, a target of `break` and `continue`.
    pub fn enter_loop_scope(&mut self) -> (id: usize)
        requires
            old(self).wf(),
        ensures
            final(self).wf(),
            Self::entered(old(self), final(self), true, id),
    {
        self.open_scope(true)
    }

    /// Closes the innermost scope at the cursor.
    pub open spec fn exited(old: &Context, new: &Context) -> bool {
        let top = old.current_scope();
        &&& new.scope_stack@ == old.scope_stack@.drop_last()
        &&& new.records@ == old.records@.update(top as int, Record {
            layout: Layout { start: old.records@[top as int].layout.start, end: Some(old.cur_offset) },
            entity: old.records@[top as int].entity,
        })
        &&& new.names@ == old.names@
        &&& new.cur_offset == old.cur_offset
        &&& new.cur_func_id == (if new.scope_stack@.last() == 0 { 0 } else { old.cur_func_id })
    }

    /// Closes the innermost scope; back at file level no function is active.
    pub fn out_scope(&mut self)
        requires
            old(self).wf(),
            old(self).scope_stack@.len() > 1,
        ensures
            final(self).wf(),
            Self::exited(old(self), final(self)),
    {
        let idx = self.scope_stack.pop().unwrap();
        let start = self.records[idx].layout.start;
        let ghost old_ent = self.records@[idx as int].entity;
        self.records[idx].layout = Layout { start, end: Some(self.cur_offset) };
        if self.get_current_scope_id() == 0 {
            self.cur_func_id = 0;
        }
        proof {
            let n = self.records@.len();
            assert(self.records@[idx as int].entity == old_ent);
            assert(self.records@ =~= old(self).records@.update(idx as int, Record {
                layout: Layout { start: old(self).records@[idx as int].layout.start, end: Some(old(self).cur_offset) },
                entity: old(self).records@[idx as int].entity,
            }));
            assert forall|i: int| 0 <= i < n implies #[trigger] owner_of(self.records@[i].entity) != 0 ==> {
                &&& self.is_func(owner_of(self.records@[i].entity))
                &&& self.func_of(owner_of(self.records@[i].entity)).base <= self.records@[i].layout.start
                &&& self.func_of(owner_of(self.records@[i].entity)).has_impl
            } by {
                assert(self.records@[i].entity == old(self).records@[i].entity);
                let f = owner_of(self.records@[i].entity);
                if f != 0 {
                    assert(self.records@[f as int].entity == old(self).records@[f as int].entity);
                }
            }
            assert forall|k: int| 0 <= k < self.scope_stack@.len() implies self.is_scope(#[trigger] self.scope_stack@[k]) by {
                assert(self.scope_stack@[k] == old(self).scope_stack@[k]);
                assert(self.records@[self.scope_stack@[k] as int].entity == old(self).records@[self.scope_stack@[k] as int].entity);
            }
            if self.cur_func_id != 0 {
                assert(self.records@[self.cur_func_id as int].entity == old(self).records@[self.cur_func_id as int].entity);
            }
        }
    }
}

} // verus!
