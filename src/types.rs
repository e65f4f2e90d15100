use vstd::prelude::*;

verus! {

/// A value type of the language. `Func` is the type of a name that denotes
/// a function when it is used as an operand.
#[derive(Debug, Clone, Copy, PartialEq, Eq, Structural)]
pub enum Type {
    Int,
    Void,
    Func,
}

/// Storage units taken by a value of type `t`.
pub open spec fn type_size(t: Type) -> nat {
    match t {
        Type::Int => 1,
        _ => 0,
    }
}

/// Storage units taken by a value of type `t`.
pub fn get_type_size(t: Type) -> (r: usize)
    ensures
        r == type_size(t),
{
    match t {
        Type::Int => 1,
        _ => 0,
    }
}

/// The signature of a function: its parameter types in order and its return type.
#[derive(Debug)]
pub struct FuncType {
    pub params: Vec<Type>,
    pub ret: Type,
}

impl FuncType {
    pub open spec fn same(&self, o: &FuncType) -> bool {
        self.params@ == o.params@ && self.ret == o.ret
    }

    /// A copy of this signature.
    pub fn duplicate(&self) -> (r: FuncType)
        ensures
            r.same(self),
    {
        let mut params: Vec<Type> = Vec::new();
        let mut i: usize = 0;
        while i < self.params.len()
            invariant
                i <= self.params@.len(),
                params@ =~= self.params@.subrange(0, i as int),
            decreases self.params@.len() - i,
        {
            params.push(self.params[i]);
            i += 1;
        }
        assert(params@ =~= self.params@);
        FuncType { params, ret: self.ret }
    }

    /// Whether two signatures are the same.
    pub fn matches(&self, o: &FuncType) -> (r: bool)
        ensures
            r == self.same(o),
    {
        if self.ret != o.ret || self.params.len() != o.params.len() {
            return false;
        }
        let mut i: usize = 0;
        while i < self.params.len()
            invariant
                self.params@.len() == o.params@.len(),
                i <= self.params@.len(),
                forall|j: int| 0 <= j < i ==> self.params@[j] == o.params@[j],
            decreases self.params@.len() - i,
        {
            if self.params[i] != o.params[i] {
                return false;
            }
            i += 1;
        }
        assert(self.params@ =~= o.params@);
        true
    }
}

/// A literal value.
#[derive(Debug, Clone, Copy, PartialEq, Eq, Structural)]
pub enum Value {
    Int(i32),
}

/// The intrinsic type of a literal.
pub fn get_value_type(v: Value) -> (r: Type)
    ensures
        r == Type::Int,
{
    match v {
        Value::Int(_) => Type::Int,
    }
}

/// Arithmetic, comparison and logical operators.
#[derive(Debug, Clone, Copy, PartialEq, Eq, Structural)]
pub enum Op {
    Add,
    Sub,
    Mul,
    Div,
    Mod,
    Neg,
    Not,
    Eq,
    Ne,
    Lt,
    Le,
    Gt,
    Ge,
    And,
    Or,
}

/// Number of operands an operator consumes.
pub open spec fn op_arity(op: Op) -> nat {
    match op {
        Op::Neg | Op::Not => 1,
        _ => 2,
    }
}

/// Number of operands an operator consumes.
pub fn get_op_param_num(op: Op) -> (r: usize)
    ensures
        r == op_arity(op),
{
    match op {
        Op::Neg | Op::Not => 1,
        _ => 2,
    }
}

pub open spec fn truth(b: bool) -> i32 {
    if b {
        1
    } else {
        0
    }
}

/// Compile-time value of a unary operator applied to `a`; `None` where the
/// result is not an `i32` or the operator is binary.
pub open spec fn eval_op_1(op: Op, a: i32) -> Option<i32> {
    match op {
        Op::Neg => 0i32.checked_sub(a),
        Op::Not => Some(truth(a == 0)),
        _ => None,
    }
}

/// Compile-time value of a binary operator applied to `a` and `b`; `None`
/// on overflow, on division by zero, or where the operator is unary.
pub open spec fn eval_op_2(op: Op, a: i32, b: i32) -> Option<i32> {
    match op {
        Op::Add => a.checked_add(b),
        Op::Sub => a.checked_sub(b),
        Op::Mul => a.checked_mul(b),
        Op::Div => a.checked_div(b),
        Op::Mod => a.checked_rem(b),
        Op::Eq => Some(truth(a == b)),
        Op::Ne => Some(truth(a != b)),
        Op::Lt => Some(truth(a < b)),
        Op::Le => Some(truth(a <= b)),
        Op::Gt => Some(truth(a > b)),
        Op::Ge => Some(truth(a >= b)),
        Op::And => Some(truth(a != 0 && b != 0)),
        Op::Or => Some(truth(a != 0 || b != 0)),
        _ => None,
    }
}

/// Evaluates a unary operator at compile time.
pub fn calc_op_1(op: Op, a: i32) -> (r: Option<i32>)
    ensures
        r == eval_op_1(op, a),
{
    match op {
        Op::Neg => 0i32.checked_sub(a),
        Op::Not => Some(if a == 0 { 1 } else { 0 }),
        _ => None,
    }
}

/// Evaluates a binary operator at compile time.
pub fn calc_op_2(op: Op, a: i32, b: i32) -> (r: Option<i32>)
    ensures
        r == eval_op_2(op, a, b),
{
    match op {
        Op::Add => a.checked_add(b),
        Op::Sub => a.checked_sub(b),
        Op::Mul => a.checked_mul(b),
        Op::Div => a.checked_div(b),
        Op::Mod => a.checked_rem(b),
        Op::Eq => Some(if a == b { 1 } else { 0 }),
        Op::Ne => Some(if a != b { 1 } else { 0 }),
        Op::Lt => Some(if a < b { 1 } else { 0 }),
        Op::Le => Some(if a <= b { 1 } else { 0 }),
        Op::Gt => Some(if a > b { 1 } else { 0 }),
        Op::Ge => Some(if a >= b { 1 } else { 0 }),
        Op::And => Some(if a != 0 && b != 0 { 1 } else { 0 }),
        Op::Or => Some(if a != 0 || b != 0 { 1 } else { 0 }),
        _ => None,
    }
}

/// A semantic error; the first one met aborts the compilation.
#[derive(Debug, Clone, Copy, PartialEq, Eq, Structural)]
pub enum ErrKind {
    ReDeclare,
    NoDeclare,
    ReImpl,
    TypeErr,
    JumpNoLoop,
    GlobalNeedConst,
    NoMainFunc,
    FuncNoImpl,
}

} // verus!
