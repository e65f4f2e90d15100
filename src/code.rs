use vstd::prelude::*;
use crate::types::Op;

verus! {

/// An operand address: `Direct` is absolute static memory, `Indirect` is
/// relative to the base of the running function's frame.
#[derive(Debug, Clone, Copy, PartialEq, Eq, Structural)]
pub enum Addr {
    Direct(usize),
    Indirect(usize),
}

/// An instruction of the stack machine. Jumps are relative to the jump
/// itself; `CondJump` jumps when the popped top of the stack is zero.
#[derive(Debug, Clone, Copy, PartialEq, Eq, Structural)]
pub enum Code {
    /// Copies the value at the second address to the first.
    MovA(Addr, Addr),
    /// Writes a value to an address.
    MovV(Addr, i32),
    /// Pushes the value at an address.
    PushA(Addr),
    /// Pushes a value.
    PushV(i32),
    /// Discards the top of the stack.
    Pop,
    /// Applies an operator to the values on top of the stack.
    Op(Op),
    /// Calls the code at an address.
    Call(usize),
    Jump(isize),
    CondJump(isize),
    /// Prints the top of the stack.
    Print,
    /// Returns to the caller.
    Ret,
    /// Halts the machine.
    Exit,
    /// Pops the top of the stack into an address.
    Store(Addr),
}

} // verus!
