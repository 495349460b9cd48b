//! The closed bytecode instruction set.
//!
//! Every instruction carries typed operand fields directly: register ids,
//! pool indices, absolute instruction addresses, 64-bit name hashes, or
//! immediate integers.  A builtin call names its host function by a stable
//! integer id.

use vstd::prelude::*;

verus! {

/// Which kind of aggregate a `New` instruction allocates.
#[derive(Debug, Clone, Copy, PartialEq, Eq, Structural)]
pub enum New {
    Object,
    Array,
}

/// One bytecode instruction.
#[derive(Debug, Clone, Copy, PartialEq, Eq, Structural)]
pub enum Op {
    /// dst = lhs + rhs
    Add { dst: u8, lhs: u8, rhs: u8 },
    /// dst = lhs - rhs
    Sub { dst: u8, lhs: u8, rhs: u8 },
    /// dst = lhs * rhs
    Mul { dst: u8, lhs: u8, rhs: u8 },
    /// dst = lhs / rhs
    Div { dst: u8, lhs: u8, rhs: u8 },
    /// dst = (lhs == rhs)
    Eq { dst: u8, lhs: u8, rhs: u8 },
    /// dst = (lhs < rhs)
    Lt { dst: u8, lhs: u8, rhs: u8 },
    /// dst = (lhs > rhs)
    Gt { dst: u8, lhs: u8, rhs: u8 },
    /// dst = src
    Mov { dst: u8, src: u8 },
    /// Load an immediate 64-bit integer.
    LoadI { dst: u8, value: i64 },
    /// Load the global value at a constant-pool index.
    LoadG { dst: u8, idx: u32 },
    /// Bind src's current value under a name hash in the active frame.
    Var { hash: u64, src: u8 },
    /// Load the value bound under a name hash.
    LoadV { hash: u64, dst: u8 },
    /// Allocate a fresh array or object; `size` is a capacity hint.
    New { dst: u8, size: u8, new_type: New },
    /// Append src's value to the array in `container`.
    Append { container: u8, src: u8 },
    /// dst = length of the array in src.
    Len { dst: u8, src: u8 },
    /// dst = container[index]
    Idx { dst: u8, container: u8, index: u8 },
    /// Jump to an absolute instruction index.
    Jmp { target: usize },
    /// Jump iff `cond` holds the canonical false value.
    JmpF { cond: u8, target: usize },
    /// Push a frame and jump to `func`; the arguments occupy the register
    /// window `args_start .. args_start + args_len`.
    Call { func: u16, args_start: u8, args_len: u8 },
    /// Pop `times` frames at once and resume at the outermost popped
    /// frame's return address (merges nested returns).
    Ret { times: u8 },
    /// Invoke the host builtin with id `func` over a register window,
    /// bypassing the frame stack.
    Sys { func: u16, args_start: u8, args_len: u8 },
}

} // verus!
