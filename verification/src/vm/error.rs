use vstd::prelude::*;

verus! {

/// Why the machine stopped.
#[derive(Debug, Clone, Copy, PartialEq, Eq, Structural)]
pub enum VmError {
    /// Tried to pop from an empty stack.
    StackUnderflow,
    /// Pushed past `STACK_MAX`.
    StackOverflow,
    /// Operand types don't support the operation.
    TypeError,
    /// A `Const` instruction referenced an out-of-bounds pool index.
    ConstPoolOutOfBounds,
    /// Unrecognized opcode byte.
    UnknownOpcode(u8),
    /// The instruction pointer walked, or was sent, past the end of the code.
    IpOutOfBounds,
    /// `GetLocal` or `SetLocal` used a slot outside the current frame.
    LocalOutOfRange,
    /// A call nested deeper than `CALL_STACK_MAX`.
    CallStackOverflow,
    /// A return with no caller frame to go back to.
    CallStackUnderflow,
    /// The allocator is exhausted.
    OutOfMemory,
    /// A heap access through a null, dead or out-of-bounds location.
    Segfault,
}

} // verus!
