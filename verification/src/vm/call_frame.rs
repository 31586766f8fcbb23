use vstd::prelude::*;

verus! {

/// Saved state of a caller, pushed onto the call stack by `Call` and popped
/// when the callee returns.
///
/// ```text
///   [ ... | arg0 | arg1 | local0 | local1 | ... ]
///           ^bp (set by Call)                ^sp grows up
/// ```
///
/// Arguments are the first locals: `GetLocal 0` is arg0. `MakeFrame` in the
/// callee only allocates the non-argument slots.
#[derive(Debug, Clone, Copy, PartialEq, Eq, Structural)]
pub struct CallFrame {
    /// Resume offset in the caller's code after the call returns.
    pub saved_ip: usize,
    /// Caller's end of code, for bounds checking after return.
    pub saved_ip_end: usize,
    /// Caller's base pointer, restored after return.
    pub saved_bp: usize,
    /// Caller's stack pointer at the call site, before its arguments; on
    /// return the stack is cut back here and the return value pushed.
    pub saved_sp: usize,
}

} // verus!
