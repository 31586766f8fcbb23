use vstd::prelude::*;

verus! {

/// Why a byte stream could not be disassembled.
#[derive(Debug, Clone, Copy, PartialEq, Eq, Structural)]
pub enum DisassemblyError {
    /// An instruction's operands run past the end of the code.
    UnexpectedEof,
    /// A byte that encodes no opcode.
    UnknownOpcode,
}

impl DisassemblyError {
    /// The human-readable message for this error.
    pub fn to_string(&self) -> (r: String)
        ensures
            r@ == (match self {
                DisassemblyError::UnknownOpcode => "unknown opcode"@,
                DisassemblyError::UnexpectedEof => "unexpected eof"@,
            }),
    {
        match self {
            DisassemblyError::UnknownOpcode => String::from_str("unknown opcode"),
            DisassemblyError::UnexpectedEof => String::from_str("unexpected eof"),
        }
    }
}

} // verus!
