//! The instruction set of the Pillow virtual machine.
use vstd::prelude::*;

verus! {

/// One opcode; its byte in the instruction stream is `byte_of`.
#[derive(Debug, Clone, Copy, PartialEq, Eq, Structural)]
pub enum OpCode {
    /// No operation.
    Nop,
    /// Push a value from the constant pool. Operand: 1-byte pool index.
    Const,
    Add,
    Sub,
    Mul,
    Div,
    /// Return the top of the stack to the caller.
    Return,
    Neg,
    Not,
    Eq,
    Ne,
    Lt,
    Le,
    Gt,
    Ge,
    /// Operand: 4-byte big-endian code offset.
    Jmp,
    /// Operand: 4-byte big-endian code offset.
    JmpIfFalse,
    /// Operand: 4-byte big-endian code offset.
    JmpIfTrue,
    Pop,
    Dup,
    /// Operand: 1-byte count of local slots.
    MakeFrame,
    /// Operand: 1-byte slot.
    GetLocal,
    /// Operand: 1-byte slot.
    SetLocal,
    /// Call a Pillow function. Operands: 4-byte entry offset, 1-byte argument count.
    Call,
    EnterNoGc,
    ExitNoGc,
    /// Operands: 2-byte size, 1-byte `contains_values` flag; pushes the object.
    Alloc,
    /// Pops offset, pops object, pushes the 8-byte value at that offset.
    Load,
    /// Pops value, pops offset, pops object, writes the value's 8 bytes at that offset.
    Store,
    /// Pops offset, pops object, pushes the byte at that offset as an int.
    LoadB,
    /// Pops value, pops offset, pops object, writes the low byte of the int value.
    StoreB,
}

/// The byte that encodes each opcode.
pub open spec fn byte_of(op: OpCode) -> u8 {
    match op {
        OpCode::Nop => 0x00,
        OpCode::Const => 0x01,
        OpCode::Add => 0x02,
        OpCode::Sub => 0x03,
        OpCode::Mul => 0x04,
        OpCode::Div => 0x05,
        OpCode::Return => 0x06,
        OpCode::Neg => 0x07,
        OpCode::Not => 0x08,
        OpCode::Eq => 0x09,
        OpCode::Ne => 0x0A,
        OpCode::Lt => 0x0B,
        OpCode::Le => 0x0C,
        OpCode::Gt => 0x0D,
        OpCode::Ge => 0x0E,
        OpCode::Jmp => 0x0F,
        OpCode::JmpIfFalse => 0x10,
        OpCode::JmpIfTrue => 0x11,
        OpCode::Pop => 0x12,
        OpCode::Dup => 0x13,
        OpCode::MakeFrame => 0x14,
        OpCode::GetLocal => 0x15,
        OpCode::SetLocal => 0x16,
        OpCode::Call => 0x17,
        OpCode::EnterNoGc => 0x18,
        OpCode::ExitNoGc => 0x19,
        OpCode::Alloc => 0x1A,
        OpCode::Load => 0x1B,
        OpCode::Store => 0x1C,
        OpCode::LoadB => 0x1D,
        OpCode::StoreB => 0x1E,
    }
}

/// The name of each operation, as the assembly language spells it.
pub open spec fn op_name(op: OpCode) -> Seq<char> {
    match op {
        OpCode::Nop => "nop"@,
        OpCode::Const => "const"@,
        OpCode::Add => "add"@,
        OpCode::Sub => "sub"@,
        OpCode::Mul => "mul"@,
        OpCode::Div => "div"@,
        OpCode::Return => "return"@,
        OpCode::Neg => "neg"@,
        OpCode::Not => "not"@,
        OpCode::Eq => "eq"@,
        OpCode::Ne => "ne"@,
        OpCode::Lt => "lt"@,
        OpCode::Le => "le"@,
        OpCode::Gt => "gt"@,
        OpCode::Ge => "ge"@,
        OpCode::Jmp => "jmp"@,
        OpCode::JmpIfFalse => "jmp_if_false"@,
        OpCode::JmpIfTrue => "jmp_if_true"@,
        OpCode::Pop => "pop"@,
        OpCode::Dup => "dup"@,
        OpCode::MakeFrame => "make_frame"@,
        OpCode::GetLocal => "get_local"@,
        OpCode::SetLocal => "set_local"@,
        OpCode::Call => "call"@,
        OpCode::EnterNoGc => "enter_nogc"@,
        OpCode::ExitNoGc => "exit_nogc"@,
        OpCode::Alloc => "alloc"@,
        OpCode::Load => "load"@,
        OpCode::Store => "store"@,
        OpCode::LoadB => "loadb"@,
        OpCode::StoreB => "storeb"@,
    }
}

/// The highest byte that encodes an opcode.
pub const MAX_OPCODE_BYTE: u8 = 0x1E;

/// The opcodes are numbered densely from 0 to `MAX_OPCODE_BYTE`, each byte once.
pub proof fn law_opcode_bytes(a: OpCode, b: OpCode)
    ensures
        byte_of(a) <= MAX_OPCODE_BYTE,
        byte_of(a) == byte_of(b) ==> a == b,
{
}

impl OpCode {
    /// Decodes an opcode byte.
    pub fn from_byte(b: u8) -> (r: Option<Self>)
        ensures
            r is None <==> b > MAX_OPCODE_BYTE,
            r matches Some(op) ==> byte_of(op) == b,
    {
        match b {
            0x00 => Some(Self::Nop),
            0x01 => Some(Self::Const),
            0x02 => Some(Self::Add),
            0x03 => Some(Self::Sub),
            0x04 => Some(Self::Mul),
            0x05 => Some(Self::Div),
            0x06 => Some(Self::Return),
            0x07 => Some(Self::Neg),
            0x08 => Some(Self::Not),
            0x09 => Some(Self::Eq),
            0x0A => Some(Self::Ne),
            0x0B => Some(Self::Lt),
            0x0C => Some(Self::Le),
            0x0D => Some(Self::Gt),
            0x0E => Some(Self::Ge),
            0x0F => Some(Self::Jmp),
            0x10 => Some(Self::JmpIfFalse),
            0x11 => Some(Self::JmpIfTrue),
            0x12 => Some(Self::Pop),
            0x13 => Some(Self::Dup),
            0x14 => Some(Self::MakeFrame),
            0x15 => Some(Self::GetLocal),
            0x16 => Some(Self::SetLocal),
            0x17 => Some(Self::Call),
            0x18 => Some(Self::EnterNoGc),
            0x19 => Some(Self::ExitNoGc),
            0x1A => Some(Self::Alloc),
            0x1B => Some(Self::Load),
            0x1C => Some(Self::Store),
            0x1D => Some(Self::LoadB),
            0x1E => Some(Self::StoreB),
            _ => None,
        }
    }
}

} // verus!
