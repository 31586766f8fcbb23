//! Parsed assembly: instructions and labels in source order.
use vstd::prelude::*;

verus! {

#[derive(Debug)]
pub enum Stmt {
    Instr(Instr),
    /// Names the offset of the instruction that follows it.
    Label(String),
}

#[derive(Debug)]
pub enum Instr {
    Nop,
    Const(u8),
    Add,
    Sub,
    Mul,
    Div,
    Return,
    Neg,
    Not,
    Eq,
    Ne,
    Lt,
    Le,
    Gt,
    Ge,
    Jmp(String),
    JmpIfFalse(String),
    JmpIfTrue(String),
    Pop,
    Dup,
    MakeFrame(u8),
    GetLocal(u8),
    SetLocal(u8),
    /// Entry offset and argument count.
    Call(u32, u8),
    EnterNoGc,
    ExitNoGc,
    /// Size and `contains_values` flag.
    Alloc(u16, u8),
    Load,
    Store,
    LoadB,
    StoreB,
}

} // verus!
