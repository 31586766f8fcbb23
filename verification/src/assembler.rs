//! Assembler and disassembler for Pillow bytecode.
pub mod ast;
pub mod assemble;
pub mod disassemble;
pub mod error;
pub mod roundtrip;
pub mod parser;
