pub mod value;
pub mod opcode;
pub mod assembler;
pub mod pack;
pub mod heap;
pub mod vm;
pub mod config;
