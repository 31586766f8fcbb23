//! The Pillow bytecode file format: a header, the instruction section and the
//! constant pool, with every multi-byte integer little-endian.
pub mod bytecode;
pub mod error;
pub mod parser;
