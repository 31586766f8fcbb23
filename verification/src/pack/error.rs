use vstd::prelude::*;

verus! {

/// Why a byte stream is not a Pillow bytecode file.
#[derive(Debug, Clone, Copy, PartialEq, Eq, Structural)]
pub enum ParseError {
    /// The file ends before the header or a section does.
    UnexpectedEof,
    /// The file does not start with "PILW".
    InvalidMagic,
    /// The header names a format version this loader does not read.
    UnsupportedVersion,
    /// The constant pool is not a whole number of 8-byte values.
    InvalidConstants,
}

} // verus!
