//! Loads the header and sections of a bytecode file.
use crate::assembler::disassemble::{le_number, lemma_le_split};
use crate::pack::bytecode::Bytecode;
use crate::pack::error::ParseError;
use crate::value::Value;
use vstd::prelude::*;

verus! {

/// The only file format version this loader reads.
pub const SUPPORTED_VERSION: u16 = 1;

/// Size of the fixed header: magic, version, flags and the two section sizes.
pub const HEADER_LEN: usize = 16;

/// True when the file starts with the magic "PILW".
pub open spec fn has_magic(bytes: Seq<u8>) -> bool {
    bytes[0] == 0x50 && bytes[1] == 0x49 && bytes[2] == 0x4C && bytes[3] == 0x57
}

/// The header field `version`.
pub open spec fn header_version(bytes: Seq<u8>) -> nat {
    le_number(bytes, 4, 2)
}

/// The header field `instruction_size`.
pub open spec fn header_code_size(bytes: Seq<u8>) -> nat {
    le_number(bytes, 8, 4)
}

/// The header field `constants_size`.
pub open spec fn header_constants_size(bytes: Seq<u8>) -> nat {
    le_number(bytes, 12, 4)
}

/// The constant pool: `count` little-endian 64-bit words from `start`.
pub open spec fn pool_words(bytes: Seq<u8>, start: int, count: nat) -> Seq<u64> {
    Seq::new(count, |i: int| le_number(bytes, start + 8 * i, 8) as u64)
}

/// What `parse` gives for `bytes`, held in memory from address `base`: the
/// sections, or the first check that fails. The constant pool must be a
/// whole number of 8-byte values and start at an 8-aligned address.
pub open spec fn parse_spec(bytes: Seq<u8>, base: int) -> Result<(Seq<u8>, Seq<u64>), ParseError> {
    let code_end = HEADER_LEN + header_code_size(bytes);
    let pool_end = code_end + header_constants_size(bytes);
    if bytes.len() < HEADER_LEN {
        Err(ParseError::UnexpectedEof)
    } else if !has_magic(bytes) {
        Err(ParseError::InvalidMagic)
    } else if header_version(bytes) != SUPPORTED_VERSION {
        Err(ParseError::UnsupportedVersion)
    } else if code_end > bytes.len() || pool_end > bytes.len() {
        Err(ParseError::UnexpectedEof)
    } else if header_constants_size(bytes) % 8 != 0 || (base + code_end) % 8 != 0 {
        Err(ParseError::InvalidConstants)
    } else {
        Ok(
            (
                bytes.subrange(HEADER_LEN as int, code_end),
                pool_words(bytes, code_end, header_constants_size(bytes) / 8),
            ),
        )
    }
}

fn read_u16(bytes: &[u8], i: usize) -> (r: u16)
    requires
        i + 2 <= bytes@.len(),
    ensures
        r == le_number(bytes@, i as int, 2),
{
    proof {
        reveal_with_fuel(le_number, 3);
    }
    bytes[i] as u16 + (bytes[i + 1] as u16) * 256
}

fn read_u32(bytes: &[u8], i: usize) -> (r: u32)
    requires
        i + 4 <= bytes@.len(),
    ensures
        r == le_number(bytes@, i as int, 4),
{
    proof {
        reveal_with_fuel(le_number, 5);
    }
    bytes[i] as u32 + (bytes[i + 1] as u32) * 0x100 + (bytes[i + 2] as u32) * 0x1_0000 + (bytes[i
        + 3] as u32) * 0x100_0000
}

fn read_u64(bytes: &[u8], i: usize) -> (r: u64)
    requires
        i + 8 <= bytes@.len(),
    ensures
        r == le_number(bytes@, i as int, 8),
{
    let _len = bytes.len();
    let lo = read_u32(bytes, i) as u64;
    let hi = read_u32(bytes, i + 4) as u64;
    proof {
        reveal_with_fuel(le_number, 5);
        lemma_le_split(bytes@, i as int);
    }
    lo + hi * 0x1_0000_0000
}

/// Parses a bytecode file held in memory from address `base` (only `base`
/// modulo 8 matters). The instruction bytes and the constant words are
/// copied out of `bytes`.
pub fn parse(bytes: &[u8], base: usize) -> (r: Result<Bytecode, ParseError>)
    ensures
        match (r, parse_spec(bytes@, base as int)) {
            (Ok(b), Ok((code, words))) => b.code@ == code && b.constants@.len() == words.len()
                && forall|k: int| 0 <= k < words.len() ==> (#[trigger] b.constants@[k])@ == words[k],
            (Err(e), Err(f)) => e == f,
            _ => false,
        },
{
    if bytes.len() < HEADER_LEN {
        return Err(ParseError::UnexpectedEof);
    }
    if bytes[0] != 0x50 || bytes[1] != 0x49 || bytes[2] != 0x4C || bytes[3] != 0x57 {
        return Err(ParseError::InvalidMagic);
    }
    let version = read_u16(bytes, 4);
    if version != SUPPORTED_VERSION {
        return Err(ParseError::UnsupportedVersion);
    }
    let _flags = read_u16(bytes, 6);
    let instruction_size = read_u32(bytes, 8) as usize;
    let constants_size = read_u32(bytes, 12) as usize;
    let instr_start = HEADER_LEN;
    if instruction_size > bytes.len() - instr_start {
        return Err(ParseError::UnexpectedEof);
    }
    let instr_end = instr_start + instruction_size;
    if constants_size > bytes.len() - instr_end {
        return Err(ParseError::UnexpectedEof);
    }
    let con_start = instr_end;
    let con_end = con_start + constants_size;
    if constants_size % 8 != 0 {
        return Err(ParseError::InvalidConstants);
    }
    if (base % 8 + con_start % 8) % 8 != 0 {
        proof {
            assert((base + con_start) % 8 == (base % 8 + con_start % 8) % 8) by (nonlinear_arith);
        }
        return Err(ParseError::InvalidConstants);
    }
    proof {
        assert((base + con_start) % 8 == (base % 8 + con_start % 8) % 8) by (nonlinear_arith);
    }
    let code = vstd::slice::slice_to_vec(&bytes[instr_start..instr_end]);
    let count = constants_size / 8;
    let mut constants: Vec<Value> = Vec::with_capacity(count);
    let mut k: usize = 0;
    while k < count
        invariant
            k <= count,
            count * 8 == constants_size,
            con_start + constants_size <= bytes@.len(),
            bytes@.len() <= usize::MAX,
            constants@.len() == k,
            forall|j: int| 0 <= j < k ==> (#[trigger] constants@[j])@ == le_number(bytes@, con_start + 8 * j, 8),
        decreases count - k,
    {
        assert(8 * k + 8 <= constants_size) by (nonlinear_arith)
            requires
                k < count,
                count * 8 == constants_size,
        ;
        let word = read_u64(bytes, con_start + 8 * k);
        constants.push(Value::from_bits(word));
        k += 1;
    }
    Ok(Bytecode { code, constants })
}

} // verus!
