//! Opcode bytes.
use pillow::opcode::{OpCode, MAX_OPCODE_BYTE};

#[test]
fn every_byte_up_to_the_last_opcode_decodes() {
    for b in 0..=MAX_OPCODE_BYTE {
        assert!(OpCode::from_byte(b).is_some(), "byte {b:#x}");
    }
}

#[test]
fn bytes_past_the_last_opcode_do_not_decode() {
    for b in (MAX_OPCODE_BYTE as u16 + 1)..=0xFF {
        assert!(OpCode::from_byte(b as u8).is_none(), "byte {b:#x}");
    }
}

#[test]
fn known_opcode_bytes() {
    assert!(matches!(OpCode::from_byte(0x00), Some(OpCode::Nop)));
    assert!(matches!(OpCode::from_byte(0x01), Some(OpCode::Const)));
    assert!(matches!(OpCode::from_byte(0x06), Some(OpCode::Return)));
    assert!(matches!(OpCode::from_byte(0x17), Some(OpCode::Call)));
    assert!(matches!(OpCode::from_byte(0x1A), Some(OpCode::Alloc)));
    assert!(matches!(OpCode::from_byte(0x1E), Some(OpCode::StoreB)));
}
