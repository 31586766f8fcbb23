//! Reading assembly text, encoding it, and listing the encoding again.
use pillow::assembler::assemble::assemble;
use pillow::assembler::ast::{Instr, Stmt};
use pillow::assembler::disassemble::disassemble;
use pillow::assembler::error::DisassemblyError;
use pillow::assembler::parser::{ProgramParser, SyntaxError};

fn parse(src: &str) -> Result<Vec<Stmt>, SyntaxError> {
    ProgramParser::new().parse(src)
}

#[test]
fn parses_each_operand_form() {
    let ast = parse("start: const 7 jmp start call 128, 2 alloc 16, 1 add").unwrap();
    assert_eq!(ast.len(), 6);
    assert!(matches!(&ast[0], Stmt::Label(n) if n == "start"));
    assert!(matches!(ast[1], Stmt::Instr(Instr::Const(7))));
    assert!(matches!(&ast[2], Stmt::Instr(Instr::Jmp(l)) if l == "start"));
    assert!(matches!(ast[3], Stmt::Instr(Instr::Call(128, 2))));
    assert!(matches!(ast[4], Stmt::Instr(Instr::Alloc(16, 1))));
    assert!(matches!(ast[5], Stmt::Instr(Instr::Add)));
}

#[test]
fn parses_operand_limits() {
    let ast = parse("const 255\ncall 4294967295, 255\nalloc 65535, 0\nget_local 007").unwrap();
    assert!(matches!(ast[0], Stmt::Instr(Instr::Const(255))));
    assert!(matches!(ast[1], Stmt::Instr(Instr::Call(4294967295, 255))));
    assert!(matches!(ast[2], Stmt::Instr(Instr::Alloc(65535, 0))));
    assert!(matches!(ast[3], Stmt::Instr(Instr::GetLocal(7))));
}

#[test]
fn labels_may_use_underscores_and_digits() {
    let ast = parse("_loop2:\njmp_if_true _loop2").unwrap();
    assert!(matches!(&ast[0], Stmt::Label(n) if n == "_loop2"));
    assert!(matches!(&ast[1], Stmt::Instr(Instr::JmpIfTrue(l)) if l == "_loop2"));
}

#[test]
fn syntax_errors_name_their_position() {
    assert_eq!(parse("nop @").unwrap_err(), SyntaxError::InvalidToken(4));
    assert_eq!(parse("const").unwrap_err(), SyntaxError::UnexpectedEof);
    assert_eq!(parse("const 1 2").unwrap_err(), SyntaxError::UnexpectedToken(8));
    assert_eq!(parse("const 256").unwrap_err(), SyntaxError::NumberOutOfRange(6));
    assert_eq!(parse("call 4294967296, 1").unwrap_err(), SyntaxError::NumberOutOfRange(5));
    assert_eq!(parse("call 1 2").unwrap_err(), SyntaxError::UnexpectedToken(7));
    assert_eq!(parse("start").unwrap_err(), SyntaxError::UnexpectedEof);
    assert_eq!(parse("start nop").unwrap_err(), SyntaxError::UnexpectedToken(6));
    assert_eq!(parse("123abc:").unwrap_err(), SyntaxError::UnexpectedToken(0));
}

#[test]
fn mnemonics_are_not_label_names() {
    assert_eq!(parse("nop:").unwrap_err(), SyntaxError::UnexpectedToken(3));
    assert_eq!(parse("jmp add").unwrap_err(), SyntaxError::UnexpectedToken(4));
}

#[test]
fn huge_numbers_are_out_of_range() {
    assert_eq!(
        parse("const 99999999999999999999999999").unwrap_err(),
        SyntaxError::NumberOutOfRange(6)
    );
}

#[test]
fn non_ascii_characters_start_no_token() {
    assert_eq!(parse("é").unwrap_err(), SyntaxError::InvalidToken(0));
    assert_eq!(parse("nop\n\tfoo é").unwrap_err(), SyntaxError::InvalidToken(9));
}

#[test]
fn assembles_operands_little_endian() {
    let ast = parse("const 3\ncall 258, 2\nalloc 513, 1\nreturn").unwrap();
    assert_eq!(
        assemble(&ast),
        vec![0x01, 3, 0x17, 0x02, 0x01, 0, 0, 2, 0x1A, 0x01, 0x02, 1, 0x06]
    );
}

#[test]
fn labels_resolve_to_the_next_instruction() {
    let ast = parse("jmp end\nnop\nmid:\nconst 0\nend:\njmp_if_false mid").unwrap();
    assert_eq!(
        assemble(&ast),
        vec![0x0F, 8, 0, 0, 0, 0x00, 0x01, 0x00, 0x10, 6, 0, 0, 0]
    );
}

#[test]
fn a_label_defined_twice_names_its_last_place() {
    let ast = parse("a: nop a: jmp a").unwrap();
    assert_eq!(assemble(&ast), vec![0x00, 0x0F, 1, 0, 0, 0]);
}

#[test]
fn assembled_text_lists_back() {
    let src = "start:\n  const 1\n  make_frame 2\n  jmp start\n  call 7, 1\n  alloc 16, 1\n  storeb";
    let code = assemble(&parse(src).unwrap());
    assert_eq!(
        disassemble(&code).unwrap(),
        "const 1\nmake_frame 2\njmp 0\ncall 7, 1\nalloc 16, 1\nstoreb"
    );
}

#[test]
fn empty_code_lists_as_empty_text() {
    assert_eq!(disassemble(&[]).unwrap(), "");
}

#[test]
fn truncated_operands_are_eof() {
    assert_eq!(disassemble(&[0x01]).unwrap_err(), DisassemblyError::UnexpectedEof);
    assert_eq!(disassemble(&[0x17, 1, 0, 0, 0]).unwrap_err(), DisassemblyError::UnexpectedEof);
    assert_eq!(disassemble(&[0x06, 0x1F]).unwrap_err(), DisassemblyError::UnknownOpcode);
}

#[test]
fn disassembly_errors_have_messages() {
    assert_eq!(DisassemblyError::UnknownOpcode.to_string(), "unknown opcode");
    assert_eq!(DisassemblyError::UnexpectedEof.to_string(), "unexpected eof");
}
