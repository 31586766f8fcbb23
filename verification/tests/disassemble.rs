use pillow::assembler::disassemble::disassemble;

#[test]
fn disassemble_simple() {
    let code = vec![
        0x01, 0x00, // const 0
        0x01, 0x01, // const 1
        0x02, // add
        0x06, // return
    ];

    let listing = disassemble(&code).unwrap();

    assert_eq!(listing, "const 0\nconst 1\nadd\nreturn");
}

#[test]
fn disassemble_invalid_opcode() {
    let code = vec![0xFF];

    let res = disassemble(&code);
    assert!(res.is_err());
}
