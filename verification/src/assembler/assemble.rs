//! Encodes parsed assembly as bytecode. Labels resolve to the code offset of
//! the instruction that follows them; multi-byte operands are little-endian,
//! as the disassembler reads them.
use crate::assembler::ast::{Instr, Stmt};
use crate::opcode::{byte_of, OpCode};
use vstd::prelude::*;

verus! {

/// The `width` little-endian bytes of `v`, modulo 256^width.
pub open spec fn le_bytes(v: nat, width: nat) -> Seq<u8>
    decreases width,
{
    if width == 0 {
        Seq::empty()
    } else {
        seq![(v % 256) as u8] + le_bytes(v / 256, (width - 1) as nat)
    }
}

/// Encoded size of an instruction: opcode byte plus operands.
pub open spec fn instr_len(i: Instr) -> nat {
    match i {
        Instr::Const(_) | Instr::MakeFrame(_) | Instr::GetLocal(_) | Instr::SetLocal(_) => 2,
        Instr::Jmp(_) | Instr::JmpIfFalse(_) | Instr::JmpIfTrue(_) => 5,
        Instr::Call(_, _) => 6,
        Instr::Alloc(_, _) => 4,
        _ => 1,
    }
}

/// The opcode byte of an instruction.
pub open spec fn instr_op(i: Instr) -> u8 {
    match i {
        Instr::Nop => 0x00,
        Instr::Const(_) => 0x01,
        Instr::Add => 0x02,
        Instr::Sub => 0x03,
        Instr::Mul => 0x04,
        Instr::Div => 0x05,
        Instr::Return => 0x06,
        Instr::Neg => 0x07,
        Instr::Not => 0x08,
        Instr::Eq => 0x09,
        Instr::Ne => 0x0A,
        Instr::Lt => 0x0B,
        Instr::Le => 0x0C,
        Instr::Gt => 0x0D,
        Instr::Ge => 0x0E,
        Instr::Jmp(_) => 0x0F,
        Instr::JmpIfFalse(_) => 0x10,
        Instr::JmpIfTrue(_) => 0x11,
        Instr::Pop => 0x12,
        Instr::Dup => 0x13,
        Instr::MakeFrame(_) => 0x14,
        Instr::GetLocal(_) => 0x15,
        Instr::SetLocal(_) => 0x16,
        Instr::Call(_, _) => 0x17,
        Instr::EnterNoGc => 0x18,
        Instr::ExitNoGc => 0x19,
        Instr::Alloc(_, _) => 0x1A,
        Instr::Load => 0x1B,
        Instr::Store => 0x1C,
        Instr::LoadB => 0x1D,
        Instr::StoreB => 0x1E,
    }
}

/// The operation each instruction of the assembly language stands for.
pub open spec fn instr_opcode(i: Instr) -> OpCode {
    match i {
        Instr::Nop => OpCode::Nop,
        Instr::Const(_) => OpCode::Const,
        Instr::Add => OpCode::Add,
        Instr::Sub => OpCode::Sub,
        Instr::Mul => OpCode::Mul,
        Instr::Div => OpCode::Div,
        Instr::Return => OpCode::Return,
        Instr::Neg => OpCode::Neg,
        Instr::Not => OpCode::Not,
        Instr::Eq => OpCode::Eq,
        Instr::Ne => OpCode::Ne,
        Instr::Lt => OpCode::Lt,
        Instr::Le => OpCode::Le,
        Instr::Gt => OpCode::Gt,
        Instr::Ge => OpCode::Ge,
        Instr::Jmp(_) => OpCode::Jmp,
        Instr::JmpIfFalse(_) => OpCode::JmpIfFalse,
        Instr::JmpIfTrue(_) => OpCode::JmpIfTrue,
        Instr::Pop => OpCode::Pop,
        Instr::Dup => OpCode::Dup,
        Instr::MakeFrame(_) => OpCode::MakeFrame,
        Instr::GetLocal(_) => OpCode::GetLocal,
        Instr::SetLocal(_) => OpCode::SetLocal,
        Instr::Call(_, _) => OpCode::Call,
        Instr::EnterNoGc => OpCode::EnterNoGc,
        Instr::ExitNoGc => OpCode::ExitNoGc,
        Instr::Alloc(_, _) => OpCode::Alloc,
        Instr::Load => OpCode::Load,
        Instr::Store => OpCode::Store,
        Instr::LoadB => OpCode::LoadB,
        Instr::StoreB => OpCode::StoreB,
    }
}

/// The assembler writes each instruction with the opcode byte that the
/// machine decodes to the operation of the same name.
pub proof fn law_instr_opcodes(i: Instr, program: Seq<Stmt>)
    ensures
        instr_op(i) == byte_of(instr_opcode(i)),
        encode(i, program)[0] == byte_of(instr_opcode(i)),
{
}

/// Size of the code the statements encode to.
pub open spec fn program_len(ast: Seq<Stmt>) -> nat
    decreases ast.len(),
{
    if ast.len() == 0 {
        0
    } else {
        program_len(ast.drop_last()) + match ast.last() {
            Stmt::Instr(i) => instr_len(i),
            Stmt::Label(_) => 0,
        }
    }
}

/// The offset a label names: where its last definition stands.
pub open spec fn label_offset(ast: Seq<Stmt>, name: Seq<char>) -> Option<nat>
    decreases ast.len(),
{
    if ast.len() == 0 {
        None
    } else {
        match ast.last() {
            Stmt::Label(n) => if n@ == name {
                Some(program_len(ast.drop_last()))
            } else {
                label_offset(ast.drop_last(), name)
            },
            _ => label_offset(ast.drop_last(), name),
        }
    }
}

/// The label a jump instruction refers to.
pub open spec fn jump_label(i: Instr) -> Option<Seq<char>> {
    match i {
        Instr::Jmp(l) | Instr::JmpIfFalse(l) | Instr::JmpIfTrue(l) => Some(l@),
        _ => None,
    }
}

/// Every label that a jump refers to is defined somewhere in the program.
pub open spec fn labels_defined(ast: Seq<Stmt>) -> bool {
    forall|k: int|
        0 <= k < ast.len() ==> match #[trigger] ast[k] {
            Stmt::Instr(i) => jump_label(i) matches Some(l) ==> label_offset(ast, l) is Some,
            Stmt::Label(_) => true,
        }
}

/// The bytes of one instruction, with labels resolved in `program`.
pub open spec fn encode(i: Instr, program: Seq<Stmt>) -> Seq<u8> {
    seq![instr_op(i)] + match i {
        Instr::Const(x) | Instr::MakeFrame(x) | Instr::GetLocal(x) | Instr::SetLocal(x) => seq![x],
        Instr::Jmp(l) | Instr::JmpIfFalse(l) | Instr::JmpIfTrue(l) => le_bytes(
            label_offset(program, l@)->Some_0,
            4,
        ),
        Instr::Call(a, n) => le_bytes(a as nat, 4) + seq![n],
        Instr::Alloc(s, f) => le_bytes(s as nat, 2) + seq![f],
        _ => Seq::empty(),
    }
}

/// The bytes of the statements `ast`, with labels resolved in `program`.
pub open spec fn assembled(ast: Seq<Stmt>, program: Seq<Stmt>) -> Seq<u8>
    decreases ast.len(),
{
    if ast.len() == 0 {
        Seq::empty()
    } else {
        assembled(ast.drop_last(), program) + match ast.last() {
            Stmt::Instr(i) => encode(i, program),
            Stmt::Label(_) => Seq::empty(),
        }
    }
}

/// A resolved label.
pub struct LabelEntry {
    pub name: String,
    pub pc: u32,
}

/// The offset of the last entry named `name`.
pub open spec fn lookup_spec(entries: Seq<LabelEntry>, name: Seq<char>) -> Option<nat>
    decreases entries.len(),
{
    if entries.len() == 0 {
        None
    } else if entries.last().name@ == name {
        Some(entries.last().pc as nat)
    } else {
        lookup_spec(entries.drop_last(), name)
    }
}

/// Assembles a program. Every jump must name a label that the program
/// defines, and the code must fit in 32-bit offsets.
pub fn assemble(ast: &[Stmt]) -> (r: Vec<u8>)
    requires
        labels_defined(ast@),
        program_len(ast@) <= u32::MAX,
    ensures
        r@ == assembled(ast@, ast@),
{
    let mut bytecode: Vec<u8> = Vec::new();
    let labels = collect_labels(ast);
    let mut k: usize = 0;
    while k < ast.len()
        invariant
            k <= ast@.len(),
            labels_defined(ast@),
            program_len(ast@) <= u32::MAX,
            forall|name: Seq<char>| lookup_spec(labels@, name) == label_offset(ast@, name),
            bytecode@ == assembled(ast@.take(k as int), ast@),
        decreases ast@.len() - k,
    {
        proof {
            assert(ast@.take(k + 1).drop_last() =~= ast@.take(k as int));
        }
        match &ast[k] {
            Stmt::Instr(instr) => {
                proof {
                    assert(ast@[k as int] == Stmt::Instr(*instr));
                }
                proof {
                    assert forall|name: Seq<char>| #[trigger]
                        label_offset(ast@, name) is Some implies label_offset(ast@, name)->Some_0
                        <= u32::MAX by {
                        lemma_label_in_program(ast@, name);
                    }
                }
                let bytes = assemble_instr(instr, &labels, Ghost(ast@));
                let ghost before = bytecode@;
                let mut b = bytes;
                bytecode.append(&mut b);
            },
            Stmt::Label(_) => {},
        }
        k += 1;
    }
    proof {
        assert(ast@.take(ast@.len() as int) =~= ast@);
    }
    bytecode
}

/// Each label with the offset of the instruction after it, in program order.
fn collect_labels(ast: &[Stmt]) -> (r: Vec<LabelEntry>)
    requires
        program_len(ast@) <= u32::MAX,
    ensures
        forall|name: Seq<char>| lookup_spec(r@, name) == label_offset(ast@, name),
{
    let mut labels: Vec<LabelEntry> = Vec::new();
    let mut pc: u32 = 0;
    let mut k: usize = 0;
    while k < ast.len()
        invariant
            k <= ast@.len(),
            program_len(ast@) <= u32::MAX,
            pc == program_len(ast@.take(k as int)),
            forall|name: Seq<char>| lookup_spec(labels@, name) == label_offset(ast@.take(k as int), name),
        decreases ast@.len() - k,
    {
        proof {
            assert(ast@.take(k + 1).drop_last() =~= ast@.take(k as int));
            lemma_program_len_prefix(ast@, k + 1);
        }
        match &ast[k] {
            Stmt::Label(name) => {
                let ghost before = labels@;
                let copy = name.clone();
                proof {
                    assert(ast@[k as int] == Stmt::Label(*name));
                    assert(copy@ == name@);
                }
                labels.push(LabelEntry { name: copy, pc });
                proof {
                    assert(labels@.drop_last() =~= before);
                    let t = ast@.take(k + 1);
                    assert(t.last() == Stmt::Label(*name));
                    assert(t.drop_last() =~= ast@.take(k as int));
                    assert(labels@.last().name@ == name@);
                    assert(labels@.last().pc == pc);
                    assert forall|n: Seq<char>| lookup_spec(labels@, n) == label_offset(t, n) by {
                        if n == name@ {
                            assert(lookup_spec(labels@, n) == Some(pc as nat));
                            assert(label_offset(t, n) == Some(program_len(t.drop_last())));
                        } else {
                            assert(lookup_spec(labels@, n) == lookup_spec(before, n));
                            assert(label_offset(t, n) == label_offset(t.drop_last(), n));
                        }
                    }
                }
            },
            Stmt::Instr(instr) => {
                pc = pc + instr_size(instr);
                proof {
                    assert(ast@.take(k + 1).last() == ast@[k as int]);
                    assert forall|n: Seq<char>| lookup_spec(labels@, n) == label_offset(
                        ast@.take(k + 1),
                        n,
                    ) by {}
                }
            },
        }
        k += 1;
    }
    proof {
        assert(ast@.take(ast@.len() as int) =~= ast@);
    }
    labels
}

/// The code of a prefix is no longer than the code of the whole program.
proof fn lemma_program_len_prefix(ast: Seq<Stmt>, k: int)
    requires
        0 <= k <= ast.len(),
    ensures
        program_len(ast.take(k)) <= program_len(ast),
    decreases ast.len() - k,
{
    if k < ast.len() {
        lemma_program_len_prefix(ast, k + 1);
        assert(ast.take(k + 1).drop_last() =~= ast.take(k));
    } else {
        assert(ast.take(k) =~= ast);
    }
}

/// A label names an offset inside the program's code, or its end.
proof fn lemma_label_in_program(ast: Seq<Stmt>, name: Seq<char>)
    ensures
        label_offset(ast, name) matches Some(a) ==> a <= program_len(ast),
    decreases ast.len(),
{
    if ast.len() > 0 {
        lemma_label_in_program(ast.drop_last(), name);
    }
}

fn instr_size(instr: &Instr) -> (r: u32)
    ensures
        r == instr_len(*instr),
{
    match instr {
        Instr::Const(_) => 2,
        Instr::Jmp(_) => 5,
        Instr::JmpIfFalse(_) => 5,
        Instr::JmpIfTrue(_) => 5,
        Instr::MakeFrame(_) => 2,
        Instr::GetLocal(_) => 2,
        Instr::SetLocal(_) => 2,
        Instr::Call(_, _) => 6,
        Instr::Alloc(_, _) => 4,
        _ => 1,
    }
}

/// The offset of the last entry named `name`.
fn lookup(labels: &Vec<LabelEntry>, name: &String) -> (r: Option<u32>)
    ensures
        match r {
            Some(pc) => lookup_spec(labels@, name@) == Some(pc as nat),
            None => lookup_spec(labels@, name@) is None,
        },
{
    let mut k = labels.len();
    proof {
        assert(labels@.take(k as int) =~= labels@);
    }
    while k > 0
        invariant
            k <= labels@.len(),
            lookup_spec(labels@, name@) == lookup_spec(labels@.take(k as int), name@),
        decreases k,
    {
        proof {
            assert(labels@.take(k as int).drop_last() =~= labels@.take(k - 1));
        }
        if labels[k - 1].name == *name {
            return Some(labels[k - 1].pc);
        }
        k -= 1;
    }
    None
}

/// Appends the 4 little-endian bytes of `v`.
fn push_le32(out: &mut Vec<u8>, v: u32)
    ensures
        final(out)@ == old(out)@ + le_bytes(v as nat, 4),
{
    out.push((v % 256) as u8);
    out.push((v / 0x100 % 256) as u8);
    out.push((v / 0x1_0000 % 256) as u8);
    out.push((v / 0x100_0000 % 256) as u8);
    proof {
        reveal_with_fuel(le_bytes, 5);
        assert(final(out)@ =~= old(out)@ + le_bytes(v as nat, 4));
    }
}

fn assemble_instr(instr: &Instr, labels: &Vec<LabelEntry>, Ghost(program): Ghost<Seq<Stmt>>) -> (r: Vec<u8>)
    requires
        forall|name: Seq<char>| lookup_spec(labels@, name) == label_offset(program, name),
        jump_label(*instr) matches Some(l) ==> label_offset(program, l) is Some,
        forall|name: Seq<char>| #[trigger] label_offset(program, name) matches Some(a) ==> a
            <= u32::MAX,
    ensures
        r@ == encode(*instr, program),
{
    let mut bytes: Vec<u8> = Vec::new();
    match instr {
        Instr::Nop => bytes.push(0x00),
        Instr::Const(idx) => {
            bytes.push(0x01);
            bytes.push(*idx);
        },
        Instr::Add => bytes.push(0x02),
        Instr::Sub => bytes.push(0x03),
        Instr::Mul => bytes.push(0x04),
        Instr::Div => bytes.push(0x05),
        Instr::Return => bytes.push(0x06),
        Instr::Neg => bytes.push(0x07),
        Instr::Not => bytes.push(0x08),
        Instr::Eq => bytes.push(0x09),
        Instr::Ne => bytes.push(0x0A),
        Instr::Lt => bytes.push(0x0B),
        Instr::Le => bytes.push(0x0C),
        Instr::Gt => bytes.push(0x0D),
        Instr::Ge => bytes.push(0x0E),
        Instr::Jmp(label) => {
            bytes.push(0x0F);
            let addr = match lookup(labels, label) {
                Some(a) => a,
                None => 0,
            };
            push_le32(&mut bytes, addr);
        },
        Instr::JmpIfFalse(label) => {
            bytes.push(0x10);
            let addr = match lookup(labels, label) {
                Some(a) => a,
                None => 0,
            };
            push_le32(&mut bytes, addr);
        },
        Instr::JmpIfTrue(label) => {
            bytes.push(0x11);
            let addr = match lookup(labels, label) {
                Some(a) => a,
                None => 0,
            };
            push_le32(&mut bytes, addr);
        },
        Instr::Pop => bytes.push(0x12),
        Instr::Dup => bytes.push(0x13),
        Instr::MakeFrame(n) => {
            bytes.push(0x14);
            bytes.push(*n);
        },
        Instr::GetLocal(n) => {
            bytes.push(0x15);
            bytes.push(*n);
        },
        Instr::SetLocal(n) => {
            bytes.push(0x16);
            bytes.push(*n);
        },
        Instr::Call(addr, argc) => {
            bytes.push(0x17);
            push_le32(&mut bytes, *addr);
            bytes.push(*argc);
        },
        Instr::EnterNoGc => bytes.push(0x18),
        Instr::ExitNoGc => bytes.push(0x19),
        Instr::Alloc(size, flag) => {
            bytes.push(0x1A);
            bytes.push((*size % 256) as u8);
            bytes.push((*size / 256) as u8);
            bytes.push(*flag);
            proof {
                reveal_with_fuel(le_bytes, 3);
            }
        },
        Instr::Load => bytes.push(0x1B),
        Instr::Store => bytes.push(0x1C),
        Instr::LoadB => bytes.push(0x1D),
        Instr::StoreB => bytes.push(0x1E),
    }
    proof {
        assert(bytes@ =~= encode(*instr, program));
    }
    bytes
}

} // verus!
