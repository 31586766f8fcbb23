//! The disassembler reads back what the assembler writes.
use crate::assembler::assemble::{
    assembled, labels_defined, program_len, encode, instr_len, instr_op, jump_label, label_offset, le_bytes,
};
use crate::assembler::ast::{Instr, Stmt};
use crate::assembler::error::DisassemblyError;
use crate::assembler::disassemble::{
    decimal, decode_at, disassembly, join_lines, le_number, listing_from, mnemonic,
    operand_widths, operands_text, prepend_lines, sum_widths,
};
use vstd::prelude::*;

verus! {

/// The line the disassembler prints for an instruction, with its labels
/// resolved in `program`.
pub open spec fn instr_text(i: Instr, program: Seq<Stmt>) -> Seq<char> {
    let m = mnemonic(instr_op(i));
    match i {
        Instr::Const(x) | Instr::MakeFrame(x) | Instr::GetLocal(x) | Instr::SetLocal(x) => m + " "@
            + decimal(x as nat),
        Instr::Jmp(l) | Instr::JmpIfFalse(l) | Instr::JmpIfTrue(l) => m + " "@ + decimal(
            label_offset(program, l@)->Some_0,
        ),
        Instr::Call(a, n) => m + " "@ + (decimal(a as nat) + ", "@ + decimal(n as nat)),
        Instr::Alloc(s, f) => m + " "@ + (decimal(s as nat) + ", "@ + decimal(f as nat)),
        _ => m,
    }
}

/// The lines of the instructions of `ast`, labels left out.
pub open spec fn listing(ast: Seq<Stmt>, program: Seq<Stmt>) -> Seq<Seq<char>>
    decreases ast.len(),
{
    if ast.len() == 0 {
        Seq::empty()
    } else {
        listing(ast.drop_last(), program) + match ast.last() {
            Stmt::Instr(i) => seq![instr_text(i, program)],
            Stmt::Label(_) => Seq::empty(),
        }
    }
}

/// Every jump in `ast` names a label of `program` with a 32-bit offset.
pub open spec fn jumps_resolve(ast: Seq<Stmt>, program: Seq<Stmt>) -> bool {
    forall|k: int|
        0 <= k < ast.len() ==> match #[trigger] ast[k] {
            Stmt::Instr(i) => jump_label(i) matches Some(l) ==> label_offset(program, l) is Some
                && label_offset(program, l)->Some_0 <= u32::MAX,
            Stmt::Label(_) => true,
        }
}

proof fn lemma_le4(c: Seq<u8>, q: int, v: u32)
    requires
        0 <= q,
        q + 4 <= c.len(),
        c.subrange(q, q + 4) == le_bytes(v as nat, 4),
    ensures
        le_number(c, q, 4) == v,
{
    reveal_with_fuel(le_bytes, 5);
    reveal_with_fuel(le_number, 5);
    let s = c.subrange(q, q + 4);
    assert(c[q] == s[0] && c[q + 1] == s[1] && c[q + 2] == s[2] && c[q + 3] == s[3]);
    assert(v % 256 + 256 * ((v / 256) % 256 + 256 * ((v / 256 / 256) % 256 + 256 * ((v / 256 / 256
        / 256) % 256))) == v) by (bit_vector);
}

proof fn lemma_le2(c: Seq<u8>, q: int, v: u16)
    requires
        0 <= q,
        q + 2 <= c.len(),
        c.subrange(q, q + 2) == le_bytes(v as nat, 2),
    ensures
        le_number(c, q, 2) == v,
{
    reveal_with_fuel(le_bytes, 3);
    reveal_with_fuel(le_number, 3);
    let s = c.subrange(q, q + 2);
    assert(c[q] == s[0] && c[q + 1] == s[1]);
    assert(v % 256 + 256 * ((v / 256) % 256) == v) by (bit_vector);
}

/// An instruction's bytes have the size its table gives.
pub proof fn law_encode_len(i: Instr, program: Seq<Stmt>)
    ensures
        encode(i, program).len() == instr_len(i),
{
    reveal_with_fuel(le_bytes, 5);
}

/// Wherever the bytes of one instruction stand in a code, they decode to
/// that instruction's line, and the next instruction starts right after them.
pub proof fn law_decode_encoded(c: Seq<u8>, p: int, i: Instr, program: Seq<Stmt>)
    requires
        0 <= p,
        p + instr_len(i) <= c.len(),
        c.subrange(p, p + instr_len(i)) == encode(i, program),
        jump_label(i) matches Some(l) ==> label_offset(program, l) is Some && label_offset(
            program,
            l,
        )->Some_0 <= u32::MAX,
    ensures
        decode_at(c, p) == Ok::<(Seq<char>, int), DisassemblyError>((instr_text(i, program), p + instr_len(i))),
{
    let e = encode(i, program);
    assert(c[p] == e[0]);
    reveal_with_fuel(sum_widths, 3);
    reveal_with_fuel(le_number, 2);
    reveal_with_fuel(le_bytes, 5);
    reveal_with_fuel(operands_text, 2);
    let op = instr_op(i);
    assert(op <= 0x1E);
    match i {
        Instr::Const(x) | Instr::MakeFrame(x) | Instr::GetLocal(x) | Instr::SetLocal(x) => {
            assert(e =~= seq![op, x]);
            assert(c[p + 1] == e[1]);
            assert(operand_widths(op) =~= seq![1nat]);
            assert(le_number(c, p + 1, 1) == x);
            assert(operands_text(c, p + 1, seq![1nat]) == decimal(x as nat));
        },
        Instr::Jmp(l) | Instr::JmpIfFalse(l) | Instr::JmpIfTrue(l) => {
            let a = label_offset(program, l@)->Some_0;
            assert(e =~= seq![op] + le_bytes(a, 4));
            assert(c.subrange(p + 1, p + 5) =~= e.subrange(1, 5));
            assert(e.subrange(1, 5) =~= le_bytes(a, 4));
            lemma_le4(c, p + 1, a as u32);
            assert(operand_widths(op) =~= seq![4nat]);
        },
        Instr::Call(a, n) => {
            assert(e =~= seq![op] + le_bytes(a as nat, 4) + seq![n]);
            assert(c.subrange(p + 1, p + 5) =~= e.subrange(1, 5));
            assert(e.subrange(1, 5) =~= le_bytes(a as nat, 4));
            lemma_le4(c, p + 1, a);
            assert(c[p + 5] == e[5]);
            let ws = operand_widths(op);
            assert(ws =~= seq![4nat, 1nat]);
            assert(ws.drop_first() =~= seq![1nat]);
            assert(le_number(c, p + 5, 1) == n);
            assert(operands_text(c, p + 5, seq![1nat]) == decimal(n as nat));
            assert(operands_text(c, p + 1, ws) == decimal(a as nat) + ", "@ + decimal(n as nat));
        },
        Instr::Alloc(s, f) => {
            assert(e =~= seq![op] + le_bytes(s as nat, 2) + seq![f]);
            assert(c.subrange(p + 1, p + 3) =~= e.subrange(1, 3));
            assert(e.subrange(1, 3) =~= le_bytes(s as nat, 2));
            lemma_le2(c, p + 1, s);
            assert(c[p + 3] == e[3]);
            let ws = operand_widths(op);
            assert(ws =~= seq![2nat, 1nat]);
            assert(ws.drop_first() =~= seq![1nat]);
            assert(le_number(c, p + 3, 1) == f);
            assert(operands_text(c, p + 3, seq![1nat]) == decimal(f as nat));
            assert(operands_text(c, p + 1, ws) == decimal(s as nat) + ", "@ + decimal(f as nat));
        },
        _ => {
            assert(operand_widths(op) =~= Seq::<nat>::empty());
        },
    }
}

/// Decoding does not depend on what precedes the position decoded.
proof fn lemma_listing_shift(x: Seq<u8>, e: Seq<u8>, q: int)
    requires
        0 <= q,
    ensures
        listing_from(x + e, x.len() + q) == listing_from(e, q),
    decreases e.len() - q,
{
    let c = x + e;
    if q < e.len() {
        let p = x.len() + q;
        assert(c.subrange(p, c.len() as int) =~= e.subrange(q, e.len() as int));
        lemma_decode_shift(x, e, q);
        match decode_at(e, q) {
            Ok((line, next)) => {
                if next > q {
                    lemma_listing_shift(x, e, next);
                }
            },
            Err(_) => {},
        }
    }
}

proof fn lemma_decode_shift(x: Seq<u8>, e: Seq<u8>, q: int)
    requires
        0 <= q < e.len(),
    ensures
        decode_at(x + e, x.len() + q) == (match decode_at(e, q) {
            Ok((line, next)) => Ok((line, x.len() + next)),
            Err(err) => Err(err),
        }),
{
    let c = x + e;
    let p = x.len() + q;
    reveal_with_fuel(le_number, 5);
    assert(c[p] == e[q]);
    let ws = operand_widths(e[q]);
    reveal_with_fuel(sum_widths, 3);
    if q + 1 + sum_widths(ws) <= e.len() {
        if ws.len() == 2 {
            assert(operands_text(c, p + 1, ws) == operands_text(e, q + 1, ws)) by {
                assert(operands_text(c, p + 1 + ws[0], ws.drop_first()) == operands_text(
                    e,
                    q + 1 + ws[0],
                    ws.drop_first(),
                ));
            }
        }
    }
}

/// Decoding a prefix that lists cleanly and then going on past it.
proof fn lemma_listing_append(x: Seq<u8>, e: Seq<u8>, p: int)
    requires
        0 <= p <= x.len(),
        listing_from(x, p) is Ok,
    ensures
        listing_from(x + e, p) == prepend_lines(listing_from(x, p)->Ok_0, listing_from(e, 0)),
    decreases x.len() - p,
{
    let c = x + e;
    if p == x.len() {
        lemma_listing_shift(x, e, 0);
        match listing_from(e, 0) {
            Ok(l) => assert(Seq::<Seq<char>>::empty() + l =~= l),
            Err(_) => {},
        }
    } else {
        let (line, next) = decode_at(x, p)->Ok_0;
        lemma_decode_prefix(x, e, p);
        if next > p {
            lemma_listing_append(x, e, next);
            let rest = listing_from(x, next)->Ok_0;
            match listing_from(e, 0) {
                Ok(l) => assert(seq![line] + (rest + l) =~= (seq![line] + rest) + l),
                Err(_) => {},
            }
        }
    }
}

/// An instruction that decodes inside `x` decodes the same way in `x + e`.
proof fn lemma_decode_prefix(x: Seq<u8>, e: Seq<u8>, p: int)
    requires
        0 <= p < x.len(),
        decode_at(x, p) is Ok,
    ensures
        decode_at(x + e, p) == decode_at(x, p),
        decode_at(x, p)->Ok_0.1 <= x.len(),
        decode_at(x, p)->Ok_0.1 > p,
{
    let c = x + e;
    reveal_with_fuel(le_number, 5);
    reveal_with_fuel(sum_widths, 3);
    assert(c[p] == x[p]);
    let ws = operand_widths(x[p]);
    if ws.len() == 2 {
        assert(operands_text(c, p + 1, ws) == operands_text(x, p + 1, ws)) by {
            assert(operands_text(c, p + 1 + ws[0], ws.drop_first()) == operands_text(
                x,
                p + 1 + ws[0],
                ws.drop_first(),
            ));
        }
    }
}

/// The listing of one encoded instruction is its line.
proof fn lemma_listing_single(i: Instr, program: Seq<Stmt>)
    requires
        jump_label(i) matches Some(l) ==> label_offset(program, l) is Some && label_offset(
            program,
            l,
        )->Some_0 <= u32::MAX,
    ensures
        listing_from(encode(i, program), 0) == Ok::<Seq<Seq<char>>, DisassemblyError>(
            seq![instr_text(i, program)],
        ),
{
    let e = encode(i, program);
    reveal_with_fuel(le_bytes, 5);
    reveal_with_fuel(listing_from, 2);
    assert(e.len() == instr_len(i));
    assert(e.subrange(0, instr_len(i) as int) =~= e);
    law_decode_encoded(e, 0, i, program);
    assert(listing_from(e, instr_len(i) as int) == Ok::<Seq<Seq<char>>, DisassemblyError>(
        Seq::empty(),
    ));
    assert(seq![instr_text(i, program)] + Seq::<Seq<char>>::empty() =~= seq![
        instr_text(i, program),
    ]);
}

/// The listing of the bytes of `ast` with labels resolved in `program`.
proof fn lemma_disassemble_assembled(ast: Seq<Stmt>, program: Seq<Stmt>)
    requires
        jumps_resolve(ast, program),
    ensures
        listing_from(assembled(ast, program), 0) == Ok::<Seq<Seq<char>>, DisassemblyError>(listing(ast, program)),
        disassembly(assembled(ast, program)) == Ok::<Seq<char>, DisassemblyError>(
            join_lines(listing(ast, program)),
        ),
    decreases ast.len(),
{
    if ast.len() == 0 {
    } else {
        let init = ast.drop_last();
        assert(jumps_resolve(init, program)) by {
            assert forall|k: int| 0 <= k < init.len() implies match #[trigger] init[k] {
                Stmt::Instr(i) => jump_label(i) matches Some(l) ==> label_offset(program, l) is Some
                    && label_offset(program, l)->Some_0 <= u32::MAX,
                Stmt::Label(_) => true,
            } by {
                assert(init[k] == ast[k]);
            }
        }
        lemma_disassemble_assembled(init, program);
        let x = assembled(init, program);
        match ast.last() {
            Stmt::Instr(i) => {
                assert(ast[ast.len() - 1] == Stmt::Instr(i));
                lemma_listing_single(i, program);
                lemma_listing_append(x, encode(i, program), 0);
            },
            Stmt::Label(_) => {
                assert(x + Seq::<u8>::empty() =~= x);
                assert(listing(init, program) + Seq::<Seq<char>>::empty() =~= listing(init, program));
            },
        }
    }
}

/// A label names an offset inside the code, or its end.
proof fn lemma_label_offset_bound(ast: Seq<Stmt>, name: Seq<char>)
    requires
        label_offset(ast, name) is Some,
    ensures
        label_offset(ast, name)->Some_0 <= program_len(ast),
    decreases ast.len(),
{
    if ast.len() > 0 {
        match ast.last() {
            Stmt::Label(n) => if n@ != name {
                lemma_label_offset_bound(ast.drop_last(), name);
            },
            _ => lemma_label_offset_bound(ast.drop_last(), name),
        }
    }
}

/// What the assembler writes, the disassembler lists back: one line per
/// instruction, in order, with each jump showing the offset of its label.
pub proof fn law_disassemble_assembled(ast: Seq<Stmt>)
    requires
        labels_defined(ast),
        program_len(ast) <= u32::MAX,
    ensures
        disassembly(assembled(ast, ast)) == Ok::<Seq<char>, DisassemblyError>(
            join_lines(listing(ast, ast)),
        ),
{
    assert forall|k: int| 0 <= k < ast.len() implies match #[trigger] ast[k] {
        Stmt::Instr(i) => jump_label(i) matches Some(l) ==> label_offset(ast, l) is Some
            && label_offset(ast, l)->Some_0 <= u32::MAX,
        Stmt::Label(_) => true,
    } by {
        if let Stmt::Instr(i) = ast[k] {
            if let Some(l) = jump_label(i) {
                lemma_label_offset_bound(ast, l);
            }
        }
    }
    lemma_disassemble_assembled(ast, ast);
}

/// Lines joined after lines are joined with one more line break between.
proof fn lemma_join_append(la: Seq<Seq<char>>, lb: Seq<Seq<char>>)
    requires
        la.len() > 0,
        lb.len() > 0,
    ensures
        join_lines(la + lb) == join_lines(la) + "\n"@ + join_lines(lb),
    decreases lb.len(),
{
    let all = la + lb;
    assert(all.len() >= 2);
    if lb.len() == 1 {
        assert(all.drop_last() =~= la);
        assert(all.last() == lb[0]);
    } else {
        assert(all.drop_last() =~= la + lb.drop_last());
        assert(all.last() == lb.last());
        lemma_join_append(la, lb.drop_last());
        assert(join_lines(lb) == join_lines(lb.drop_last()) + "\n"@ + lb.last());
        assert(join_lines(la) + "\n"@ + join_lines(lb.drop_last()) + "\n"@ + lb.last() =~= join_lines(
            la,
        ) + "\n"@ + (join_lines(lb.drop_last()) + "\n"@ + lb.last()));
    }
}

/// The listing of a code that lists cleanly and is not empty has a line.
proof fn lemma_listing_nonempty(a: Seq<u8>)
    requires
        a.len() > 0,
        listing_from(a, 0) is Ok,
    ensures
        listing_from(a, 0)->Ok_0.len() > 0,
{
    let (line, next) = decode_at(a, 0)->Ok_0;
    reveal_with_fuel(sum_widths, 3);
    assert(next > 0);
}

/// Two codes that each list cleanly list, one after the other, as their two
/// listings joined by a line break.
pub proof fn law_disassemble_concat(a: Seq<u8>, b: Seq<u8>)
    requires
        disassembly(a) is Ok,
        disassembly(b) is Ok,
        a.len() > 0,
        b.len() > 0,
    ensures
        disassembly(a + b) == Ok::<Seq<char>, DisassemblyError>(
            disassembly(a)->Ok_0 + "\n"@ + disassembly(b)->Ok_0,
        ),
{
    lemma_listing_append(a, b, 0);
    lemma_listing_nonempty(a);
    lemma_listing_nonempty(b);
    lemma_join_append(listing_from(a, 0)->Ok_0, listing_from(b, 0)->Ok_0);
}

} // verus!
