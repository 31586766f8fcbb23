//! Turns bytecode back into a textual listing, one instruction per line.
//!
//! Multi-byte operands are read little-endian.
use crate::assembler::error::DisassemblyError;
use crate::opcode::{byte_of, op_name, OpCode};
use vstd::prelude::*;

verus! {

/// The decimal text of one digit.
pub open spec fn digit_text(d: nat) -> Seq<char> {
    if d == 0 {
        "0"@
    } else if d == 1 {
        "1"@
    } else if d == 2 {
        "2"@
    } else if d == 3 {
        "3"@
    } else if d == 4 {
        "4"@
    } else if d == 5 {
        "5"@
    } else if d == 6 {
        "6"@
    } else if d == 7 {
        "7"@
    } else if d == 8 {
        "8"@
    } else {
        "9"@
    }
}

/// The decimal text of a natural number, without leading zeros.
pub open spec fn decimal(n: nat) -> Seq<char>
    decreases n,
{
    if n < 10 {
        digit_text(n)
    } else {
        decimal(n / 10) + digit_text(n % 10)
    }
}

/// The mnemonic of each opcode byte.
pub open spec fn mnemonic(op: u8) -> Seq<char> {
    if op == 0x00 {
        "nop"@
    } else if op == 0x01 {
        "const"@
    } else if op == 0x02 {
        "add"@
    } else if op == 0x03 {
        "sub"@
    } else if op == 0x04 {
        "mul"@
    } else if op == 0x05 {
        "div"@
    } else if op == 0x06 {
        "return"@
    } else if op == 0x07 {
        "neg"@
    } else if op == 0x08 {
        "not"@
    } else if op == 0x09 {
        "eq"@
    } else if op == 0x0A {
        "ne"@
    } else if op == 0x0B {
        "lt"@
    } else if op == 0x0C {
        "le"@
    } else if op == 0x0D {
        "gt"@
    } else if op == 0x0E {
        "ge"@
    } else if op == 0x0F {
        "jmp"@
    } else if op == 0x10 {
        "jmp_if_false"@
    } else if op == 0x11 {
        "jmp_if_true"@
    } else if op == 0x12 {
        "pop"@
    } else if op == 0x13 {
        "dup"@
    } else if op == 0x14 {
        "make_frame"@
    } else if op == 0x15 {
        "get_local"@
    } else if op == 0x16 {
        "set_local"@
    } else if op == 0x17 {
        "call"@
    } else if op == 0x18 {
        "enter_nogc"@
    } else if op == 0x19 {
        "exit_nogc"@
    } else if op == 0x1A {
        "alloc"@
    } else if op == 0x1B {
        "load"@
    } else if op == 0x1C {
        "store"@
    } else if op == 0x1D {
        "loadb"@
    } else {
        "storeb"@
    }
}

/// The disassembler prints each opcode byte under the name of the operation
/// the machine decodes it to.
pub proof fn law_mnemonic_names(op: OpCode)
    ensures
        mnemonic(byte_of(op)) == op_name(op),
{
}

/// The byte widths of each opcode's operands, in order.
pub open spec fn operand_widths(op: u8) -> Seq<nat> {
    if op == 0x01 || op == 0x14 || op == 0x15 || op == 0x16 {
        seq![1nat]
    } else if op == 0x0F || op == 0x10 || op == 0x11 {
        seq![4nat]
    } else if op == 0x17 {
        seq![4nat, 1nat]
    } else if op == 0x1A {
        seq![2nat, 1nat]
    } else {
        seq![]
    }
}

pub open spec fn sum_widths(ws: Seq<nat>) -> nat
    decreases ws.len(),
{
    if ws.len() == 0 {
        0
    } else {
        ws[0] + sum_widths(ws.drop_first())
    }
}

/// The little-endian number held in `width` bytes from `start`.
pub open spec fn le_number(code: Seq<u8>, start: int, width: nat) -> nat
    decreases width,
{
    if width == 0 {
        0
    } else {
        code[start] as nat + 256 * le_number(code, start + 1, (width - 1) as nat)
    }
}

/// An 8-byte little-endian number is its low half plus 2^32 times its high half.
pub proof fn lemma_le_split(b: Seq<u8>, i: int)
    ensures
        le_number(b, i, 8) == le_number(b, i, 4) + 0x1_0000_0000 * le_number(b, i + 4, 4),
{
    reveal_with_fuel(le_number, 9);
}

/// The operands, in decimal, separated by ", ".
pub open spec fn operands_text(code: Seq<u8>, start: int, ws: Seq<nat>) -> Seq<char>
    decreases ws.len(),
{
    if ws.len() == 0 {
        Seq::empty()
    } else if ws.len() == 1 {
        decimal(le_number(code, start, ws[0]))
    } else {
        decimal(le_number(code, start, ws[0])) + ", "@ + operands_text(
            code,
            start + ws[0],
            ws.drop_first(),
        )
    }
}

/// The line for the instruction at `ip`, and the offset of the next one.
pub open spec fn decode_at(code: Seq<u8>, ip: int) -> Result<(Seq<char>, int), DisassemblyError> {
    let op = code[ip];
    let ws = operand_widths(op);
    if op > 0x1E {
        Err(DisassemblyError::UnknownOpcode)
    } else if ip + 1 + sum_widths(ws) > code.len() {
        Err(DisassemblyError::UnexpectedEof)
    } else if ws.len() == 0 {
        Ok((mnemonic(op), ip + 1))
    } else {
        Ok((mnemonic(op) + " "@ + operands_text(code, ip + 1, ws), ip + 1 + sum_widths(ws)))
    }
}

/// The lines for all instructions from `ip` on, or the first error.
pub open spec fn listing_from(code: Seq<u8>, ip: int) -> Result<Seq<Seq<char>>, DisassemblyError>
    decreases code.len() - ip,
{
    if ip < 0 || ip >= code.len() {
        Ok(Seq::empty())
    } else {
        match decode_at(code, ip) {
            Err(e) => Err(e),
            Ok((line, next)) => if next <= ip {
                Ok(Seq::empty())
            } else {
                match listing_from(code, next) {
                    Err(e) => Err(e),
                    Ok(rest) => Ok(seq![line] + rest),
                }
            },
        }
    }
}

/// Lines joined with "\n".
pub open spec fn join_lines(lines: Seq<Seq<char>>) -> Seq<char>
    decreases lines.len(),
{
    if lines.len() == 0 {
        Seq::empty()
    } else if lines.len() == 1 {
        lines[0]
    } else {
        join_lines(lines.drop_last()) + "\n"@ + lines.last()
    }
}

/// The listing of a whole code slice.
pub open spec fn disassembly(code: Seq<u8>) -> Result<Seq<char>, DisassemblyError> {
    match listing_from(code, 0) {
        Ok(lines) => Ok(join_lines(lines)),
        Err(e) => Err(e),
    }
}

/// Disassembles `code` into one line per instruction, joined with "\n".
pub fn disassemble(code: &[u8]) -> (r: Result<String, DisassemblyError>)
    ensures
        match (r, disassembly(code@)) {
            (Ok(s), Ok(t)) => s@ == t,
            (Err(e), Err(f)) => e == f,
            _ => false,
        },
{
    let mut cursor = Cursor::new(code);
    let mut out = String::new();
    let mut first = true;
    let ghost mut done: Seq<Seq<char>> = Seq::empty();
    while !cursor.eof()
        invariant
            cursor.code@ == code@,
            cursor.ip <= code@.len(),
            out@ == join_lines(done),
            first == (done.len() == 0),
            listing_from(code@, 0) == prepend_lines(done, listing_from(code@, cursor.ip as int)),
        decreases code@.len() - cursor.ip,
    {
        let ghost before = cursor.ip as int;
        let instr = decode_instr(&mut cursor)?;
        proof {
            let rest = listing_from(code@, cursor.ip as int);
            assert(listing_from(code@, before) == prepend_lines(seq![instr@], rest));
            lemma_prepend_assoc(done, seq![instr@], rest);
            assert(done + seq![instr@] == done.push(instr@));
        }
        if !first {
            out.append("\n");
        }
        out.append(instr.as_str());
        proof {
            let d2 = done.push(instr@);
            assert(d2.drop_last() == done);
            done = d2;
        }
        first = false;
    }
    proof {
        assert(done + Seq::<Seq<char>>::empty() == done);
    }
    Ok(out)
}

/// `acc` followed by the lines of `rest`, or the error of `rest`.
pub open spec fn prepend_lines(
    acc: Seq<Seq<char>>,
    rest: Result<Seq<Seq<char>>, DisassemblyError>,
) -> Result<Seq<Seq<char>>, DisassemblyError> {
    match rest {
        Ok(l) => Ok(acc + l),
        Err(e) => Err(e),
    }
}

proof fn lemma_prepend_assoc(
    a: Seq<Seq<char>>,
    b: Seq<Seq<char>>,
    rest: Result<Seq<Seq<char>>, DisassemblyError>,
)
    ensures
        prepend_lines(a, prepend_lines(b, rest)) == prepend_lines(a + b, rest),
{
    if let Ok(l) = rest {
        assert(a + (b + l) == (a + b) + l);
    }
}

/// A read position in a code slice.
struct Cursor<'a> {
    code: &'a [u8],
    ip: usize,
}

impl<'a> Cursor<'a> {
    fn new(code: &'a [u8]) -> (r: Self)
        ensures
            r.code@ == code@,
            r.ip == 0,
    {
        Cursor { code, ip: 0 }
    }

    fn read_u8(&mut self) -> (r: Result<u8, DisassemblyError>)
        requires
            old(self).ip <= old(self).code@.len(),
        ensures
            final(self).code == old(self).code,
            match r {
                Ok(b) => old(self).ip < old(self).code@.len()
                    && b == old(self).code@[old(self).ip as int]
                    && final(self).ip == old(self).ip + 1,
                Err(e) => old(self).ip >= old(self).code@.len() && e
                    == DisassemblyError::UnexpectedEof && final(self).ip == old(self).ip,
            },
    {
        if self.ip >= self.code.len() {
            return Err(DisassemblyError::UnexpectedEof);
        }
        let v = self.code[self.ip];
        self.ip += 1;
        Ok(v)
    }

    fn read_u16(&mut self) -> (r: Result<u16, DisassemblyError>)
        requires
            old(self).ip <= old(self).code@.len(),
        ensures
            final(self).code == old(self).code,
            match r {
                Ok(v) => old(self).ip + 2 <= old(self).code@.len() && v == le_number(
                    old(self).code@,
                    old(self).ip as int,
                    2,
                ) && final(self).ip == old(self).ip + 2,
                Err(e) => old(self).ip + 2 > old(self).code@.len() && e
                    == DisassemblyError::UnexpectedEof && final(self).ip == old(self).ip,
            },
    {
        let bytes = self.read_n(2)?;
        let v = bytes[0] as u16 + (bytes[1] as u16) * 256;
        proof {
            reveal_with_fuel(le_number, 3);
        }
        Ok(v)
    }

    fn read_u32(&mut self) -> (r: Result<u32, DisassemblyError>)
        requires
            old(self).ip <= old(self).code@.len(),
        ensures
            final(self).code == old(self).code,
            match r {
                Ok(v) => old(self).ip + 4 <= old(self).code@.len() && v == le_number(
                    old(self).code@,
                    old(self).ip as int,
                    4,
                ) && final(self).ip == old(self).ip + 4,
                Err(e) => old(self).ip + 4 > old(self).code@.len() && e
                    == DisassemblyError::UnexpectedEof && final(self).ip == old(self).ip,
            },
    {
        let bytes = self.read_n(4)?;
        let v = bytes[0] as u32 + (bytes[1] as u32) * 256 + (bytes[2] as u32) * 0x1_0000 + (
        bytes[3] as u32) * 0x100_0000;
        proof {
            reveal_with_fuel(le_number, 5);
        }
        Ok(v)
    }

    fn read_n(&mut self, n: usize) -> (r: Result<&'a [u8], DisassemblyError>)
        requires
            old(self).ip <= old(self).code@.len(),
            n <= 4,
        ensures
            final(self).code == old(self).code,
            match r {
                Ok(s) => old(self).ip + n <= old(self).code@.len()
                    && s@ == old(self).code@.subrange(old(self).ip as int, old(self).ip + n)
                    && final(self).ip == old(self).ip + n,
                Err(e) => old(self).ip + n > old(self).code@.len() && e
                    == DisassemblyError::UnexpectedEof && final(self).ip == old(self).ip,
            },
    {
        if n > self.code.len() - self.ip {
            return Err(DisassemblyError::UnexpectedEof);
        }
        let slice = &self.code[self.ip..self.ip + n];
        self.ip += n;
        Ok(slice)
    }

    fn eof(&self) -> (r: bool)
        ensures
            r == (self.ip >= self.code@.len()),
    {
        self.ip >= self.code.len()
    }
}

/// How far past the opcode byte the operands of the instruction at `ip` are
/// read before the code runs out: the first of two operands when it fits,
/// otherwise none.
pub open spec fn eof_progress(code: Seq<u8>, ip: int) -> int {
    let ws = operand_widths(code[ip]);
    if ws.len() == 2 && ip + 1 + ws[0] <= code.len() {
        ws[0] as int
    } else {
        0
    }
}

/// Appends the decimal text of `n` to `out`.
fn push_decimal(out: &mut String, n: u32)
    ensures
        final(out)@ == old(out)@ + decimal(n as nat),
    decreases n,
{
    if n >= 10 {
        push_decimal(out, n / 10);
    }
    let d = n % 10;
    if d == 0 {
        out.append("0");
    } else if d == 1 {
        out.append("1");
    } else if d == 2 {
        out.append("2");
    } else if d == 3 {
        out.append("3");
    } else if d == 4 {
        out.append("4");
    } else if d == 5 {
        out.append("5");
    } else if d == 6 {
        out.append("6");
    } else if d == 7 {
        out.append("7");
    } else if d == 8 {
        out.append("8");
    } else {
        out.append("9");
    }
    proof {
        if n >= 10 {
            assert(decimal(n as nat) == decimal((n / 10) as nat) + digit_text((n % 10) as nat));
        }
    }
}

/// `mnemonic` followed by a space and the operands in decimal, separated by ", ".
fn instr_text(mnemonic_text: &str, operands: &[u32]) -> (r: String)
    requires
        operands@.len() >= 1,
    ensures
        r@ == mnemonic_text@ + " "@ + decimals_text(operands@),
{
    let mut s = String::from_str(mnemonic_text);
    s.append(" ");
    let mut i: usize = 0;
    while i < operands.len()
        invariant
            0 <= i <= operands@.len(),
            operands@.len() >= 1,
            s@ == mnemonic_text@ + " "@ + decimals_text(operands@.take(i as int)),
        decreases operands@.len() - i,
    {
        if i > 0 {
            s.append(", ");
        }
        push_decimal(&mut s, operands[i]);
        proof {
            let t = operands@.take(i + 1);
            assert(t.drop_last() == operands@.take(i as int));
        }
        i += 1;
    }
    proof {
        assert(operands@.take(operands@.len() as int) == operands@);
    }
    s
}

/// Decimals separated by ", ".
pub open spec fn decimals_text(ns: Seq<u32>) -> Seq<char>
    decreases ns.len(),
{
    if ns.len() == 0 {
        Seq::empty()
    } else if ns.len() == 1 {
        decimal(ns[0] as nat)
    } else {
        decimals_text(ns.drop_last()) + ", "@ + decimal(ns.last() as nat)
    }
}

proof fn lemma_operands_text(code: Seq<u8>, start: int, ws: Seq<nat>, ns: Seq<u32>)
    requires
        1 <= ws.len() <= 2,
        ns.len() == ws.len(),
        ns[0] == le_number(code, start, ws[0]),
        ws.len() == 2 ==> ns[1] == le_number(code, start + ws[0], ws[1]),
    ensures
        operands_text(code, start, ws) == decimals_text(ns),
{
    if ws.len() == 2 {
        assert(ws.drop_first().len() == 1);
        assert(ns.drop_last().len() == 1);
        assert(ns.drop_last()[0] == ns[0]);
        assert(ws.drop_first()[0] == ws[1]);
        assert(decimals_text(ns.drop_last()) == decimal(ns[0] as nat));
        assert(operands_text(code, start + ws[0], ws.drop_first()) == decimal(ns[1] as nat));
    }
}

fn decode_instr(cur: &mut Cursor) -> (r: Result<String, DisassemblyError>)
    requires
        old(cur).ip < old(cur).code@.len(),
    ensures
        final(cur).code == old(cur).code,
        final(cur).ip <= final(cur).code@.len(),
        match (r, decode_at(old(cur).code@, old(cur).ip as int)) {
            (Ok(s), Ok((line, next))) => s@ == line && final(cur).ip == next
                && next > old(cur).ip,
            (Err(e), Err(f)) => e == f,
            _ => false,
        },
        r == Err::<String, DisassemblyError>(DisassemblyError::UnknownOpcode) ==> final(cur).ip
            == old(cur).ip + 1,
        r == Err::<String, DisassemblyError>(DisassemblyError::UnexpectedEof) ==> final(cur).ip
            == old(cur).ip + 1 + eof_progress(old(cur).code@, old(cur).ip as int),
{
    let ghost code = cur.code@;
    let ghost ip = cur.ip as int;
    proof {
        reveal_with_fuel(sum_widths, 3);
        reveal_with_fuel(le_number, 2);
    }
    let op = cur.read_u8()?;
    let r = match op {
        0x00 => String::from_str("nop"),
        0x01 => {
            let idx = cur.read_u8()?;
            instr_text("const", &[idx as u32])
        },
        0x02 => String::from_str("add"),
        0x03 => String::from_str("sub"),
        0x04 => String::from_str("mul"),
        0x05 => String::from_str("div"),
        0x06 => String::from_str("return"),
        0x07 => String::from_str("neg"),
        0x08 => String::from_str("not"),
        0x09 => String::from_str("eq"),
        0x0A => String::from_str("ne"),
        0x0B => String::from_str("lt"),
        0x0C => String::from_str("le"),
        0x0D => String::from_str("gt"),
        0x0E => String::from_str("ge"),
        0x0F => {
            let addr = cur.read_u32()?;
            instr_text("jmp", &[addr])
        },
        0x10 => {
            let addr = cur.read_u32()?;
            instr_text("jmp_if_false", &[addr])
        },
        0x11 => {
            let addr = cur.read_u32()?;
            instr_text("jmp_if_true", &[addr])
        },
        0x12 => String::from_str("pop"),
        0x13 => String::from_str("dup"),
        0x14 => {
            let n = cur.read_u8()?;
            instr_text("make_frame", &[n as u32])
        },
        0x15 => {
            let n = cur.read_u8()?;
            instr_text("get_local", &[n as u32])
        },
        0x16 => {
            let n = cur.read_u8()?;
            instr_text("set_local", &[n as u32])
        },
        0x17 => {
            let addr = cur.read_u32()?;
            let argc = cur.read_u8()?;
            proof {
                lemma_operands_text(code, ip + 1, seq![4nat, 1nat], seq![addr, argc as u32]);
            }
            instr_text("call", &[addr, argc as u32])
        },
        0x18 => String::from_str("enter_nogc"),
        0x19 => String::from_str("exit_nogc"),
        0x1A => {
            let size = cur.read_u16()?;
            let flag = cur.read_u8()?;
            proof {
                lemma_operands_text(code, ip + 1, seq![2nat, 1nat], seq![size as u32, flag as u32]);
            }
            instr_text("alloc", &[size as u32, flag as u32])
        },
        0x1B => String::from_str("load"),
        0x1C => String::from_str("store"),
        0x1D => String::from_str("loadb"),
        0x1E => String::from_str("storeb"),
        _ => {
            return Err(DisassemblyError::UnknownOpcode);
        },
    };
    Ok(r)
}

} // verus!
