//! The Pillow virtual machine: a stack machine over NaN-boxed values.
//!
//! The machine executes one instruction per `step`. Floating-point work is
//! not done here: an arithmetic or comparison instruction whose operands
//! involve a float pops them and hands them out in a `FloatRequest`; the
//! driver computes the IEEE result and gives it back with `resume_number` or
//! `resume_truth`, which pushes it. Every other rule of the instruction set,
//! integer arithmetic modulo 2^48 included, is decided here.
pub mod call_frame;
pub mod error;

use crate::heap::allocator::{fresh_allocation, in_block, load_word, Allocation, Allocator, Block};
use crate::heap::gc::{
    collection_keeps, depth_after_enter, depth_after_exit, no_marks, reachable, Gc, RootTracer,
};
use crate::opcode::{byte_of, OpCode};
use crate::pack::bytecode::Bytecode;
use crate::assembler::disassemble::le_number;
use crate::value::{
    bits_bool, bits_is_bool, bits_is_obj, obj_bits, payload_of, bits_int, bits_is_float, bits_is_int, bits_truthy, bool_bits, canonical_float_bits,
    int_bits, negated_float_bits, Value, CANON_NAN_BITS, QNAN_BASE, SIGN_BIT, is_nan_bits,
    is_quiet_nan_bits, is_tagged_bits, tag_of, PAYLOAD_MASK,
};
use crate::vm::call_frame::CallFrame;
use crate::vm::error::VmError;
use vstd::prelude::*;

verus! {

/// Capacity of the value stack.
pub const STACK_MAX: usize = 1024;

/// Capacity of the call stack.
pub const CALL_STACK_MAX: usize = 128;

/// An operation that needs IEEE 754 arithmetic.
#[derive(Debug, Clone, Copy, PartialEq, Eq, Structural)]
pub enum FloatOp {
    Add,
    Sub,
    Mul,
    Div,
    Lt,
    Le,
    Gt,
    Ge,
    /// Numeric equality of an int and a float.
    Eq,
}

/// Operands popped for a floating-point operation, left operand first.
#[derive(Debug, Clone, Copy, PartialEq, Eq, Structural)]
pub struct FloatRequest {
    pub op: FloatOp,
    pub lhs: Value,
    pub rhs: Value,
}

/// What one step of the machine produced.
#[derive(Debug, Clone, Copy, PartialEq, Eq, Structural)]
pub enum Step {
    /// The instruction completed; step again.
    Continue,
    /// A top-level `Return` produced the program's result.
    Halt(Value),
    /// The operands were popped; the result must be supplied with
    /// `resume_number` (arithmetic) or `resume_truth` (comparisons).
    Float(FloatRequest),
}

/// What the machine waits for before it can step again.
#[derive(Debug, Clone, Copy, PartialEq, Eq, Structural)]
pub enum Awaiting {
    Nothing,
    /// The IEEE bits of an arithmetic result.
    Number,
    /// The truth of a comparison; `negate` for `Ne`.
    Truth { negate: bool },
}

/// The outcome of one step, over value bits.
pub enum Outcome {
    Continue,
    Halt(u64),
    Float(FloatOp, u64, u64),
}

/// The registers and stacks of the machine.
pub struct Machine {
    /// Offset of the next instruction byte.
    pub ip: int,
    /// Base pointer: slot of local 0 in the current frame.
    pub bp: int,
    /// Stack pointer: number of live slots.
    pub sp: int,
    /// All `STACK_MAX` stack slots; those at `sp` and above are dead.
    pub slots: Seq<u64>,
    /// Saved caller frames, innermost last.
    pub frames: Seq<CallFrame>,
    pub awaiting: Awaiting,
}

/// True when `s` is the exec form of `o`.
pub open spec fn step_is(s: Step, o: Outcome) -> bool {
    match (s, o) {
        (Step::Continue, Outcome::Continue) => true,
        (Step::Halt(v), Outcome::Halt(b)) => v@ == b,
        (Step::Float(req), Outcome::Float(op, a, b)) => req.op == op && req.lhs@ == a && req.rhs@
            == b,
        _ => false,
    }
}

pub open spec fn push_spec(m: Machine, v: u64) -> Result<Machine, VmError> {
    if m.sp >= STACK_MAX {
        Err(VmError::StackOverflow)
    } else {
        Ok(Machine { sp: m.sp + 1, slots: m.slots.update(m.sp, v), ..m })
    }
}

pub open spec fn pop_spec(m: Machine) -> Result<(Machine, u64), VmError> {
    if m.sp <= 0 {
        Err(VmError::StackUnderflow)
    } else {
        Ok((Machine { sp: m.sp - 1, ..m }, m.slots[m.sp - 1]))
    }
}

/// Pops the right operand, then the left one.
pub open spec fn pop2_spec(m: Machine) -> Result<(Machine, u64, u64), VmError> {
    match pop_spec(m) {
        Err(e) => Err(e),
        Ok((m1, b)) => match pop_spec(m1) {
            Err(e) => Err(e),
            Ok((m2, a)) => Ok((m2, a, b)),
        },
    }
}

pub open spec fn byte_spec(m: Machine, code: Seq<u8>) -> Result<(Machine, u8), VmError> {
    if m.ip < 0 || m.ip >= code.len() {
        Err(VmError::IpOutOfBounds)
    } else {
        Ok((Machine { ip: m.ip + 1, ..m }, code[m.ip]))
    }
}

/// The big-endian number held in `width` bytes from `start`.
pub open spec fn be_number(code: Seq<u8>, start: int, width: nat) -> nat
    decreases width,
{
    if width == 0 {
        0
    } else {
        be_number(code, start, (width - 1) as nat) * 256 + code[start + width - 1] as nat
    }
}

/// Reads a 4-byte big-endian immediate.
pub open spec fn u32_spec(m: Machine, code: Seq<u8>) -> Result<(Machine, nat), VmError> {
    if m.ip < 0 || m.ip + 4 > code.len() {
        Err(VmError::IpOutOfBounds)
    } else {
        Ok((Machine { ip: m.ip + 4, ..m }, be_number(code, m.ip, 4)))
    }
}

/// Every jump target must be a byte of the code.
pub open spec fn jump_spec(m: Machine, code: Seq<u8>, target: nat) -> Result<Machine, VmError> {
    if target >= code.len() {
        Err(VmError::IpOutOfBounds)
    } else {
        Ok(Machine { ip: target as int, ..m })
    }
}

/// Operands that convert to a number: floats and ints.
pub open spec fn numeric(b: u64) -> bool {
    bits_is_float(b) || bits_is_int(b)
}

/// An int that is not also read as a float.
pub open spec fn plain_int(b: u64) -> bool {
    bits_is_int(b) && !bits_is_float(b)
}

/// Integer arithmetic, before wrapping to 48 bits.
pub open spec fn int_arith(op: FloatOp, a: int, b: int) -> int {
    match op {
        FloatOp::Add => a + b,
        FloatOp::Sub => a - b,
        _ => a * b,
    }
}

pub open spec fn int_compare(op: FloatOp, a: int, b: int) -> bool {
    match op {
        FloatOp::Lt => a < b,
        FloatOp::Le => a <= b,
        FloatOp::Gt => a > b,
        _ => a >= b,
    }
}

/// Equality of two values where it does not need a float comparison:
/// NaN equals nothing, identical bits are equal, an int and a float compare
/// numerically (`None`), and anything else is unequal.
pub open spec fn known_equality(a: u64, b: u64) -> Option<bool> {
    if a == CANON_NAN_BITS {
        Some(false)
    } else if a == b {
        Some(true)
    } else if bits_is_int(a) && bits_is_float(b) {
        None
    } else if bits_is_float(a) && bits_is_int(b) {
        None
    } else {
        Some(false)
    }
}

pub open spec fn continue_with(r: Result<Machine, VmError>) -> Result<(Machine, Outcome), VmError> {
    match r {
        Ok(m) => Ok((m, Outcome::Continue)),
        Err(e) => Err(e),
    }
}

/// `Add`, `Sub` and `Mul`: int with int wraps modulo 2^48; a float on either
/// side asks for IEEE arithmetic; anything else is a type error.
pub open spec fn arith_spec(op: FloatOp, m: Machine) -> Result<(Machine, Outcome), VmError> {
    match pop2_spec(m) {
        Err(e) => Err(e),
        Ok((m1, a, b)) => if bits_is_int(a) && bits_is_int(b) {
            continue_with(push_spec(m1, int_bits(int_arith(op, bits_int(a), bits_int(b)))))
        } else if numeric(a) && numeric(b) {
            Ok((Machine { awaiting: Awaiting::Number, ..m1 }, Outcome::Float(op, a, b)))
        } else {
            Err(VmError::TypeError)
        },
    }
}

/// `Div` always produces a float.
pub open spec fn div_spec(m: Machine) -> Result<(Machine, Outcome), VmError> {
    match pop2_spec(m) {
        Err(e) => Err(e),
        Ok((m1, a, b)) => if numeric(a) && numeric(b) {
            Ok((Machine { awaiting: Awaiting::Number, ..m1 }, Outcome::Float(FloatOp::Div, a, b)))
        } else {
            Err(VmError::TypeError)
        },
    }
}

/// `Neg`: ints negate modulo 2^48, floats flip their sign.
pub open spec fn neg_spec(m: Machine) -> Result<(Machine, Outcome), VmError> {
    match pop_spec(m) {
        Err(e) => Err(e),
        Ok((m1, a)) => if bits_is_int(a) {
            continue_with(push_spec(m1, int_bits(-bits_int(a))))
        } else if bits_is_float(a) {
            continue_with(push_spec(m1, canonical_float_bits(negated_float_bits(a))))
        } else {
            Err(VmError::TypeError)
        },
    }
}

pub open spec fn not_spec(m: Machine) -> Result<(Machine, Outcome), VmError> {
    match pop_spec(m) {
        Err(e) => Err(e),
        Ok((m1, a)) => continue_with(push_spec(m1, bool_bits(!bits_truthy(a)))),
    }
}

/// `Eq` and, with `negate`, `Ne`. Equality is total: it never fails on types.
pub open spec fn eq_spec(m: Machine, negate: bool) -> Result<(Machine, Outcome), VmError> {
    match pop2_spec(m) {
        Err(e) => Err(e),
        Ok((m1, a, b)) => match known_equality(a, b) {
            Some(e) => continue_with(push_spec(m1, bool_bits(e != negate))),
            None => Ok(
                (
                    Machine { awaiting: Awaiting::Truth { negate }, ..m1 },
                    Outcome::Float(FloatOp::Eq, a, b),
                ),
            ),
        },
    }
}

/// `Lt`, `Le`, `Gt`, `Ge`: both operands must be numbers.
pub open spec fn compare_spec(op: FloatOp, m: Machine) -> Result<(Machine, Outcome), VmError> {
    match pop2_spec(m) {
        Err(e) => Err(e),
        Ok((m1, a, b)) => if !(numeric(a) && numeric(b)) {
            Err(VmError::TypeError)
        } else if plain_int(a) && plain_int(b) {
            continue_with(push_spec(m1, bool_bits(int_compare(op, bits_int(a), bits_int(b)))))
        } else {
            Ok(
                (
                    Machine { awaiting: Awaiting::Truth { negate: false }, ..m1 },
                    Outcome::Float(op, a, b),
                ),
            )
        },
    }
}

/// `JmpIfFalse` (`when` false) and `JmpIfTrue` (`when` true).
pub open spec fn cond_jump_spec(m: Machine, code: Seq<u8>, when: bool) -> Result<(Machine, Outcome), VmError> {
    match u32_spec(m, code) {
        Err(e) => Err(e),
        Ok((m1, target)) => match pop_spec(m1) {
            Err(e) => Err(e),
            Ok((m2, c)) => if bits_truthy(c) == when {
                continue_with(jump_spec(m2, code, target))
            } else {
                Ok((m2, Outcome::Continue))
            },
        },
    }
}

/// The stack with `n` nils pushed.
pub open spec fn push_nils(m: Machine, n: nat) -> Result<Machine, VmError> {
    if m.sp + n > STACK_MAX {
        Err(VmError::StackOverflow)
    } else {
        Ok(
            Machine {
                sp: m.sp + n,
                slots: Seq::new(
                    m.slots.len(),
                    |i: int| if m.sp <= i < m.sp + n { QNAN_BASE } else { m.slots[i] },
                ),
                ..m
            },
        )
    }
}

pub open spec fn get_local_spec(m: Machine, code: Seq<u8>) -> Result<(Machine, Outcome), VmError> {
    match byte_spec(m, code) {
        Err(e) => Err(e),
        Ok((m1, slot)) => if m1.bp + slot >= m1.sp {
            Err(VmError::LocalOutOfRange)
        } else {
            continue_with(push_spec(m1, m1.slots[m1.bp + slot]))
        },
    }
}

/// `SetLocal` pops the value and stores it in the slot, which must lie in
/// the frame that is left once the value is popped.
pub open spec fn set_local_spec(m: Machine, code: Seq<u8>) -> Result<(Machine, Outcome), VmError> {
    match byte_spec(m, code) {
        Err(e) => Err(e),
        Ok((m1, slot)) => if m1.bp + slot >= m1.sp - 1 {
            Err(VmError::LocalOutOfRange)
        } else {
            match pop_spec(m1) {
                Err(e) => Err(e),
                Ok((m2, v)) => Ok(
                    (
                        Machine { slots: m2.slots.update(m1.bp + slot, v), ..m2 },
                        Outcome::Continue,
                    ),
                ),
            }
        },
    }
}

/// `Call`: saves the caller's frame; the arguments become the callee's first locals.
pub open spec fn call_spec(m: Machine, code: Seq<u8>) -> Result<(Machine, Outcome), VmError> {
    match u32_spec(m, code) {
        Err(e) => Err(e),
        Ok((m1, target)) => if target >= code.len() {
            Err(VmError::IpOutOfBounds)
        } else {
            match byte_spec(m1, code) {
                Err(e) => Err(e),
                Ok((m2, argc)) => if m2.sp < argc {
                    Err(VmError::StackUnderflow)
                } else if m2.frames.len() >= CALL_STACK_MAX {
                    Err(VmError::CallStackOverflow)
                } else {
                    Ok(
                        (
                            Machine {
                                ip: target as int,
                                bp: m2.sp - argc,
                                frames: m2.frames.push(
                                    CallFrame {
                                        saved_ip: m2.ip as usize,
                                        saved_ip_end: code.len() as usize,
                                        saved_bp: m2.bp as usize,
                                        saved_sp: (m2.sp - argc) as usize,
                                    },
                                ),
                                ..m2
                            },
                            Outcome::Continue,
                        ),
                    )
                },
            }
        },
    }
}

/// `Return`: at top level the program halts with the popped value; otherwise
/// the caller's frame is restored and the value pushed there.
pub open spec fn return_spec(m: Machine) -> Result<(Machine, Outcome), VmError> {
    match pop_spec(m) {
        Err(e) => Err(e),
        Ok((m1, v)) => if m1.frames.len() == 0 {
            Ok((m1, Outcome::Halt(v)))
        } else {
            let f = m1.frames.last();
            continue_with(
                push_spec(
                    Machine {
                        ip: f.saved_ip as int,
                        bp: f.saved_bp as int,
                        sp: f.saved_sp as int,
                        frames: m1.frames.drop_last(),
                        ..m1
                    },
                    v,
                ),
            )
        },
    }
}

/// The effect of every instruction that touches neither heap nor collector;
/// `m` is the machine after the opcode byte was read.
pub open spec fn pure_effect(op: OpCode, m: Machine, code: Seq<u8>, consts: Seq<u64>) -> Result<(Machine, Outcome), VmError> {
    match op {
        OpCode::Nop => Ok((m, Outcome::Continue)),
        OpCode::Const => match byte_spec(m, code) {
            Err(e) => Err(e),
            Ok((m1, idx)) => if idx >= consts.len() {
                Err(VmError::ConstPoolOutOfBounds)
            } else {
                continue_with(push_spec(m1, consts[idx as int]))
            },
        },
        OpCode::Add => arith_spec(FloatOp::Add, m),
        OpCode::Sub => arith_spec(FloatOp::Sub, m),
        OpCode::Mul => arith_spec(FloatOp::Mul, m),
        OpCode::Div => div_spec(m),
        OpCode::Neg => neg_spec(m),
        OpCode::Not => not_spec(m),
        OpCode::Eq => eq_spec(m, false),
        OpCode::Ne => eq_spec(m, true),
        OpCode::Lt => compare_spec(FloatOp::Lt, m),
        OpCode::Le => compare_spec(FloatOp::Le, m),
        OpCode::Gt => compare_spec(FloatOp::Gt, m),
        OpCode::Ge => compare_spec(FloatOp::Ge, m),
        OpCode::Jmp => match u32_spec(m, code) {
            Err(e) => Err(e),
            Ok((m1, target)) => continue_with(jump_spec(m1, code, target)),
        },
        OpCode::JmpIfFalse => cond_jump_spec(m, code, false),
        OpCode::JmpIfTrue => cond_jump_spec(m, code, true),
        OpCode::Pop => match pop_spec(m) {
            Err(e) => Err(e),
            Ok((m1, _)) => Ok((m1, Outcome::Continue)),
        },
        OpCode::Dup => if m.sp <= 0 {
            Err(VmError::StackUnderflow)
        } else {
            continue_with(push_spec(m, m.slots[m.sp - 1]))
        },
        OpCode::MakeFrame => match byte_spec(m, code) {
            Err(e) => Err(e),
            Ok((m1, n)) => continue_with(push_nils(m1, n as nat)),
        },
        OpCode::GetLocal => get_local_spec(m, code),
        OpCode::SetLocal => set_local_spec(m, code),
        OpCode::Call => call_spec(m, code),
        OpCode::Return => return_spec(m),
        _ => Err(VmError::TypeError),
    }
}

/// Instructions whose whole effect `pure_effect` describes.
pub open spec fn is_pure(op: OpCode) -> bool {
    !(op is EnterNoGc || op is ExitNoGc || op is Alloc || op is Load || op is Store
        || op is LoadB || op is StoreB)
}

/// Reads and decodes the opcode byte at `ip`.
pub open spec fn decode_spec(m: Machine, code: Seq<u8>) -> Result<(Machine, OpCode), VmError> {
    match byte_spec(m, code) {
        Err(e) => Err(e),
        Ok((m1, b)) => if b > 0x1E {
            Err(VmError::UnknownOpcode(b))
        } else {
            Ok((m1, choose|op: OpCode| byte_of(op) == b))
        },
    }
}

/// `r` and `post` are what `e` prescribes.
pub open spec fn effect_holds(
    e: Result<(Machine, Outcome), VmError>,
    post: Machine,
    r: Result<Step, VmError>,
) -> bool {
    match e {
        Ok((m, o)) => r matches Ok(s) && step_is(s, o) && post == m,
        Err(err) => r == Err::<Step, VmError>(err),
    }
}

/// Equality where it needs no float comparison; `None` for an int against a
/// float, which compare numerically.
pub fn values_equal(a: Value, b: Value) -> (r: Option<bool>)
    ensures
        r == known_equality(a@, b@),
{
    // NaN is never equal to anything, itself included.
    if a.to_bits() == CANON_NAN_BITS {
        return Some(false);
    }
    // Identical bits: nil, bool, int, float and object values alike.
    if a.to_bits() == b.to_bits() {
        return Some(true);
    }
    if a.is_int() && b.is_float() {
        return None;
    }
    if a.is_float() && b.is_int() {
        return None;
    }
    Some(false)
}

proof fn lemma_int_range(b: u64)
    ensures
        -0x8000_0000_0000 <= bits_int(b) < 0x8000_0000_0000,
{
}

proof fn lemma_wrapped_product(k: int, w: int)
    requires
        w == k % 0x1_0000_0000_0000_0000 || w == k % 0x1_0000_0000_0000_0000
            - 0x1_0000_0000_0000_0000,
    ensures
        w % 0x1_0000_0000_0000 == k % 0x1_0000_0000_0000,
{
    vstd::arithmetic::div_mod::lemma_mod_mod(k, 0x1_0000_0000_0000, 0x1_0000);
    vstd::arithmetic::div_mod::lemma_mod_sub_multiples_vanish(
        k % 0x1_0000_0000_0000_0000,
        0x1_0000_0000_0000_0000,
    );
    assert(0x1_0000_0000_0000_0000 == 0x1_0000_0000_0000 * 0x1_0000int);
    vstd::arithmetic::div_mod::lemma_mod_multiples_vanish(
        -1,
        k % 0x1_0000_0000_0000_0000,
        0x1_0000_0000_0000,
    );
    assert(w % 0x1_0000_0000_0000 == (k % 0x1_0000_0000_0000_0000) % 0x1_0000_0000_0000) by {
        if w != k % 0x1_0000_0000_0000_0000 {
            vstd::arithmetic::div_mod::lemma_mod_multiples_vanish(
                -0x1_0000,
                k % 0x1_0000_0000_0000_0000,
                0x1_0000_0000_0000,
            );
        }
    }
}


/// The location an object operand names: a type error for non-objects, a
/// segfault for the null location.
pub open spec fn obj_ptr_spec(v: u64) -> Result<usize, VmError> {
    if !bits_is_obj(v) {
        Err(VmError::TypeError)
    } else if payload_of(v) == 0 {
        Err(VmError::Segfault)
    } else {
        Ok(payload_of(v) as usize)
    }
}

/// The byte offset an int operand names, reinterpreted as unsigned.
pub open spec fn offset_spec(v: u64) -> Result<usize, VmError> {
    if !bits_is_int(v) {
        Err(VmError::TypeError)
    } else {
        Ok(bits_int(v) as usize)
    }
}

/// The little-endian bytes of a 64-bit word.
pub open spec fn u64_le_bytes(v: u64) -> Seq<u8> {
    seq![
        (v % 0x100) as u8,
        (v / 0x100 % 0x100) as u8,
        (v / 0x1_0000 % 0x100) as u8,
        (v / 0x100_0000 % 0x100) as u8,
        (v / 0x1_0000_0000 % 0x100) as u8,
        (v / 0x100_0000_0000 % 0x100) as u8,
        (v / 0x1_0000_0000_0000 % 0x100) as u8,
        (v / 0x100_0000_0000_0000 % 0x100) as u8,
    ]
}

/// `bytes` with the bytes from `o` on replaced by `w`.
pub open spec fn splice(bytes: Seq<u8>, o: int, w: Seq<u8>) -> Seq<u8> {
    Seq::new(bytes.len(), |i: int| if o <= i < o + w.len() { w[i - o] } else { bytes[i] })
}

/// The low byte of a two's complement integer.
pub open spec fn low_byte(i: int) -> u8 {
    (i % 256) as u8
}

/// Pops the offset and the object of `Load`/`LoadB` and checks them.
pub open spec fn load_target(m: Machine) -> Result<(Machine, usize, usize), VmError> {
    match pop2_spec(m) {
        Err(e) => Err(e),
        Ok((m1, obj, off)) => match obj_ptr_spec(obj) {
            Err(e) => Err(e),
            Ok(p) => match offset_spec(off) {
                Err(e) => Err(e),
                Ok(o) => Ok((m1, p, o)),
            },
        },
    }
}

/// Pops the value, the offset and the object of `Store`/`StoreB` and checks
/// the object and the offset.
pub open spec fn store_target(m: Machine) -> Result<(Machine, usize, usize, u64), VmError> {
    match pop_spec(m) {
        Err(e) => Err(e),
        Ok((m1, v)) => match load_target(m1) {
            Err(e) => Err(e),
            Ok((m2, p, o)) => Ok((m2, p, o, v)),
        },
    }
}

/// `Load` pushes the 8-byte little-endian word at the offset.
pub open spec fn load_spec(m: Machine, blocks: Map<usize, Block>) -> Result<(Machine, Outcome), VmError> {
    match load_target(m) {
        Err(e) => Err(e),
        Ok((m1, p, o)) => if !in_block(blocks, p, o as int, 8) {
            Err(VmError::Segfault)
        } else {
            continue_with(push_spec(m1, le_number(blocks[p].bytes, o as int, 8) as u64))
        },
    }
}

/// `LoadB` pushes the byte at the offset as an int.
pub open spec fn load_byte_spec(m: Machine, blocks: Map<usize, Block>) -> Result<(Machine, Outcome), VmError> {
    match load_target(m) {
        Err(e) => Err(e),
        Ok((m1, p, o)) => if !in_block(blocks, p, o as int, 1) {
            Err(VmError::Segfault)
        } else {
            continue_with(push_spec(m1, int_bits(blocks[p].bytes[o as int] as int)))
        },
    }
}

/// The allocations after `Store`, or its error.
pub open spec fn store_spec(m: Machine, blocks: Map<usize, Block>) -> Result<(Machine, Map<usize, Block>), VmError> {
    match store_target(m) {
        Err(e) => Err(e),
        Ok((m1, p, o, v)) => if !in_block(blocks, p, o as int, 8) {
            Err(VmError::Segfault)
        } else {
            Ok(
                (
                    m1,
                    blocks.insert(
                        p,
                        Block {
                            bytes: splice(blocks[p].bytes, o as int, u64_le_bytes(v)),
                            ..blocks[p]
                        },
                    ),
                ),
            )
        },
    }
}

/// The allocations after `StoreB`, or its error; the value must be an int.
pub open spec fn store_byte_spec(m: Machine, blocks: Map<usize, Block>) -> Result<(Machine, Map<usize, Block>), VmError> {
    match store_target(m) {
        Err(e) => Err(e),
        Ok((m1, p, o, v)) => if !bits_is_int(v) {
            Err(VmError::TypeError)
        } else if !in_block(blocks, p, o as int, 1) {
            Err(VmError::Segfault)
        } else {
            Ok(
                (
                    m1,
                    blocks.insert(
                        p,
                        Block {
                            bytes: blocks[p].bytes.update(o as int, low_byte(bits_int(v))),
                            ..blocks[p]
                        },
                    ),
                ),
            )
        },
    }
}

/// Reads the operands of `Alloc`: a 2-byte big-endian size and a flag byte.
pub open spec fn alloc_operands(m: Machine, code: Seq<u8>) -> Result<(Machine, usize, bool), VmError> {
    if m.ip < 0 || m.ip + 3 > code.len() {
        Err(VmError::IpOutOfBounds)
    } else {
        Ok((Machine { ip: m.ip + 3, ..m }, be_number(code, m.ip, 2) as usize, code[m.ip + 2] != 0))
    }
}

/// The allocations after the optional collection that precedes an allocation.
/// The collector gets the objects on the live stack as its roots: starting
/// between collections, everything they reach survives, and no mark is left.
pub open spec fn collected_into(
    before: Map<usize, Block>,
    mid: Map<usize, Block>,
    collects: bool,
    roots: Seq<usize>,
) -> bool {
    if collects {
        &&& collection_keeps(before, mid)
        &&& no_marks(before) ==> no_marks(mid)
        &&& no_marks(before) ==> forall|q: usize|
            #[trigger] reachable(before, roots, q) ==> mid.contains_key(q)
    } else {
        mid == before
    }
}

/// `Alloc` after its operands: an optional collection (when the collector asks
/// for one), then the allocation, whose object is pushed.
pub open spec fn alloc_effect(
    m: Machine,
    before: Map<usize, Block>,
    wants_collection: bool,
    size: usize,
    contains_values: bool,
    after: Map<usize, Block>,
    post: Machine,
    r: Result<Step, VmError>,
) -> bool {
    exists|mid: Map<usize, Block>|
        {
            &&& #[trigger] collected_into(before, mid, wants_collection, obj_roots(m.slots, m.sp))
            &&& match r {
                Ok(s) => s == Step::Continue && exists|a: Allocation|
                    #[trigger] fresh_allocation(mid, after, a, size, contains_values) && push_spec(
                        m,
                        obj_bits(a.ptr as int),
                    ) == Ok::<Machine, VmError>(post),
                Err(VmError::OutOfMemory) => after == mid,
                Err(VmError::StackOverflow) => m.sp >= STACK_MAX && exists|a: Allocation|
                    #[trigger] fresh_allocation(mid, after, a, size, contains_values),
                Err(_) => false,
            }
        }
}

/// The live object locations among the first `n` stack slots, bottom first.
pub open spec fn obj_roots(slots: Seq<u64>, n: int) -> Seq<usize>
    decreases n,
{
    if n <= 0 {
        Seq::empty()
    } else {
        let rest = obj_roots(slots, n - 1);
        let v = slots[n - 1];
        if bits_is_obj(v) && payload_of(v) != 0 {
            rest.push(payload_of(v) as usize)
        } else {
            rest
        }
    }
}

/// The value stack, seen by a collector as its root set.
pub struct VmRootTracer<'a> {
    pub stack: &'a [Value],
    pub sp: usize,
}

impl<'a> RootTracer for VmRootTracer<'a> {
    open spec fn roots(&self) -> Seq<usize> {
        obj_roots(
            slot_bits(self.stack@),
            if self.sp < self.stack@.len() {
                self.sp as int
            } else {
                self.stack@.len() as int
            },
        )
    }

    /// Walks the live part of the value stack and reports every value that
    /// holds a heap location.
    fn trace_roots(&self) -> (r: Vec<usize>) {
        let mut out: Vec<usize> = Vec::new();
        let mut i: usize = 0;
        while i < self.sp && i < self.stack.len()
            invariant
                i <= self.stack@.len(),
                i <= self.sp,
                out@ == obj_roots(slot_bits(self.stack@), i as int),
            decreases self.stack@.len() - i,
        {
            let val = self.stack[i];
            if let Some(raw) = val.as_obj() {
                if raw != 0 {
                    out.push(raw as usize);
                }
            }
            i += 1;
        }
        out
    }
}

/// `r` and the machine after it are what the instruction at `pre.ip` prescribes.
pub open spec fn instruction_effect<A: Allocator, G: Gc<A>>(
    op: OpCode,
    m: Machine,
    code: Seq<u8>,
    consts: Seq<u64>,
    pre_heap: A,
    pre_gc: G,
    post: Machine,
    post_heap: A,
    post_gc: G,
    r: Result<Step, VmError>,
) -> bool {
    if is_pure(op) {
        &&& effect_holds(pure_effect(op, m, code, consts), post, r)
        &&& post_heap == pre_heap
        &&& post_gc == pre_gc
    } else if op is EnterNoGc || op is ExitNoGc {
        &&& r == Ok::<Step, VmError>(Step::Continue)
        &&& post == m
        &&& post_heap == pre_heap
        &&& op is EnterNoGc ==> post_gc.nogc_depth() == depth_after_enter(pre_gc.nogc_depth())
        &&& op is ExitNoGc ==> post_gc.nogc_depth() == depth_after_exit(pre_gc.nogc_depth())
    } else if op is Load || op is LoadB {
        &&& effect_holds(
            if op is Load {
                load_spec(m, pre_heap.blocks())
            } else {
                load_byte_spec(m, pre_heap.blocks())
            },
            post,
            r,
        )
        &&& post_heap == pre_heap
        &&& post_gc == pre_gc
    } else if op is Store || op is StoreB {
        &&& post_gc == pre_gc
        &&& match (if op is Store {
            store_spec(m, pre_heap.blocks())
        } else {
            store_byte_spec(m, pre_heap.blocks())
        }) {
            Ok((m1, blocks)) => r == Ok::<Step, VmError>(Step::Continue) && post == m1
                && post_heap.blocks() == blocks,
            Err(e) => r == Err::<Step, VmError>(e),
        }
    } else {
        match alloc_operands(m, code) {
            Err(e) => r == Err::<Step, VmError>(e),
            Ok((m1, size, flag)) => {
                &&& post_gc.nogc_depth() == pre_gc.nogc_depth()
                &&& alloc_effect(
                    m1,
                    pre_heap.blocks(),
                    pre_gc.wants_collection(&pre_heap),
                    size,
                    flag,
                    post_heap.blocks(),
                    post,
                    r,
                )
            },
        }
    }
}


/// A `SetLocal` followed by a `GetLocal` of the same slot pushes the value
/// that `SetLocal` stored, whenever that slot lies below the stored value.
/// `m` is the machine just after the `SetLocal` opcode byte.
pub proof fn law_set_then_get_local(m: Machine, code: Seq<u8>)
    requires
        0 <= m.ip < code.len(),
        m.bp + code[m.ip] < m.sp - 1,
        m.sp <= STACK_MAX,
        m.slots.len() == STACK_MAX,
        m.bp >= 0,
        set_local_spec(m, code) is Ok,
        ({
            let m2 = set_local_spec(m, code)->Ok_0.0;
            0 <= m2.ip && m2.ip + 1 < code.len() && code[m2.ip + 1] == code[m.ip]
        }),
    ensures
        ({
            let m2 = set_local_spec(m, code)->Ok_0.0;
            let m3 = Machine { ip: m2.ip + 1, ..m2 };
            &&& get_local_spec(m3, code) is Ok
            &&& get_local_spec(m3, code)->Ok_0.0.sp == m.sp
            &&& get_local_spec(m3, code)->Ok_0.0.slots[m.sp - 1] == m.slots[m.sp - 1]
        }),
{
}

/// A `Call` and the `Return` that pops its frame give the caller back its
/// registers: execution resumes after the call's operands, the base pointer
/// is the caller's, and the stack is the caller's with the arguments
/// replaced by the returned value.
pub proof fn law_call_then_return(m: Machine, code: Seq<u8>, callee: Machine)
    requires
        code.len() <= usize::MAX,
        0 <= m.bp <= STACK_MAX,
        0 <= m.sp <= STACK_MAX,
        call_spec(m, code) is Ok,
        callee.frames == call_spec(m, code)->Ok_0.0.frames,
        callee.slots.len() == STACK_MAX,
        callee.sp <= STACK_MAX,
        return_spec(callee) is Ok,
    ensures
        ({
            let m1 = call_spec(m, code)->Ok_0.0;
            let r = return_spec(callee)->Ok_0.0;
            &&& return_spec(callee)->Ok_0.1 is Continue
            &&& r.ip == m.ip + 5
            &&& r.bp == m.bp
            &&& r.frames == m.frames
            &&& r.sp == m1.bp + 1
            &&& r.slots[r.sp - 1] == callee.slots[callee.sp - 1]
        }),
{
    let m1 = call_spec(m, code)->Ok_0.0;
    assert(m1.frames.drop_last() =~= m.frames);
}

/// Writing a word and reading it back at the same offset gives the word.
pub proof fn law_word_roundtrip(bytes: Seq<u8>, o: int, v: u64)
    requires
        0 <= o,
        o + 8 <= bytes.len(),
    ensures
        le_number(splice(bytes, o, u64_le_bytes(v)), o, 8) == v,
        splice(bytes, o, u64_le_bytes(v)).len() == bytes.len(),
        forall|i: int|
            0 <= i < bytes.len() && !(o <= i < o + 8) ==> #[trigger] splice(
                bytes,
                o,
                u64_le_bytes(v),
            )[i] == bytes[i],
{
    let w = splice(bytes, o, u64_le_bytes(v));
    reveal_with_fuel(le_number, 9);
    assert(w[o] == (v % 0x100) as u8);
    assert(w[o + 1] == (v / 0x100 % 0x100) as u8);
    assert(w[o + 2] == (v / 0x1_0000 % 0x100) as u8);
    assert(w[o + 3] == (v / 0x100_0000 % 0x100) as u8);
    assert(w[o + 4] == (v / 0x1_0000_0000 % 0x100) as u8);
    assert(w[o + 5] == (v / 0x100_0000_0000 % 0x100) as u8);
    assert(w[o + 6] == (v / 0x1_0000_0000_0000 % 0x100) as u8);
    assert(w[o + 7] == (v / 0x100_0000_0000_0000 % 0x100) as u8);
    assert(v % 0x100 + 0x100 * (v / 0x100 % 0x100 + 0x100 * (v / 0x1_0000 % 0x100 + 0x100 * (v
        / 0x100_0000 % 0x100 + 0x100 * (v / 0x1_0000_0000 % 0x100 + 0x100 * (v / 0x100_0000_0000
        % 0x100 + 0x100 * (v / 0x1_0000_0000_0000 % 0x100 + 0x100 * (v / 0x100_0000_0000_0000
        % 0x100))))))) == v) by (bit_vector);
}

/// `Store` then `Load` through the same object and offset pushes the stored
/// value: a read gives back what a write wrote.
pub proof fn law_store_then_load(m: Machine, n: Machine, blocks: Map<usize, Block>)
    requires
        store_spec(m, blocks) is Ok,
        load_target(n) is Ok,
        load_target(n)->Ok_0.1 == store_target(m)->Ok_0.1,
        load_target(n)->Ok_0.2 == store_target(m)->Ok_0.2,
        blocks[store_target(m)->Ok_0.1].bytes.len() == blocks[store_target(m)->Ok_0.1].size,
        load_target(n)->Ok_0.0.sp < STACK_MAX,
    ensures
        ({
            let n1 = load_target(n)->Ok_0.0;
            let v = store_target(m)->Ok_0.3;
            load_spec(n, store_spec(m, blocks)->Ok_0.1) == Ok::<(Machine, Outcome), VmError>(
                (
                    Machine { sp: n1.sp + 1, slots: n1.slots.update(n1.sp, v), ..n1 },
                    Outcome::Continue,
                ),
            )
        }),
{
    let (m1, p, o, v) = store_target(m)->Ok_0;
    law_word_roundtrip(blocks[p].bytes, o as int, v);
}

/// `StoreB` then `LoadB` through the same object and offset pushes the low
/// byte of the stored int.
pub proof fn law_store_byte_then_load_byte(m: Machine, n: Machine, blocks: Map<usize, Block>)
    requires
        store_byte_spec(m, blocks) is Ok,
        load_target(n) is Ok,
        load_target(n)->Ok_0.1 == store_target(m)->Ok_0.1,
        load_target(n)->Ok_0.2 == store_target(m)->Ok_0.2,
        blocks[store_target(m)->Ok_0.1].bytes.len() == blocks[store_target(m)->Ok_0.1].size,
        load_target(n)->Ok_0.0.sp < STACK_MAX,
    ensures
        ({
            let n1 = load_target(n)->Ok_0.0;
            let v = store_target(m)->Ok_0.3;
            load_byte_spec(n, store_byte_spec(m, blocks)->Ok_0.1) == Ok::<(Machine, Outcome), VmError>(
                (
                    Machine {
                        sp: n1.sp + 1,
                        slots: n1.slots.update(n1.sp, int_bits(low_byte(bits_int(v)) as int)),
                        ..n1
                    },
                    Outcome::Continue,
                ),
            )
        }),
{
}

/// `Ne` answers the negation of `Eq` on every pair of operands, and every
/// value other than the canonical NaN equals itself.
pub proof fn law_ne_negates_eq(m: Machine, a: u64)
    ensures
        match pop2_spec(m) {
            Err(e) => eq_spec(m, false) == Err::<(Machine, Outcome), VmError>(e) && eq_spec(m, true)
                == Err::<(Machine, Outcome), VmError>(e),
            Ok((m1, x, y)) => match known_equality(x, y) {
                Some(e) => eq_spec(m, false) == continue_with(push_spec(m1, bool_bits(e)))
                    && eq_spec(m, true) == continue_with(push_spec(m1, bool_bits(!e))),
                None => eq_spec(m, false)->Ok_0.1 == eq_spec(m, true)->Ok_0.1,
            },
        },
        known_equality(a, a) == Some(a != CANON_NAN_BITS),
{
}

/// The machine with the top two slots replaced by one holding `v`.
pub open spec fn replace_two(m: Machine, v: u64) -> Machine {
    Machine { sp: m.sp - 1, slots: m.slots.update(m.sp - 2, v), ..m }
}

/// The machine with the top slot replaced by `v`.
pub open spec fn replace_top(m: Machine, v: u64) -> Machine {
    Machine { slots: m.slots.update(m.sp - 1, v), ..m }
}

/// An int whose bits carry no sign: its bits are the int tag over its payload.
proof fn lemma_plain_int_bits(a: u64)
    requires
        plain_int(a),
    ensures
        a == 0x7FFA_0000_0000_0000u64 + payload_of(a),
        payload_of(a) < 0x1_0000_0000_0000,
{
    assert(a / 0x8_0000_0000_0000 == 0xFFF && (a / 0x1_0000_0000_0000) % 8 == 2 ==> a
        == 0x7FFA_0000_0000_0000u64 + a % 0x1_0000_0000_0000) by (bit_vector);
}

/// On two ints the comparisons answer as the integers compare and `Eq` and
/// `Ne` as they are equal or not; the answer, a bool, replaces both
/// operands, the left one being the deeper.
pub proof fn law_int_comparisons(m: Machine, code: Seq<u8>, consts: Seq<u64>)
    requires
        2 <= m.sp <= STACK_MAX,
        m.sp <= m.slots.len(),
        plain_int(m.slots[m.sp - 2]),
        plain_int(m.slots[m.sp - 1]),
    ensures
        ({
            let a = bits_int(m.slots[m.sp - 2]);
            let b = bits_int(m.slots[m.sp - 1]);
            &&& pure_effect(OpCode::Lt, m, code, consts) == Ok::<(Machine, Outcome), VmError>(
                (replace_two(m, bool_bits(a < b)), Outcome::Continue),
            )
            &&& pure_effect(OpCode::Le, m, code, consts) == Ok::<(Machine, Outcome), VmError>(
                (replace_two(m, bool_bits(a <= b)), Outcome::Continue),
            )
            &&& pure_effect(OpCode::Gt, m, code, consts) == Ok::<(Machine, Outcome), VmError>(
                (replace_two(m, bool_bits(a > b)), Outcome::Continue),
            )
            &&& pure_effect(OpCode::Ge, m, code, consts) == Ok::<(Machine, Outcome), VmError>(
                (replace_two(m, bool_bits(a >= b)), Outcome::Continue),
            )
            &&& pure_effect(OpCode::Eq, m, code, consts) == Ok::<(Machine, Outcome), VmError>(
                (replace_two(m, bool_bits(a == b)), Outcome::Continue),
            )
            &&& pure_effect(OpCode::Ne, m, code, consts) == Ok::<(Machine, Outcome), VmError>(
                (replace_two(m, bool_bits(a != b)), Outcome::Continue),
            )
        }),
{
    let x = m.slots[m.sp - 2];
    let y = m.slots[m.sp - 1];
    lemma_plain_int_bits(x);
    lemma_plain_int_bits(y);
    assert(x != CANON_NAN_BITS);
    assert((x == y) == (bits_int(x) == bits_int(y)));
    let m1 = Machine { sp: m.sp - 2, ..m };
    assert(replace_two(m, 0) == Machine { sp: m1.sp + 1, slots: m1.slots.update(m1.sp, 0), ..m1 });
}

/// When a float takes part, a comparison hands both operands, the left one
/// first, to the caller for the comparison it names.
pub proof fn law_float_comparisons(m: Machine, code: Seq<u8>, consts: Seq<u64>)
    requires
        2 <= m.sp <= STACK_MAX,
        m.sp <= m.slots.len(),
        numeric(m.slots[m.sp - 2]),
        numeric(m.slots[m.sp - 1]),
        !(plain_int(m.slots[m.sp - 2]) && plain_int(m.slots[m.sp - 1])),
    ensures
        ({
            let a = m.slots[m.sp - 2];
            let b = m.slots[m.sp - 1];
            let w = Machine { sp: m.sp - 2, awaiting: Awaiting::Truth { negate: false }, ..m };
            &&& pure_effect(OpCode::Lt, m, code, consts) == Ok::<(Machine, Outcome), VmError>(
                (w, Outcome::Float(FloatOp::Lt, a, b)),
            )
            &&& pure_effect(OpCode::Le, m, code, consts) == Ok::<(Machine, Outcome), VmError>(
                (w, Outcome::Float(FloatOp::Le, a, b)),
            )
            &&& pure_effect(OpCode::Gt, m, code, consts) == Ok::<(Machine, Outcome), VmError>(
                (w, Outcome::Float(FloatOp::Gt, a, b)),
            )
            &&& pure_effect(OpCode::Ge, m, code, consts) == Ok::<(Machine, Outcome), VmError>(
                (w, Outcome::Float(FloatOp::Ge, a, b)),
            )
        }),
{
}

/// On two ints `Add`, `Sub` and `Mul` push the sum, difference and product
/// (left operand first) wrapped to 48 bits in place of the operands; `Div`
/// always hands its operands to the caller.
pub proof fn law_int_arithmetic(m: Machine, code: Seq<u8>, consts: Seq<u64>)
    requires
        2 <= m.sp <= STACK_MAX,
        m.sp <= m.slots.len(),
        bits_is_int(m.slots[m.sp - 2]),
        bits_is_int(m.slots[m.sp - 1]),
    ensures
        ({
            let x = m.slots[m.sp - 2];
            let y = m.slots[m.sp - 1];
            let a = bits_int(x);
            let b = bits_int(y);
            &&& pure_effect(OpCode::Add, m, code, consts) == Ok::<(Machine, Outcome), VmError>(
                (replace_two(m, int_bits(a + b)), Outcome::Continue),
            )
            &&& pure_effect(OpCode::Sub, m, code, consts) == Ok::<(Machine, Outcome), VmError>(
                (replace_two(m, int_bits(a - b)), Outcome::Continue),
            )
            &&& pure_effect(OpCode::Mul, m, code, consts) == Ok::<(Machine, Outcome), VmError>(
                (replace_two(m, int_bits(a * b)), Outcome::Continue),
            )
            &&& pure_effect(OpCode::Div, m, code, consts) == Ok::<(Machine, Outcome), VmError>(
                (
                    Machine { sp: m.sp - 2, awaiting: Awaiting::Number, ..m },
                    Outcome::Float(FloatOp::Div, x, y),
                ),
            )
        }),
{
    let m1 = Machine { sp: m.sp - 2, ..m };
    assert(replace_two(m, 0) == Machine { sp: m1.sp + 1, slots: m1.slots.update(m1.sp, 0), ..m1 });
    assert(numeric(m.slots[m.sp - 2]) && numeric(m.slots[m.sp - 1]));
}

/// Negating a NaN gives the canonical NaN; any other bit pattern keeps its
/// magnitude bits and has its sign bit flipped.
proof fn lemma_negated_bits(a: u64)
    ensures
        is_nan_bits(negated_float_bits(a)) == is_nan_bits(a),
        negated_float_bits(a) % 0x8000_0000_0000_0000 == a % 0x8000_0000_0000_0000,
        (negated_float_bits(a) >= 0x8000_0000_0000_0000) != (a >= 0x8000_0000_0000_0000),
{
    let c = negated_float_bits(a);
    assert(c == (if a >= 0x8000_0000_0000_0000u64 {
        (a - 0x8000_0000_0000_0000u64) as u64
    } else {
        (a + 0x8000_0000_0000_0000u64) as u64
    }));
    assert((c / 0x10_0000_0000_0000 % 0x800 == 0x7FF && c % 0x10_0000_0000_0000 != 0) == (a
        / 0x10_0000_0000_0000 % 0x800 == 0x7FF && a % 0x10_0000_0000_0000 != 0)) by (bit_vector)
        requires
            c == (if a >= 0x8000_0000_0000_0000u64 {
                (a - 0x8000_0000_0000_0000u64) as u64
            } else {
                (a + 0x8000_0000_0000_0000u64) as u64
            }),
    ;
}

/// `Neg` negates an int modulo 2^48. On a float it flips the sign bit and
/// keeps every other bit, so negating twice gives the float back; a NaN
/// becomes the canonical NaN.
pub proof fn law_neg(m: Machine, code: Seq<u8>, consts: Seq<u64>)
    requires
        1 <= m.sp <= STACK_MAX,
        m.sp <= m.slots.len(),
    ensures
        ({
            let x = m.slots[m.sp - 1];
            let r = pure_effect(OpCode::Neg, m, code, consts);
            &&& bits_is_int(x) ==> r == Ok::<(Machine, Outcome), VmError>(
                (replace_top(m, int_bits(-bits_int(x))), Outcome::Continue),
            )
            &&& bits_is_float(x) && !bits_is_int(x) ==> {
                &&& r is Ok
                &&& r->Ok_0.1 == Outcome::Continue
                &&& r->Ok_0.0 == replace_top(m, r->Ok_0.0.slots[m.sp - 1])
                &&& is_nan_bits(x) ==> r->Ok_0.0.slots[m.sp - 1] == CANON_NAN_BITS
                &&& !is_nan_bits(x) ==> {
                    let c = r->Ok_0.0.slots[m.sp - 1];
                    &&& c % 0x8000_0000_0000_0000 == x % 0x8000_0000_0000_0000
                    &&& (c >= 0x8000_0000_0000_0000) != (x >= 0x8000_0000_0000_0000)
                    &&& !is_nan_bits(c)
                    &&& negated_float_bits(c) == x
                }
            }
        }),
{
    let x = m.slots[m.sp - 1];
    lemma_negated_bits(x);
    let c = negated_float_bits(x);
    lemma_negated_bits(c);
    let m1 = Machine { sp: m.sp - 1, ..m };
    assert(replace_top(m, 0) == Machine { sp: m1.sp + 1, slots: m1.slots.update(m1.sp, 0), ..m1 });
}

/// `Not` always produces a bool: the negation of its operand's truthiness.
pub proof fn law_not_gives_bool(m: Machine)
    requires
        not_spec(m) is Ok,
        m.slots.len() == STACK_MAX,
        m.sp <= STACK_MAX,
    ensures
        ({
            let r = not_spec(m)->Ok_0.0;
            &&& bits_is_bool(r.slots[r.sp - 1])
            &&& bits_bool(r.slots[r.sp - 1]) == !bits_truthy(m.slots[m.sp - 1])
        }),
{
    crate::value::law_bool_roundtrip(!bits_truthy(m.slots[m.sp - 1]));
}

/// A jump that succeeds lands on a byte of the code.
pub proof fn law_jump_in_code(m: Machine, code: Seq<u8>, target: nat)
    requires
        jump_spec(m, code, target) is Ok,
    ensures
        0 <= jump_spec(m, code, target)->Ok_0.ip < code.len(),
{
}

proof fn lemma_alloc_effect_of<A: Allocator, G: Gc<A>>(
    m: Machine,
    code: Seq<u8>,
    consts: Seq<u64>,
    pre_heap: A,
    pre_gc: G,
    post: Machine,
    post_heap: A,
    post_gc: G,
)
    requires
        instruction_effect(
            OpCode::Alloc,
            m,
            code,
            consts,
            pre_heap,
            pre_gc,
            post,
            post_heap,
            post_gc,
            Ok::<Step, VmError>(Step::Continue),
        ),
    ensures
        alloc_operands(m, code) is Ok,
        ({
            let (m1, size, flag) = alloc_operands(m, code)->Ok_0;
            alloc_effect(
                m1,
                pre_heap.blocks(),
                pre_gc.wants_collection(&pre_heap),
                size,
                flag,
                post_heap.blocks(),
                post,
                Ok::<Step, VmError>(Step::Continue),
            )
        }),
{
    assert(!is_pure(OpCode::Alloc));
}

proof fn lemma_pushed_allocation(
    m: Machine,
    code: Seq<u8>,
    m1: Machine,
    size: usize,
    flag: bool,
    before: Map<usize, Block>,
    wants: bool,
    after: Map<usize, Block>,
    post: Machine,
)
    requires
        m.slots.len() == STACK_MAX,
        0 <= m.sp,
        alloc_operands(m, code) == Ok::<(Machine, usize, bool), VmError>((m1, size, flag)),
        alloc_effect(m1, before, wants, size, flag, after, post, Ok::<Step, VmError>(Step::Continue)),
    ensures
        0 <= m.ip,
        m.ip + 3 <= code.len(),
        post.ip == m.ip + 3,
        post.sp == m.sp + 1,
        bits_is_obj(post.slots[m.sp]),
        ({
            let p = payload_of(post.slots[m.sp]) as usize;
            &&& 0 < p
            &&& !before.contains_key(p) || wants
            &&& after.contains_key(p)
            &&& after[p].size == code[m.ip] as int * 256 + code[m.ip + 1] as int
            &&& after[p].bytes.len() == after[p].size
            &&& after[p].traced == (code[m.ip + 2] != 0)
            &&& !after[p].marked
        }),
{
    reveal_with_fuel(be_number, 3);
    let mid = choose|mid: Map<usize, Block>|
        {
            &&& #[trigger] collected_into(before, mid, wants, obj_roots(m1.slots, m1.sp))
            &&& exists|a: Allocation|
                #[trigger] fresh_allocation(mid, after, a, size, flag) && push_spec(
                    m1,
                    obj_bits(a.ptr as int),
                ) == Ok::<Machine, VmError>(post)
        };
    let a = choose|a: Allocation|
        #[trigger] fresh_allocation(mid, after, a, size, flag) && push_spec(
            m1,
            obj_bits(a.ptr as int),
        ) == Ok::<Machine, VmError>(post);
    crate::value::law_obj_roundtrip(a.ptr as u64);
    assert(post.slots[m.sp] == obj_bits(a.ptr as int));
    assert(!wants ==> mid == before);
}

/// An `Alloc` that succeeds reads three operand bytes and pushes an object
/// whose location names a fresh, unmarked allocation: its size is the first
/// two bytes, high byte first, and it is traced exactly when the third byte
/// is not zero. `m` is the machine just after the opcode byte.
pub proof fn law_alloc_records_its_operands<A: Allocator, G: Gc<A>>(
    m: Machine,
    code: Seq<u8>,
    consts: Seq<u64>,
    pre_heap: A,
    pre_gc: G,
    post: Machine,
    post_heap: A,
    post_gc: G,
)
    requires
        m.slots.len() == STACK_MAX,
        0 <= m.sp,
        instruction_effect(
            OpCode::Alloc,
            m,
            code,
            consts,
            pre_heap,
            pre_gc,
            post,
            post_heap,
            post_gc,
            Ok::<Step, VmError>(Step::Continue),
        ),
    ensures
        0 <= m.ip,
        m.ip + 3 <= code.len(),
        post.ip == m.ip + 3,
        post.sp == m.sp + 1,
        bits_is_obj(post.slots[m.sp]),
        ({
            let p = payload_of(post.slots[m.sp]) as usize;
            &&& 0 < p
            &&& !pre_heap.blocks().contains_key(p) || pre_gc.wants_collection(&pre_heap)
            &&& post_heap.blocks().contains_key(p)
            &&& post_heap.blocks()[p].size == code[m.ip] as int * 256 + code[m.ip + 1] as int
            &&& post_heap.blocks()[p].bytes.len() == post_heap.blocks()[p].size
            &&& post_heap.blocks()[p].traced == (code[m.ip + 2] != 0)
            &&& !post_heap.blocks()[p].marked
        }),
{
    lemma_alloc_effect_of(m, code, consts, pre_heap, pre_gc, post, post_heap, post_gc);
    let (m1, size, flag) = alloc_operands(m, code)->Ok_0;
    lemma_pushed_allocation(
        m,
        code,
        m1,
        size,
        flag,
        pre_heap.blocks(),
        pre_gc.wants_collection(&pre_heap),
        post_heap.blocks(),
        post,
    );
}

/// The stack slots as bits.
pub open spec fn slot_bits(slots: Seq<Value>) -> Seq<u64> {
    slots.map_values(|v: Value| v@)
}


fn obj_to_ptr(val: Value) -> (r: Result<usize, VmError>)
    ensures
        r == obj_ptr_spec(val@),
{
    match val.as_obj() {
        Some(ptr) => if ptr == 0 {
            Err(VmError::Segfault)
        } else {
            Ok(ptr as usize)
        },
        None => Err(VmError::TypeError),
    }
}

fn offset_of(val: Value) -> (r: Result<usize, VmError>)
    ensures
        r == offset_spec(val@),
{
    match val.as_int() {
        Some(i) => Ok(i as usize),
        None => Err(VmError::TypeError),
    }
}

/// Writes the 8 little-endian bytes of `v` at offset `o` of the allocation at
/// `p`; false, with nothing written, when they do not all lie inside it.
fn store_word<A: Allocator>(alloc: &mut A, p: usize, o: usize, v: u64) -> (r: bool)
    requires
        old(alloc).wf(),
    ensures
        final(alloc).wf(),
        r == in_block(old(alloc).blocks(), p, o as int, 8),
        r ==> final(alloc).blocks() == old(alloc).blocks().insert(
            p,
            Block {
                bytes: splice(old(alloc).blocks()[p].bytes, o as int, u64_le_bytes(v)),
                ..old(alloc).blocks()[p]
            },
        ),
        !r ==> final(alloc).blocks() == old(alloc).blocks(),
{
    proof {
        alloc.lemma_block_sizes();
    }
    if o > usize::MAX - 7 {
        return false;
    }
    if alloc.load_byte(p, o + 7).is_none() {
        return false;
    }
    let bs: [u8; 8] = [
        (v & 0xff) as u8,
        ((v >> 8u64) & 0xff) as u8,
        ((v >> 16u64) & 0xff) as u8,
        ((v >> 24u64) & 0xff) as u8,
        ((v >> 32u64) & 0xff) as u8,
        ((v >> 40u64) & 0xff) as u8,
        ((v >> 48u64) & 0xff) as u8,
        ((v >> 56u64) & 0xff) as u8,
    ];
    proof {
        assert(v & 0xff == v % 0x100) by (bit_vector);
        assert((v >> 8u64) & 0xff == v / 0x100 % 0x100) by (bit_vector);
        assert((v >> 16u64) & 0xff == v / 0x1_0000 % 0x100) by (bit_vector);
        assert((v >> 24u64) & 0xff == v / 0x100_0000 % 0x100) by (bit_vector);
        assert((v >> 32u64) & 0xff == v / 0x1_0000_0000 % 0x100) by (bit_vector);
        assert((v >> 40u64) & 0xff == v / 0x100_0000_0000 % 0x100) by (bit_vector);
        assert((v >> 48u64) & 0xff == v / 0x1_0000_0000_0000 % 0x100) by (bit_vector);
        assert((v >> 56u64) & 0xff == v / 0x100_0000_0000_0000 % 0x100) by (bit_vector);
        assert(bs@ =~= u64_le_bytes(v));
    }
    let ghost blk = alloc.blocks()[p];
    let ghost w = u64_le_bytes(v);
    proof {
        assert(splice(blk.bytes, o as int, w.take(0)) =~= blk.bytes);
        assert(old(alloc).blocks().insert(p, Block { bytes: blk.bytes, ..blk }) =~= old(
            alloc,
        ).blocks());
    }
    let mut k: usize = 0;
    while k < 8
        invariant
            k <= 8,
            o + 8 <= usize::MAX + 1,
            bs@ == w,
            w.len() == 8,
            alloc.wf(),
            in_block(old(alloc).blocks(), p, o as int, 8),
            blk == old(alloc).blocks()[p],
            blk.bytes.len() == blk.size,
            alloc.blocks() == old(alloc).blocks().insert(
                p,
                Block { bytes: splice(blk.bytes, o as int, w.take(k as int)), ..blk },
            ),
        decreases 8 - k,
    {
        let ghost before = alloc.blocks();
        let ok = alloc.store_byte(p, o + k, bs[k]);
        proof {
            assert(before[p].size == blk.size);
            assert(splice(blk.bytes, o as int, w.take(k as int)).update(o + k, w[k as int])
                =~= splice(blk.bytes, o as int, w.take(k + 1)));
            assert(alloc.blocks() =~= old(alloc).blocks().insert(
                p,
                Block { bytes: splice(blk.bytes, o as int, w.take(k + 1)), ..blk },
            ));
        }
        k += 1;
    }
    proof {
        assert(w.take(8) =~= w);
    }
    true
}

/// The machine: registers, stacks, program, heap and collector.
pub struct Vm<A: Allocator, G: Gc<A>> {
    ip: usize,
    ip_end: usize,
    sp: usize,
    bp: usize,
    bytecode: Bytecode,
    stack: Vec<Value>,
    call_stack: Vec<CallFrame>,
    alloc: A,
    gc: G,
    awaiting: Awaiting,
}

impl<A: Allocator, G: Gc<A>> Vm<A, G> {
    /// The registers and stacks.
    pub closed spec fn machine(&self) -> Machine {
        Machine {
            ip: self.ip as int,
            bp: self.bp as int,
            sp: self.sp as int,
            slots: slot_bits(self.stack@),
            frames: self.call_stack@,
            awaiting: self.awaiting,
        }
    }

    pub closed spec fn code(&self) -> Seq<u8> {
        self.bytecode.code@
    }

    /// The constant pool as bits.
    pub closed spec fn constants(&self) -> Seq<u64> {
        slot_bits(self.bytecode.constants@)
    }

    pub closed spec fn heap(&self) -> A {
        self.alloc
    }

    pub closed spec fn collector(&self) -> G {
        self.gc
    }

    /// Consistency of registers and stacks.
    pub closed spec fn wf(&self) -> bool {
        &&& self.stack@.len() == STACK_MAX
        &&& self.sp <= STACK_MAX
        &&& self.bp <= STACK_MAX
        &&& self.ip <= self.ip_end
        &&& self.ip_end == self.bytecode.code@.len()
        &&& self.call_stack@.len() <= CALL_STACK_MAX
        &&& forall|i: int|
            0 <= i < self.call_stack@.len() ==> {
                let f = #[trigger] self.call_stack@[i];
                &&& f.saved_ip <= self.ip_end
                &&& f.saved_ip_end == self.ip_end
                &&& f.saved_bp <= STACK_MAX
                &&& f.saved_sp <= STACK_MAX
            }
        &&& self.awaiting != Awaiting::Nothing ==> self.sp + 2 <= STACK_MAX
        &&& self.alloc.wf()
    }

    /// A well-formed machine keeps its registers inside their bounds.
    pub proof fn lemma_bounds(&self)
        requires
            self.wf(),
        ensures
            0 <= self.machine().ip <= self.code().len(),
            0 <= self.machine().sp <= STACK_MAX,
            0 <= self.machine().bp <= STACK_MAX,
            self.machine().slots.len() == STACK_MAX,
            self.machine().frames.len() <= CALL_STACK_MAX,
            self.code().len() <= usize::MAX,
            self.heap().wf(),
    {
    }

    /// The part of the state that no instruction changes.
    pub open spec fn same_program(&self, other: &Self) -> bool {
        self.code() == other.code() && self.constants() == other.constants()
    }

    /// A fresh machine at the start of `bytecode`, with empty stacks.
    pub fn new(bytecode: Bytecode, alloc: A, gc: G) -> (r: Self)
        requires
            alloc.wf(),
        ensures
            r.wf(),
            r.code() == bytecode.code@,
            r.constants() == slot_bits(bytecode.constants@),
            r.machine().ip == 0,
            r.machine().sp == 0,
            r.machine().bp == 0,
            r.machine().frames.len() == 0,
            r.machine().awaiting == Awaiting::Nothing,
            r.heap() == alloc,
            r.collector() == gc,
    {
        let ip_end = bytecode.code.len();
        let stack = vec![Value::nil(); STACK_MAX];
        Vm {
            ip: 0,
            ip_end,
            sp: 0,
            bp: 0,
            bytecode,
            stack,
            call_stack: Vec::new(),
            alloc,
            gc,
            awaiting: Awaiting::Nothing,
        }
    }

    /// True while the machine waits for a float result.
    pub fn awaiting_float(&self) -> (r: bool)
        ensures
            r == (self.machine().awaiting != Awaiting::Nothing),
    {
        match self.awaiting {
            Awaiting::Nothing => false,
            _ => true,
        }
    }

    fn push(&mut self, v: Value) -> (r: Result<(), VmError>)
        requires
            old(self).wf(),
            old(self).awaiting == Awaiting::Nothing,
        ensures
            final(self).wf(),
            final(self).same_program(old(self)),
            final(self).alloc == old(self).alloc,
            final(self).gc == old(self).gc,
            match push_spec(old(self).machine(), v@) {
                Ok(m) => r is Ok && final(self).machine() == m,
                Err(e) => r == Err::<(), VmError>(e) && final(self).machine() == old(self).machine(),
            },
    {
        if self.sp == STACK_MAX {
            return Err(VmError::StackOverflow);
        }
        self.stack.set(self.sp, v);
        self.sp += 1;
        proof {
            assert(slot_bits(self.stack@) =~= old(self).machine().slots.update(
                old(self).sp as int,
                v@,
            ));
        }
        Ok(())
    }

    fn pop(&mut self) -> (r: Result<Value, VmError>)
        requires
            old(self).wf(),
        ensures
            final(self).wf(),
            final(self).same_program(old(self)),
            final(self).alloc == old(self).alloc,
            final(self).gc == old(self).gc,
            match pop_spec(old(self).machine()) {
                Ok((m, b)) => r matches Ok(v) && v@ == b && final(self).machine() == m,
                Err(e) => r == Err::<Value, VmError>(e) && final(self).machine() == old(self).machine(),
            },
    {
        if self.sp == 0 {
            return Err(VmError::StackUnderflow);
        }
        self.sp -= 1;
        Ok(self.stack[self.sp])
    }

    fn pop2(&mut self) -> (r: Result<(Value, Value), VmError>)
        requires
            old(self).wf(),
        ensures
            final(self).wf(),
            final(self).same_program(old(self)),
            final(self).alloc == old(self).alloc,
            final(self).gc == old(self).gc,
            match pop2_spec(old(self).machine()) {
                Ok((m, a, b)) => r matches Ok((x, y)) && x@ == a && y@ == b && final(self).machine() == m,
                Err(e) => r == Err::<(Value, Value), VmError>(e),
            },
    {
        let b = self.pop()?;
        let a = self.pop()?;
        Ok((a, b))
    }

    fn read_byte(&mut self) -> (r: Result<u8, VmError>)
        requires
            old(self).wf(),
        ensures
            final(self).wf(),
            final(self).same_program(old(self)),
            final(self).alloc == old(self).alloc,
            final(self).gc == old(self).gc,
            match byte_spec(old(self).machine(), old(self).code()) {
                Ok((m, b)) => r == Ok::<u8, VmError>(b) && final(self).machine() == m,
                Err(e) => r == Err::<u8, VmError>(e) && final(self).machine() == old(self).machine(),
            },
    {
        if self.ip >= self.ip_end {
            return Err(VmError::IpOutOfBounds);
        }
        let byte = self.bytecode.code[self.ip];
        self.ip += 1;
        Ok(byte)
    }

    /// Reads a 4-byte big-endian immediate from the instruction stream.
    fn read_u32(&mut self) -> (r: Result<u32, VmError>)
        requires
            old(self).wf(),
        ensures
            final(self).wf(),
            final(self).same_program(old(self)),
            final(self).alloc == old(self).alloc,
            final(self).gc == old(self).gc,
            match u32_spec(old(self).machine(), old(self).code()) {
                Ok((m, n)) => r matches Ok(v) && v == n && final(self).machine() == m,
                Err(e) => r == Err::<u32, VmError>(e),
            },
    {
        let b0 = self.read_byte()? as u32;
        let b1 = self.read_byte()? as u32;
        let b2 = self.read_byte()? as u32;
        let b3 = self.read_byte()? as u32;
        proof {
            reveal_with_fuel(be_number, 5);
        }
        Ok(b0 * 0x100_0000 + b1 * 0x1_0000 + b2 * 0x100 + b3)
    }

    fn peek(&self) -> (r: Result<Value, VmError>)
        requires
            self.wf(),
        ensures
            self.machine().sp <= 0 ==> r == Err::<Value, VmError>(VmError::StackUnderflow),
            self.machine().sp > 0 ==> (r matches Ok(v) && v@ == self.machine().slots[self.machine().sp
                - 1]),
    {
        if self.sp == 0 {
            return Err(VmError::StackUnderflow);
        }
        Ok(self.stack[self.sp - 1])
    }

    fn push_frame(&mut self, frame: CallFrame) -> (r: Result<(), VmError>)
        requires
            old(self).wf(),
            frame.saved_ip <= old(self).ip_end,
            frame.saved_ip_end == old(self).ip_end,
            frame.saved_bp <= STACK_MAX,
            frame.saved_sp <= STACK_MAX,
        ensures
            final(self).wf(),
            final(self).same_program(old(self)),
            final(self).alloc == old(self).alloc,
            final(self).gc == old(self).gc,
            old(self).machine().frames.len() >= CALL_STACK_MAX ==> r == Err::<(), VmError>(
                VmError::CallStackOverflow,
            ),
            old(self).machine().frames.len() < CALL_STACK_MAX ==> (r is Ok && final(self).machine()
                == (Machine { frames: old(self).machine().frames.push(frame), ..old(self).machine() })),
    {
        if self.call_stack.len() == CALL_STACK_MAX {
            return Err(VmError::CallStackOverflow);
        }
        self.call_stack.push(frame);
        Ok(())
    }

    fn pop_frame(&mut self) -> (r: Result<CallFrame, VmError>)
        requires
            old(self).wf(),
        ensures
            final(self).wf(),
            final(self).same_program(old(self)),
            final(self).alloc == old(self).alloc,
            final(self).gc == old(self).gc,
            old(self).machine().frames.len() == 0 ==> r == Err::<CallFrame, VmError>(
                VmError::CallStackUnderflow,
            ),
            old(self).machine().frames.len() > 0 ==> (r == Ok::<CallFrame, VmError>(
                old(self).machine().frames.last(),
            ) && final(self).machine() == (Machine {
                frames: old(self).machine().frames.drop_last(),
                ..old(self).machine()
            })),
    {
        match self.call_stack.pop() {
            Some(f) => Ok(f),
            None => Err(VmError::CallStackUnderflow),
        }
    }

    /// Validates `offset` and sets ip. Every jump goes through here.
    fn jump_to(&mut self, offset: u32) -> (r: Result<Step, VmError>)
        requires
            old(self).wf(),
        ensures
            final(self).wf(),
            final(self).same_program(old(self)),
            final(self).alloc == old(self).alloc,
            final(self).gc == old(self).gc,
            match jump_spec(old(self).machine(), old(self).code(), offset as nat) {
                Ok(m) => r == Ok::<Step, VmError>(Step::Continue) && final(self).machine() == m,
                Err(e) => r == Err::<Step, VmError>(e),
            },
    {
        let offset = offset as usize;
        if offset >= self.bytecode.code.len() {
            return Err(VmError::IpOutOfBounds);
        }
        self.ip = offset;
        Ok(Step::Continue)
    }

    fn op_const(&mut self) -> (r: Result<Step, VmError>)
        requires
            old(self).wf(),
            old(self).awaiting == Awaiting::Nothing,
        ensures
            final(self).wf(),
            final(self).same_program(old(self)),
            final(self).alloc == old(self).alloc,
            final(self).gc == old(self).gc,
            effect_holds(
                pure_effect(OpCode::Const, old(self).machine(), old(self).code(), old(self).constants()),
                final(self).machine(),
                r,
            ),
    {
        let idx = self.read_byte()? as usize;
        if idx >= self.bytecode.constants.len() {
            return Err(VmError::ConstPoolOutOfBounds);
        }
        let val = self.bytecode.constants[idx];
        self.push(val)?;
        Ok(Step::Continue)
    }

    /// `Add`, `Sub`, `Mul`: int op int wraps to 48 bits; a float on either side
    /// asks the driver for IEEE arithmetic.
    fn arith(&mut self, op: FloatOp) -> (r: Result<Step, VmError>)
        requires
            old(self).wf(),
            old(self).awaiting == Awaiting::Nothing,
            op == FloatOp::Add || op == FloatOp::Sub || op == FloatOp::Mul,
        ensures
            final(self).wf(),
            final(self).same_program(old(self)),
            final(self).alloc == old(self).alloc,
            final(self).gc == old(self).gc,
            effect_holds(arith_spec(op, old(self).machine()), final(self).machine(), r),
    {
        let (a, b) = self.pop2()?;
        match (a.as_int(), b.as_int()) {
            (Some(ai), Some(bi)) => {
                proof {
                    lemma_int_range(a@);
                    lemma_int_range(b@);
                }
                let v = match op {
                    FloatOp::Add => Value::from_int_wrapping(ai + bi),
                    FloatOp::Sub => Value::from_int_wrapping(ai - bi),
                    _ => {
                        let w = ai.wrapping_mul(bi);
                        proof {
                            lemma_wrapped_product(ai * bi, w as int);
                        }
                        Value::from_int_wrapping(w)
                    },
                };
                self.push(v)?;
                Ok(Step::Continue)
            },
            _ => {
                if (a.is_float() || a.is_int()) && (b.is_float() || b.is_int()) {
                    self.awaiting = Awaiting::Number;
                    Ok(Step::Float(FloatRequest { op, lhs: a, rhs: b }))
                } else {
                    Err(VmError::TypeError)
                }
            },
        }
    }

    /// Division always promotes to float.
    fn arith_div(&mut self) -> (r: Result<Step, VmError>)
        requires
            old(self).wf(),
            old(self).awaiting == Awaiting::Nothing,
        ensures
            final(self).wf(),
            final(self).same_program(old(self)),
            final(self).alloc == old(self).alloc,
            final(self).gc == old(self).gc,
            effect_holds(div_spec(old(self).machine()), final(self).machine(), r),
    {
        let (a, b) = self.pop2()?;
        if (a.is_float() || a.is_int()) && (b.is_float() || b.is_int()) {
            self.awaiting = Awaiting::Number;
            Ok(Step::Float(FloatRequest { op: FloatOp::Div, lhs: a, rhs: b }))
        } else {
            Err(VmError::TypeError)
        }
    }

    fn op_neg(&mut self) -> (r: Result<Step, VmError>)
        requires
            old(self).wf(),
            old(self).awaiting == Awaiting::Nothing,
        ensures
            final(self).wf(),
            final(self).same_program(old(self)),
            final(self).alloc == old(self).alloc,
            final(self).gc == old(self).gc,
            effect_holds(neg_spec(old(self).machine()), final(self).machine(), r),
    {
        let a = self.pop()?;
        let result = if let Some(i) = a.as_int() {
            proof {
                lemma_int_range(a@);
            }
            Value::from_int_wrapping(-i)
        } else if let Some(bits) = a.float_bits() {
            let flipped = bits ^ SIGN_BIT;
            assert(flipped == negated_float_bits(bits)) by (bit_vector)
                requires
                    flipped == bits ^ 0x8000_0000_0000_0000u64,
            ;
            Value::from_float_bits(flipped)
        } else {
            return Err(VmError::TypeError);
        };
        self.push(result)?;
        Ok(Step::Continue)
    }

    fn op_not(&mut self) -> (r: Result<Step, VmError>)
        requires
            old(self).wf(),
            old(self).awaiting == Awaiting::Nothing,
        ensures
            final(self).wf(),
            final(self).same_program(old(self)),
            final(self).alloc == old(self).alloc,
            final(self).gc == old(self).gc,
            effect_holds(not_spec(old(self).machine()), final(self).machine(), r),
    {
        let a = self.pop()?;
        self.push(Value::from_bool(!a.is_truthy()))?;
        Ok(Step::Continue)
    }

    /// `Eq`, and `Ne` with `negate`.
    fn op_eq(&mut self, negate: bool) -> (r: Result<Step, VmError>)
        requires
            old(self).wf(),
            old(self).awaiting == Awaiting::Nothing,
        ensures
            final(self).wf(),
            final(self).same_program(old(self)),
            final(self).alloc == old(self).alloc,
            final(self).gc == old(self).gc,
            effect_holds(eq_spec(old(self).machine(), negate), final(self).machine(), r),
    {
        let (a, b) = self.pop2()?;
        match values_equal(a, b) {
            Some(e) => {
                self.push(Value::from_bool(e != negate))?;
                Ok(Step::Continue)
            },
            None => {
                self.awaiting = Awaiting::Truth { negate };
                Ok(Step::Float(FloatRequest { op: FloatOp::Eq, lhs: a, rhs: b }))
            },
        }
    }

    /// `Lt`, `Le`, `Gt`, `Ge`. Two ints compare exactly as integers, as their
    /// 48-bit values convert to doubles without rounding.
    fn op_compare(&mut self, op: FloatOp) -> (r: Result<Step, VmError>)
        requires
            old(self).wf(),
            old(self).awaiting == Awaiting::Nothing,
        ensures
            final(self).wf(),
            final(self).same_program(old(self)),
            final(self).alloc == old(self).alloc,
            final(self).gc == old(self).gc,
            effect_holds(compare_spec(op, old(self).machine()), final(self).machine(), r),
    {
        let (a, b) = self.pop2()?;
        let a_float = a.is_float();
        let b_float = b.is_float();
        if !((a_float || a.is_int()) && (b_float || b.is_int())) {
            return Err(VmError::TypeError);
        }
        if !a_float && !b_float {
            if let (Some(ai), Some(bi)) = (a.as_int(), b.as_int()) {
                let t = match op {
                    FloatOp::Lt => ai < bi,
                    FloatOp::Le => ai <= bi,
                    FloatOp::Gt => ai > bi,
                    _ => ai >= bi,
                };
                self.push(Value::from_bool(t))?;
                return Ok(Step::Continue);
            }
        }
        self.awaiting = Awaiting::Truth { negate: false };
        Ok(Step::Float(FloatRequest { op, lhs: a, rhs: b }))
    }

    fn op_jmp(&mut self) -> (r: Result<Step, VmError>)
        requires
            old(self).wf(),
            old(self).awaiting == Awaiting::Nothing,
        ensures
            final(self).wf(),
            final(self).same_program(old(self)),
            final(self).alloc == old(self).alloc,
            final(self).gc == old(self).gc,
            effect_holds(
                pure_effect(OpCode::Jmp, old(self).machine(), old(self).code(), old(self).constants()),
                final(self).machine(),
                r,
            ),
    {
        let offset = self.read_u32()?;
        self.jump_to(offset)
    }

    /// `JmpIfFalse` (`when` false) and `JmpIfTrue` (`when` true).
    fn op_jmp_if(&mut self, when: bool) -> (r: Result<Step, VmError>)
        requires
            old(self).wf(),
            old(self).awaiting == Awaiting::Nothing,
        ensures
            final(self).wf(),
            final(self).same_program(old(self)),
            final(self).alloc == old(self).alloc,
            final(self).gc == old(self).gc,
            effect_holds(
                cond_jump_spec(old(self).machine(), old(self).code(), when),
                final(self).machine(),
                r,
            ),
    {
        let offset = self.read_u32()?;
        let cond = self.pop()?;
        if cond.is_truthy() == when {
            self.jump_to(offset)
        } else {
            Ok(Step::Continue)
        }
    }

    fn op_pop(&mut self) -> (r: Result<Step, VmError>)
        requires
            old(self).wf(),
            old(self).awaiting == Awaiting::Nothing,
        ensures
            final(self).wf(),
            final(self).same_program(old(self)),
            final(self).alloc == old(self).alloc,
            final(self).gc == old(self).gc,
            effect_holds(
                pure_effect(OpCode::Pop, old(self).machine(), old(self).code(), old(self).constants()),
                final(self).machine(),
                r,
            ),
    {
        self.pop()?;
        Ok(Step::Continue)
    }

    /// Pushes a copy of the top value.
    fn op_dup(&mut self) -> (r: Result<Step, VmError>)
        requires
            old(self).wf(),
            old(self).awaiting == Awaiting::Nothing,
        ensures
            final(self).wf(),
            final(self).same_program(old(self)),
            final(self).alloc == old(self).alloc,
            final(self).gc == old(self).gc,
            effect_holds(
                pure_effect(OpCode::Dup, old(self).machine(), old(self).code(), old(self).constants()),
                final(self).machine(),
                r,
            ),
    {
        let value = self.peek()?;
        self.push(value)?;
        Ok(Step::Continue)
    }

    /// Reserves `n` local slots by pushing `n` nils.
    fn op_make_frame(&mut self) -> (r: Result<Step, VmError>)
        requires
            old(self).wf(),
            old(self).awaiting == Awaiting::Nothing,
        ensures
            final(self).wf(),
            final(self).same_program(old(self)),
            final(self).alloc == old(self).alloc,
            final(self).gc == old(self).gc,
            effect_holds(
                pure_effect(
                    OpCode::MakeFrame,
                    old(self).machine(),
                    old(self).code(),
                    old(self).constants(),
                ),
                final(self).machine(),
                r,
            ),
    {
        let n = self.read_byte()?;
        let ghost m1 = self.machine();
        proof {
            assert(push_nils(m1, 0)->Ok_0.slots =~= m1.slots);
            assert(push_nils(m1, 0)->Ok_0 == m1);
        }
        let mut k: u8 = 0;
        while k < n
            invariant
                self.wf(),
                self.same_program(old(self)),
                self.alloc == old(self).alloc,
                self.gc == old(self).gc,
                self.awaiting == Awaiting::Nothing,
                k <= n,
                m1.sp + k <= STACK_MAX,
                pure_effect(OpCode::MakeFrame, old(self).machine(), old(self).code(), old(self).constants()) == continue_with(push_nils(m1, n as nat)),
                push_nils(m1, k as nat) == Ok::<Machine, VmError>(self.machine()),
            decreases n - k,
        {
            let ghost before = self.machine();
            if self.sp == STACK_MAX {
                assert(m1.sp + n > STACK_MAX);
                return Err(VmError::StackOverflow);
            }
            self.push(Value::nil())?;
            k += 1;
            proof {
                assert(self.machine().slots =~= push_nils(m1, k as nat)->Ok_0.slots);
            }
        }
        proof {
            assert(self.machine().slots =~= push_nils(m1, n as nat)->Ok_0.slots);
        }
        Ok(Step::Continue)
    }

    fn op_get_local(&mut self) -> (r: Result<Step, VmError>)
        requires
            old(self).wf(),
            old(self).awaiting == Awaiting::Nothing,
        ensures
            final(self).wf(),
            final(self).same_program(old(self)),
            final(self).alloc == old(self).alloc,
            final(self).gc == old(self).gc,
            effect_holds(get_local_spec(old(self).machine(), old(self).code()), final(self).machine(), r),
    {
        let slot = self.read_byte()?;
        let idx = self.bp + slot as usize;
        if idx >= self.sp {
            return Err(VmError::LocalOutOfRange);
        }
        let val = self.stack[idx];
        self.push(val)?;
        Ok(Step::Continue)
    }

    fn op_set_local(&mut self) -> (r: Result<Step, VmError>)
        requires
            old(self).wf(),
            old(self).awaiting == Awaiting::Nothing,
        ensures
            final(self).wf(),
            final(self).same_program(old(self)),
            final(self).alloc == old(self).alloc,
            final(self).gc == old(self).gc,
            effect_holds(set_local_spec(old(self).machine(), old(self).code()), final(self).machine(), r),
    {
        let slot = self.read_byte()?;
        let idx = self.bp + slot as usize;
        if idx + 1 >= self.sp {
            return Err(VmError::LocalOutOfRange);
        }
        let val = self.pop()?;
        let ghost before = slot_bits(self.stack@);
        self.stack.set(idx, val);
        proof {
            assert(slot_bits(self.stack@) =~= before.update(idx as int, val@));
        }
        Ok(Step::Continue)
    }

    /// Calls the function at a code offset with the top `argc` values as its
    /// first locals.
    fn op_call(&mut self) -> (r: Result<Step, VmError>)
        requires
            old(self).wf(),
            old(self).awaiting == Awaiting::Nothing,
        ensures
            final(self).wf(),
            final(self).same_program(old(self)),
            final(self).alloc == old(self).alloc,
            final(self).gc == old(self).gc,
            effect_holds(call_spec(old(self).machine(), old(self).code()), final(self).machine(), r),
    {
        let offset = self.read_u32()? as usize;
        if offset >= self.bytecode.code.len() {
            return Err(VmError::IpOutOfBounds);
        }
        let arg_count = self.read_byte()? as usize;
        if self.sp < arg_count {
            return Err(VmError::StackUnderflow);
        }
        let frame = CallFrame {
            saved_ip: self.ip,
            saved_ip_end: self.ip_end,
            saved_bp: self.bp,
            saved_sp: self.sp - arg_count,
        };
        self.push_frame(frame)?;
        self.bp = self.sp - arg_count;
        self.ip = offset;
        self.ip_end = self.bytecode.code.len();
        Ok(Step::Continue)
    }

    /// Returns the top value to the caller, or halts with it at top level.
    fn op_return(&mut self) -> (r: Result<Step, VmError>)
        requires
            old(self).wf(),
            old(self).awaiting == Awaiting::Nothing,
        ensures
            final(self).wf(),
            final(self).same_program(old(self)),
            final(self).alloc == old(self).alloc,
            final(self).gc == old(self).gc,
            effect_holds(return_spec(old(self).machine()), final(self).machine(), r),
    {
        let retval = self.pop()?;
        if self.call_stack.len() == 0 {
            return Ok(Step::Halt(retval));
        }
        let frame = self.pop_frame()?;
        proof {
            assert(old(self).call_stack@.contains(frame));
        }
        self.ip = frame.saved_ip;
        self.ip_end = frame.saved_ip_end;
        self.bp = frame.saved_bp;
        self.sp = frame.saved_sp;
        self.push(retval)?;
        Ok(Step::Continue)
    }

    fn op_enter_no_gc(&mut self) -> (r: Result<Step, VmError>)
        requires
            old(self).wf(),
        ensures
            final(self).wf(),
            final(self).same_program(old(self)),
            final(self).alloc == old(self).alloc,
            final(self).machine() == old(self).machine(),
            final(self).gc.nogc_depth() == depth_after_enter(old(self).gc.nogc_depth()),
            r == Ok::<Step, VmError>(Step::Continue),
    {
        self.gc.enter_nogc();
        Ok(Step::Continue)
    }

    fn op_exit_no_gc(&mut self) -> (r: Result<Step, VmError>)
        requires
            old(self).wf(),
        ensures
            final(self).wf(),
            final(self).same_program(old(self)),
            final(self).alloc == old(self).alloc,
            final(self).machine() == old(self).machine(),
            final(self).gc.nogc_depth() == depth_after_exit(old(self).gc.nogc_depth()),
            r == Ok::<Step, VmError>(Step::Continue),
    {
        self.gc.exit_nogc();
        Ok(Step::Continue)
    }

    /// Reads the size and flag operands, collects first if the collector asks
    /// for it, allocates, and pushes the new object.
    fn op_alloc(&mut self) -> (r: Result<Step, VmError>)
        requires
            old(self).wf(),
            old(self).awaiting == Awaiting::Nothing,
        ensures
            no_marks(old(self).alloc.blocks()) ==> no_marks(final(self).alloc.blocks()),
            final(self).wf(),
            final(self).same_program(old(self)),
            match alloc_operands(old(self).machine(), old(self).code()) {
                Err(e) => r == Err::<Step, VmError>(e),
                Ok((m1, size, flag)) => {
                    &&& final(self).gc.nogc_depth() == old(self).gc.nogc_depth()
                    &&& alloc_effect(
                        m1,
                        old(self).alloc.blocks(),
                        old(self).gc.wants_collection(&old(self).alloc),
                        size,
                        flag,
                        final(self).alloc.blocks(),
                        final(self).machine(),
                        r,
                    )
                },
            },
    {
        let hi = self.read_byte()?;
        let lo = self.read_byte()?;
        let size: u16 = (hi as u16) * 256 + lo as u16;
        let contains_values = self.read_byte()? != 0u8;
        proof {
            reveal_with_fuel(be_number, 3);
        }
        let ghost m1 = self.machine();
        let ghost before = self.alloc.blocks();
        let ghost pre_alloc = self.alloc;
        let ghost pre_gc = self.gc;
        let wants = self.gc.should_collect(&self.alloc);
        if wants {
            let tracer = VmRootTracer { stack: self.stack.as_slice(), sp: self.sp };
            proof {
                assert(tracer.roots() == obj_roots(m1.slots, m1.sp));
            }
            self.gc.collect(&mut self.alloc, &tracer);
        }
        let ghost mid = self.alloc.blocks();
        proof {
            assert(wants == pre_gc.wants_collection(&pre_alloc));
            assert(collected_into(before, mid, wants, obj_roots(m1.slots, m1.sp)));
        }
        let allocation = match self.alloc.allocate(size as usize, contains_values) {
            Some(a) => a,
            None => {
                proof {
                    let r = Err::<Step, VmError>(VmError::OutOfMemory);
                    assert(alloc_effect(m1, before, wants, size as usize, contains_values,
                        self.alloc.blocks(), self.machine(), r)) by {
                        assert(collected_into(before, mid, wants, obj_roots(m1.slots, m1.sp))
                            && self.alloc.blocks() == mid);
                    }
                }
                return Err(VmError::OutOfMemory);
            },
        };
        let v = Value::from_obj(allocation.ptr as u64);
        let pushed = self.push(v);
        proof {
            let after = self.alloc.blocks();
            assert(fresh_allocation(mid, after, allocation, size as usize, contains_values));
            let r: Result<Step, VmError> = match pushed {
                Ok(()) => Ok(Step::Continue),
                Err(e) => Err(e),
            };
            assert(alloc_effect(m1, before, wants, size as usize, contains_values, after,
                self.machine(), r)) by {
                assert(collected_into(before, mid, wants, obj_roots(m1.slots, m1.sp)));
                if pushed is Ok {
                    assert(push_spec(m1, obj_bits(allocation.ptr as int)) == Ok::<Machine, VmError>(self.machine()));
                } else {
                    assert(m1.sp >= STACK_MAX);
                }
            }
        }
        match pushed {
            Ok(()) => Ok(Step::Continue),
            Err(e) => Err(e),
        }
    }

    /// Pops offset, pops object, pushes the 8-byte value at that offset.
    fn op_load(&mut self) -> (r: Result<Step, VmError>)
        requires
            old(self).wf(),
            old(self).awaiting == Awaiting::Nothing,
        ensures
            final(self).wf(),
            final(self).same_program(old(self)),
            final(self).alloc == old(self).alloc,
            final(self).gc == old(self).gc,
            effect_holds(load_spec(old(self).machine(), old(self).alloc.blocks()), final(self).machine(), r),
    {
        let (obj, offset) = self.pop2()?;
        let location = obj_to_ptr(obj)?;
        let offset = offset_of(offset)?;
        match load_word(&self.alloc, location, offset) {
            Some(bits) => {
                self.push(Value::from_bits(bits))?;
                Ok(Step::Continue)
            },
            None => Err(VmError::Segfault),
        }
    }

    /// Pops offset, pops object, pushes the byte at that offset as an int.
    fn op_load_byte(&mut self) -> (r: Result<Step, VmError>)
        requires
            old(self).wf(),
            old(self).awaiting == Awaiting::Nothing,
        ensures
            final(self).wf(),
            final(self).same_program(old(self)),
            final(self).alloc == old(self).alloc,
            final(self).gc == old(self).gc,
            effect_holds(
                load_byte_spec(old(self).machine(), old(self).alloc.blocks()),
                final(self).machine(),
                r,
            ),
    {
        let (obj, offset) = self.pop2()?;
        let location = obj_to_ptr(obj)?;
        let offset = offset_of(offset)?;
        match self.alloc.load_byte(location, offset) {
            Some(byte) => {
                self.push(Value::from_int(byte as i64))?;
                Ok(Step::Continue)
            },
            None => Err(VmError::Segfault),
        }
    }

    /// Pops value, pops offset, pops object, writes the value's 8 bytes at that offset.
    fn op_store(&mut self) -> (r: Result<Step, VmError>)
        requires
            old(self).wf(),
            old(self).awaiting == Awaiting::Nothing,
        ensures
            no_marks(old(self).alloc.blocks()) ==> no_marks(final(self).alloc.blocks()),
            final(self).wf(),
            final(self).same_program(old(self)),
            final(self).gc == old(self).gc,
            match store_spec(old(self).machine(), old(self).alloc.blocks()) {
                Ok((m1, blocks)) => r == Ok::<Step, VmError>(Step::Continue) && final(self).machine()
                    == m1 && final(self).alloc.blocks() == blocks,
                Err(e) => r == Err::<Step, VmError>(e),
            },
    {
        let value = self.pop()?;
        let (obj, offset) = self.pop2()?;
        let location = obj_to_ptr(obj)?;
        let offset = offset_of(offset)?;
        if store_word(&mut self.alloc, location, offset, value.to_bits()) {
            Ok(Step::Continue)
        } else {
            Err(VmError::Segfault)
        }
    }

    /// Pops value, pops offset, pops object, writes the low byte of the int value.
    fn op_store_byte(&mut self) -> (r: Result<Step, VmError>)
        requires
            old(self).wf(),
            old(self).awaiting == Awaiting::Nothing,
        ensures
            no_marks(old(self).alloc.blocks()) ==> no_marks(final(self).alloc.blocks()),
            final(self).wf(),
            final(self).same_program(old(self)),
            final(self).gc == old(self).gc,
            match store_byte_spec(old(self).machine(), old(self).alloc.blocks()) {
                Ok((m1, blocks)) => r == Ok::<Step, VmError>(Step::Continue) && final(self).machine()
                    == m1 && final(self).alloc.blocks() == blocks,
                Err(e) => r == Err::<Step, VmError>(e),
            },
    {
        let value = self.pop()?;
        let (obj, offset) = self.pop2()?;
        let location = obj_to_ptr(obj)?;
        let offset = offset_of(offset)?;
        let i = match value.as_int() {
            Some(i) => i,
            None => {
                return Err(VmError::TypeError);
            },
        };
        let byte = ((i as u64) % 256) as u8;
        proof {
            let u = i as u64;
            assert(i >= 0 ==> u == i) by (bit_vector)
                requires
                    u == i as u64,
            ;
            assert(i < 0 ==> u == i + 0x1_0000_0000_0000_0000) by (bit_vector)
                requires
                    u == i as u64,
            ;
            if i < 0 {
                vstd::arithmetic::div_mod::lemma_mod_multiples_vanish(
                    0x100_0000_0000_0000,
                    i as int,
                    256,
                );
            }
            assert(byte == low_byte(i as int));
        }
        if self.alloc.store_byte(location, offset, byte) {
            Ok(Step::Continue)
        } else {
            Err(VmError::Segfault)
        }
    }

    /// Executes one instruction.
    pub fn step(&mut self) -> (r: Result<Step, VmError>)
        requires
            old(self).wf(),
            old(self).machine().awaiting == Awaiting::Nothing,
        ensures
            final(self).wf(),
            final(self).same_program(old(self)),
            no_marks(old(self).heap().blocks()) ==> no_marks(final(self).heap().blocks()),
            match decode_spec(old(self).machine(), old(self).code()) {
                Err(e) => r == Err::<Step, VmError>(e),
                Ok((m1, op)) => instruction_effect(
                    op,
                    m1,
                    old(self).code(),
                    old(self).constants(),
                    old(self).heap(),
                    old(self).collector(),
                    final(self).machine(),
                    final(self).heap(),
                    final(self).collector(),
                    r,
                ),
            },
    {
        let byte = self.read_byte()?;
        let op = match OpCode::from_byte(byte) {
            Some(op) => op,
            None => {
                return Err(VmError::UnknownOpcode(byte));
            },
        };
        proof {
            let c = choose|o: OpCode| byte_of(o) == byte;
            crate::opcode::law_opcode_bytes(op, c);
        }
        match op {
            OpCode::Nop => Ok(Step::Continue),
            OpCode::Const => self.op_const(),
            OpCode::Add => self.arith(FloatOp::Add),
            OpCode::Sub => self.arith(FloatOp::Sub),
            OpCode::Mul => self.arith(FloatOp::Mul),
            OpCode::Div => self.arith_div(),
            OpCode::Neg => self.op_neg(),
            OpCode::Not => self.op_not(),
            OpCode::Eq => self.op_eq(false),
            OpCode::Ne => self.op_eq(true),
            OpCode::Lt => self.op_compare(FloatOp::Lt),
            OpCode::Le => self.op_compare(FloatOp::Le),
            OpCode::Gt => self.op_compare(FloatOp::Gt),
            OpCode::Ge => self.op_compare(FloatOp::Ge),
            OpCode::Jmp => self.op_jmp(),
            OpCode::JmpIfFalse => self.op_jmp_if(false),
            OpCode::JmpIfTrue => self.op_jmp_if(true),
            OpCode::Pop => self.op_pop(),
            OpCode::Dup => self.op_dup(),
            OpCode::MakeFrame => self.op_make_frame(),
            OpCode::GetLocal => self.op_get_local(),
            OpCode::SetLocal => self.op_set_local(),
            OpCode::Call => self.op_call(),
            OpCode::Return => self.op_return(),
            OpCode::EnterNoGc => self.op_enter_no_gc(),
            OpCode::ExitNoGc => self.op_exit_no_gc(),
            OpCode::Alloc => self.op_alloc(),
            OpCode::Load => self.op_load(),
            OpCode::Store => self.op_store(),
            OpCode::LoadB => self.op_load_byte(),
            OpCode::StoreB => self.op_store_byte(),
        }
    }

    /// Completes an arithmetic `Float` step: pushes the result, given by its
    /// IEEE bits (NaNs are canonicalized).
    pub fn resume_number(&mut self, bits: u64)
        requires
            old(self).wf(),
            old(self).machine().awaiting == Awaiting::Number,
        ensures
            final(self).wf(),
            final(self).same_program(old(self)),
            final(self).heap() == old(self).heap(),
            final(self).collector() == old(self).collector(),
            push_spec(
                Machine { awaiting: Awaiting::Nothing, ..old(self).machine() },
                canonical_float_bits(bits),
            ) == Ok::<Machine, VmError>(final(self).machine()),
    {
        self.awaiting = Awaiting::Nothing;
        let r = self.push(Value::from_float_bits(bits));
    }

    /// Completes a comparison `Float` step: pushes the truth of the comparison
    /// (negated for `Ne`) as a bool.
    pub fn resume_truth(&mut self, truth: bool)
        requires
            old(self).wf(),
            old(self).machine().awaiting is Truth,
        ensures
            final(self).wf(),
            final(self).same_program(old(self)),
            final(self).heap() == old(self).heap(),
            final(self).collector() == old(self).collector(),
            push_spec(
                Machine { awaiting: Awaiting::Nothing, ..old(self).machine() },
                bool_bits(truth != old(self).machine().awaiting->negate),
            ) == Ok::<Machine, VmError>(final(self).machine()),
    {
        let negate = match self.awaiting {
            Awaiting::Truth { negate } => negate,
            _ => false,
        };
        self.awaiting = Awaiting::Nothing;
        let r = self.push(Value::from_bool(truth != negate));
    }
}

} // verus!
