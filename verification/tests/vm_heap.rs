//! Heap instructions of the virtual machine.
use pillow::heap::bump::BumpAllocator;
use pillow::heap::gc::mark_sweep::MarkSweep;
use pillow::pack::bytecode::Bytecode;
use pillow::value::Value;
use pillow::vm::error::VmError;
use pillow::vm::{Step, Vm};

const CONST: u8 = 0x01;
const RET: u8 = 0x06;
const DUP: u8 = 0x13;
const SET_LOCAL: u8 = 0x16;
const GET_LOCAL: u8 = 0x15;
const ENTER_NOGC: u8 = 0x18;
const EXIT_NOGC: u8 = 0x19;
const ALLOC: u8 = 0x1A;
const LOAD: u8 = 0x1B;
const STORE: u8 = 0x1C;
const LOADB: u8 = 0x1D;
const STOREB: u8 = 0x1E;

/// Runs a program that does no floating-point work.
fn exec(code: &[u8], constants: &[Value]) -> Result<Value, VmError> {
    let heap: BumpAllocator<8192> = BumpAllocator::new();
    let mut vm = Vm::new(Bytecode::new(code, constants), heap, MarkSweep::new(6144));
    loop {
        match vm.step()? {
            Step::Continue => {}
            Step::Halt(v) => return Ok(v),
            Step::Float(_) => panic!("unexpected float work"),
        }
    }
}

#[test]
fn alloc_pushes_an_object() {
    let v = exec(&[ALLOC, 0x00, 0x10, 1, RET], &[]).unwrap();
    assert!(v.is_obj());
    assert_ne!(v.as_obj(), Some(0));
}

#[test]
fn store_then_load_gives_the_value_back() {
    let code = [
        ALLOC, 0x00, 0x10, 0, DUP, CONST, 0, CONST, 1, STORE, CONST, 0, LOAD, RET,
    ];
    let v = exec(&code, &[Value::from_int(8), Value::from_int(42)]).unwrap();
    assert_eq!(v.as_int(), Some(42));
}

#[test]
fn store_keeps_floats_bit_for_bit() {
    let code = [
        ALLOC, 0x00, 0x08, 0, DUP, CONST, 0, CONST, 1, STORE, CONST, 0, LOAD, RET,
    ];
    let f = Value::from_float_bits(2.5f64.to_bits());
    let v = exec(&code, &[Value::from_int(0), f]).unwrap();
    assert_eq!(v.to_bits(), f.to_bits());
}

#[test]
fn store_byte_keeps_the_low_byte() {
    let code = [
        ALLOC, 0x00, 0x08, 0, DUP, CONST, 0, CONST, 1, STOREB, CONST, 0, LOADB, RET,
    ];
    let v = exec(&code, &[Value::from_int(3), Value::from_int(0x1FF)]).unwrap();
    assert_eq!(v.as_int(), Some(0xFF));
}

#[test]
fn fresh_memory_reads_as_zero() {
    let v = exec(&[ALLOC, 0x00, 0x08, 0, CONST, 0, LOADB, RET], &[Value::from_int(7)]).unwrap();
    assert_eq!(v.as_int(), Some(0));
}

#[test]
fn load_past_the_end_is_a_segfault() {
    let code = [ALLOC, 0x00, 0x08, 0, CONST, 0, LOAD, RET];
    assert_eq!(exec(&code, &[Value::from_int(1)]).unwrap_err(), VmError::Segfault);
    let code = [ALLOC, 0x00, 0x08, 0, CONST, 0, LOADB, RET];
    assert_eq!(exec(&code, &[Value::from_int(8)]).unwrap_err(), VmError::Segfault);
    assert_eq!(exec(&code, &[Value::from_int(-1)]).unwrap_err(), VmError::Segfault);
}

#[test]
fn null_and_dead_objects_are_segfaults() {
    let code = [CONST, 0, CONST, 1, LOAD, RET];
    assert_eq!(
        exec(&code, &[Value::from_obj(0), Value::from_int(0)]).unwrap_err(),
        VmError::Segfault
    );
    assert_eq!(
        exec(&code, &[Value::from_obj(4096), Value::from_int(0)]).unwrap_err(),
        VmError::Segfault
    );
}

#[test]
fn heap_operands_are_type_checked() {
    let load = [CONST, 0, CONST, 1, LOAD, RET];
    assert_eq!(
        exec(&load, &[Value::from_int(8), Value::from_int(0)]).unwrap_err(),
        VmError::TypeError
    );
    let code = [ALLOC, 0x00, 0x08, 0, CONST, 0, LOAD, RET];
    assert_eq!(exec(&code, &[Value::nil()]).unwrap_err(), VmError::TypeError);
    let storeb = [ALLOC, 0x00, 0x08, 0, CONST, 0, CONST, 1, STOREB, RET];
    assert_eq!(
        exec(&storeb, &[Value::from_int(0), Value::from_bool(true)]).unwrap_err(),
        VmError::TypeError
    );
}

#[test]
fn load_needs_two_operands() {
    assert_eq!(exec(&[ALLOC, 0x00, 0x08, 0, LOAD], &[]).unwrap_err(), VmError::StackUnderflow);
}

#[test]
fn alloc_beyond_the_heap_is_out_of_memory() {
    assert_eq!(exec(&[ALLOC, 0xFF, 0xFF, 0, RET], &[]).unwrap_err(), VmError::OutOfMemory);
}

#[test]
fn truncated_alloc_operands_are_out_of_bounds() {
    assert_eq!(exec(&[ALLOC, 0x00], &[]).unwrap_err(), VmError::IpOutOfBounds);
}

#[test]
fn nogc_blocks_nest_and_unwind() {
    let code = [ENTER_NOGC, ENTER_NOGC, EXIT_NOGC, EXIT_NOGC, EXIT_NOGC, CONST, 0, RET];
    let v = exec(&code, &[Value::from_int(1)]).unwrap();
    assert_eq!(v.as_int(), Some(1));
}

#[test]
fn many_allocations_under_collection_pressure() {
    // Allocates 16-byte objects until the heap is exhausted; collections
    // run on the way but the bump allocator reclaims nothing.
    let mut code = Vec::new();
    for _ in 0..400 {
        code.extend_from_slice(&[ALLOC, 0x00, 0x10, 0]);
    }
    code.push(RET);
    assert_eq!(exec(&code, &[]).unwrap_err(), VmError::OutOfMemory);
}

#[test]
fn set_local_outside_the_frame_left_after_the_pop_is_out_of_range() {
    // Two values, then SET_LOCAL 1: once the value is popped the frame holds
    // one slot, so slot 1 lies outside it.
    let code = [CONST, 0, CONST, 0, SET_LOCAL, 1, RET];
    assert_eq!(exec(&code, &[Value::from_int(5)]).unwrap_err(), VmError::LocalOutOfRange);
    // Slot 0 lies inside it.
    let code = [CONST, 0, CONST, 1, SET_LOCAL, 0, GET_LOCAL, 0, RET];
    let v = exec(&code, &[Value::from_int(5), Value::from_int(9)]).unwrap();
    assert_eq!(v.as_int(), Some(9));
}
