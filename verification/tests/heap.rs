//! Allocators and collectors used directly.
use pillow::heap::allocator::{load_word, Allocator, WalkableAllocator};
use pillow::heap::bump::BumpAllocator;
use pillow::heap::gc::mark_sweep::MarkSweep;
use pillow::heap::gc::reference_counting::ReferenceCounting;
use pillow::heap::gc::{Gc, RootTracer};
use pillow::heap::native::NativeAllocator;
use pillow::value::Value;
use pillow::vm::VmRootTracer;

/// A value stack holding `roots` as objects, with an int between them.
fn stack_of(roots: &[usize]) -> Vec<Value> {
    let mut s = Vec::new();
    for r in roots {
        s.push(Value::from_obj(*r as u64));
        s.push(Value::from_int(1));
    }
    s
}

fn store_word<A: Allocator>(a: &mut A, ptr: usize, offset: usize, word: u64) {
    for (i, b) in word.to_le_bytes().iter().enumerate() {
        assert!(a.store_byte(ptr, offset + i, *b));
    }
}

#[test]
fn bump_allocations_are_aligned_and_counted() {
    let mut heap: BumpAllocator<256> = BumpAllocator::new();
    assert_eq!(heap.bytes_used(), 0);
    let a = heap.allocate(5, false).unwrap();
    assert_eq!(a.size, 5);
    assert_eq!(a.ptr, 8);
    assert_eq!(heap.bytes_used(), 16);
    let b = heap.allocate(16, true).unwrap();
    assert_eq!(b.ptr, 24);
    assert_ne!(a.ptr, b.ptr);
    assert_eq!(heap.bytes_used(), 40);
    assert_eq!(heap.size_of(a.ptr), 5);
    assert_eq!(heap.size_of(b.ptr), 16);
    assert!(!heap.is_traced(a.ptr));
    assert!(heap.is_traced(b.ptr));
}

#[test]
fn bump_allocation_fails_when_full() {
    let mut heap: BumpAllocator<64> = BumpAllocator::new();
    assert!(heap.allocate(40, false).is_some());
    assert_eq!(heap.bytes_used(), 48);
    assert!(heap.allocate(16, false).is_none());
    assert_eq!(heap.bytes_used(), 48);
    assert!(heap.allocate(8, false).is_some());
    assert_eq!(heap.bytes_used(), 64);
    assert!(heap.allocate(0, false).is_none());
}

#[test]
fn bump_bytes_read_back_what_was_written() {
    let mut heap: BumpAllocator<128> = BumpAllocator::new();
    let a = heap.allocate(4, false).unwrap();
    let b = heap.allocate(4, false).unwrap();
    assert!(heap.store_byte(a.ptr, 3, 0xAB));
    assert!(heap.store_byte(b.ptr, 0, 0xCD));
    assert_eq!(heap.load_byte(a.ptr, 3), Some(0xAB));
    assert_eq!(heap.load_byte(b.ptr, 0), Some(0xCD));
    assert!(!heap.store_byte(a.ptr, 4, 1));
    assert_eq!(heap.load_byte(a.ptr, 4), None);
    assert_eq!(heap.load_byte(a.ptr + 1, 0), None);
    assert_eq!(heap.size_of(b.ptr), 4);
}

#[test]
fn words_are_little_endian() {
    let mut heap: BumpAllocator<128> = BumpAllocator::new();
    let a = heap.allocate(16, false).unwrap();
    store_word(&mut heap, a.ptr, 8, 0x0102_0304_0506_0708);
    assert_eq!(heap.load_byte(a.ptr, 8), Some(0x08));
    assert_eq!(heap.load_byte(a.ptr, 15), Some(0x01));
    assert_eq!(load_word(&heap, a.ptr, 8), Some(0x0102_0304_0506_0708));
    assert_eq!(load_word(&heap, a.ptr, 9), None);
}

#[test]
fn mark_bits_follow_set_marked() {
    let mut heap: BumpAllocator<128> = BumpAllocator::new();
    let a = heap.allocate(8, false).unwrap();
    let b = heap.allocate(8, false).unwrap();
    assert!(!heap.is_marked(a.ptr));
    heap.set_marked(a.ptr, true);
    assert!(heap.is_marked(a.ptr));
    assert!(!heap.is_marked(b.ptr));
    heap.set_marked(a.ptr, false);
    assert!(!heap.is_marked(a.ptr));
}

#[test]
fn live_allocations_lists_each_once() {
    let mut heap: BumpAllocator<256> = BumpAllocator::new();
    let a = heap.allocate(3, false).unwrap();
    let b = heap.allocate(24, true).unwrap();
    let c = heap.allocate(0, false).unwrap();
    let live = heap.live_allocations();
    assert_eq!(live, vec![a, b, c]);
    assert!(heap.is_live(a.ptr) && heap.is_live(b.ptr) && heap.is_live(c.ptr));
    assert!(!heap.is_live(a.ptr + 8));
}

#[test]
fn reset_bump_discards_later_allocations() {
    let mut heap: BumpAllocator<256> = BumpAllocator::new();
    let a = heap.allocate(16, false).unwrap();
    let b = heap.allocate(16, false).unwrap();
    let top = heap.bytes_used();
    let c = heap.allocate(16, false).unwrap();
    heap.reset_bump(top);
    assert!(heap.is_live(a.ptr) && heap.is_live(b.ptr));
    assert!(!heap.is_live(c.ptr));
    assert_eq!(heap.bytes_used(), top);
    assert_eq!(heap.live_allocations(), vec![a, b]);
}

#[test]
fn bump_free_keeps_the_allocation() {
    let mut heap: BumpAllocator<64> = BumpAllocator::new();
    let a = heap.allocate(8, false).unwrap();
    heap.free(a.ptr);
    assert!(heap.is_live(a.ptr));
    assert_eq!(heap.bytes_used(), 16);
}

#[test]
fn allocators_report_whether_they_move() {
    assert!(BumpAllocator::<64>::is_moving());
    assert!(!NativeAllocator::is_moving());
}

#[test]
fn native_allocations_are_named_and_counted() {
    let mut heap = NativeAllocator::new();
    let a = heap.allocate(10, true).unwrap();
    let b = heap.allocate(3, false).unwrap();
    assert_eq!(a.ptr, 8);
    assert_eq!(b.ptr, 16);
    assert_eq!(heap.bytes_used(), 13);
    assert!(heap.is_traced(a.ptr) && !heap.is_traced(b.ptr));
    assert_eq!(heap.size_of(a.ptr), 10);
    assert_eq!(heap.load_byte(a.ptr, 9), Some(0));
    assert!(heap.store_byte(a.ptr, 9, 7));
    assert_eq!(heap.load_byte(a.ptr, 9), Some(7));
    assert_eq!(heap.load_byte(a.ptr, 10), None);
}

#[test]
fn native_free_hands_the_name_out_again() {
    let mut heap = NativeAllocator::new();
    let a = heap.allocate(10, false).unwrap();
    let b = heap.allocate(3, false).unwrap();
    heap.free(a.ptr);
    assert!(!heap.is_live(a.ptr));
    assert!(heap.is_live(b.ptr));
    assert_eq!(heap.bytes_used(), 3);
    assert_eq!(heap.load_byte(a.ptr, 0), None);
    assert!(!heap.store_byte(a.ptr, 0, 1));
    let c = heap.allocate(1, false).unwrap();
    assert_eq!(c.ptr, a.ptr);
    assert_eq!(heap.load_byte(c.ptr, 0), Some(0));
    assert_eq!(heap.size_of(c.ptr), 1);
    let d = heap.allocate(2, false).unwrap();
    assert_eq!(d.ptr, 24);
    assert_eq!(heap.bytes_used(), 6);
}

#[test]
fn mark_sweep_triggers_at_the_threshold() {
    let mut heap: BumpAllocator<256> = BumpAllocator::new();
    let mut gc = MarkSweep::new(24);
    assert!(!gc.should_collect(&heap));
    heap.allocate(8, false).unwrap();
    assert!(!gc.should_collect(&heap));
    heap.allocate(1, false).unwrap();
    assert!(gc.should_collect(&heap));
    Gc::<BumpAllocator<256>>::enter_nogc(&mut gc);
    assert!(!gc.should_collect(&heap));
    Gc::<BumpAllocator<256>>::enter_nogc(&mut gc);
    Gc::<BumpAllocator<256>>::exit_nogc(&mut gc);
    assert!(!gc.should_collect(&heap));
    assert!(Gc::<BumpAllocator<256>>::in_nogc(&gc));
    Gc::<BumpAllocator<256>>::exit_nogc(&mut gc);
    assert!(!Gc::<BumpAllocator<256>>::in_nogc(&gc));
    assert!(gc.should_collect(&heap));
}

#[test]
fn unmatched_exit_nogc_changes_nothing() {
    let mut gc = MarkSweep::new(0);
    Gc::<BumpAllocator<64>>::exit_nogc(&mut gc);
    assert!(!Gc::<BumpAllocator<64>>::in_nogc(&gc));
    let heap: BumpAllocator<64> = BumpAllocator::new();
    assert!(gc.should_collect(&heap));
}

#[test]
fn mark_sweep_keeps_roots_and_clears_marks() {
    let mut heap: BumpAllocator<512> = BumpAllocator::new();
    let parent = heap.allocate(16, true).unwrap();
    let child = heap.allocate(8, false).unwrap();
    let garbage = heap.allocate(8, false).unwrap();
    store_word(&mut heap, parent.ptr, 0, Value::from_obj(child.ptr as u64).to_bits());
    store_word(&mut heap, parent.ptr, 8, Value::from_int(5).to_bits());
    let mut gc = MarkSweep::new(0);
    let stack = stack_of(&[parent.ptr]);
    gc.collect(&mut heap, &VmRootTracer { stack: &stack, sp: stack.len() });
    assert!(heap.is_live(parent.ptr));
    assert!(heap.is_live(child.ptr));
    for a in [parent, child, garbage] {
        if heap.is_live(a.ptr) {
            assert!(!heap.is_marked(a.ptr));
        }
    }
    assert_eq!(load_word(&heap, parent.ptr, 8), Some(Value::from_int(5).to_bits()));
}

#[test]
fn reference_counting_never_collects() {
    let mut heap: BumpAllocator<64> = BumpAllocator::new();
    heap.allocate(48, false).unwrap();
    let mut gc = ReferenceCounting::new();
    assert!(!gc.should_collect(&heap));
    Gc::<BumpAllocator<64>>::enter_nogc(&mut gc);
    assert!(Gc::<BumpAllocator<64>>::in_nogc(&gc));
    Gc::<BumpAllocator<64>>::exit_nogc(&mut gc);
    assert!(!Gc::<BumpAllocator<64>>::in_nogc(&gc));
    gc.collect(&mut heap, &VmRootTracer { stack: &[], sp: 0 });
    assert_eq!(heap.bytes_used(), 56);
}

#[test]
fn root_tracer_reports_live_objects_below_the_stack_pointer() {
    let mut stack = stack_of(&[8, 24]);
    stack.push(Value::from_obj(0));
    stack.push(Value::from_obj(40));
    let t = VmRootTracer { stack: &stack, sp: 5 };
    assert_eq!(t.trace_roots(), vec![8, 24]);
    let all = VmRootTracer { stack: &stack, sp: 99 };
    assert_eq!(all.trace_roots(), vec![8, 24, 40]);
}

#[test]
fn mark_sweep_keeps_everything_a_long_chain_reaches() {
    // 300 objects, each holding the next: far more references than the
    // sweep list holds.
    let mut heap: BumpAllocator<16384> = BumpAllocator::new();
    let mut objs = Vec::new();
    for _ in 0..300 {
        objs.push(heap.allocate(8, true).unwrap());
    }
    for w in objs.windows(2) {
        store_word(&mut heap, w[0].ptr, 0, Value::from_obj(w[1].ptr as u64).to_bits());
    }
    let roots: Vec<usize> = objs.iter().map(|a| a.ptr).collect();
    let stack = stack_of(&roots);
    let mut gc = MarkSweep::new(0);
    gc.collect(&mut heap, &VmRootTracer { stack: &stack, sp: stack.len() });
    for a in &objs {
        assert!(heap.is_live(a.ptr));
        assert!(!heap.is_marked(a.ptr));
    }
}
