//! The default heap configuration: a bump allocator with a mark-and-sweep
//! collector.
use crate::heap::bump::BumpAllocator;
use crate::heap::gc::mark_sweep::MarkSweep;
use crate::heap::allocator::{Allocator, Block};
use vstd::prelude::*;

verus! {

/// The heap size for the bump allocator: 64 KiB.
pub const HEAP_SIZE: usize = 65536;

/// Constructs the active allocator with its defaults.
pub fn make_allocator() -> (r: BumpAllocator<HEAP_SIZE>)
    ensures
        r.wf(),
        r.blocks() == Map::<usize, Block>::empty(),
        r.used() == 0,
{
    BumpAllocator::new()
}

/// Constructs the active collector: it collects at 75% of the heap.
pub fn make_gc() -> (r: MarkSweep)
    ensures
        r.threshold() == HEAP_SIZE * 3 / 4,
        r.depth() == 0,
{
    MarkSweep::new(HEAP_SIZE * 3 / 4)
}

} // verus!
