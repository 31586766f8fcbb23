//! The allocator interface the virtual machine and the collectors program against.
//!
//! An allocator owns the backing memory and hands out variable-size chunks,
//! each named by the offset of its first usable byte. It records what the
//! collector needs of each chunk (its size, its trace bit and its mark bit).
//! It knows nothing of collection policy.
use crate::assembler::disassemble::{le_number, lemma_le_split};
use crate::value::PAYLOAD_MASK;
use vstd::prelude::*;

verus! {

/// What an allocator records of one live allocation.
pub struct Block {
    /// Usable size in bytes, as requested.
    pub size: nat,
    /// Whether the bytes may hold values that the collector must trace.
    pub traced: bool,
    /// The collector's mark bit.
    pub marked: bool,
    /// The usable bytes; as many as `size`.
    pub bytes: Seq<u8>,
}

/// Result of an allocation request.
#[derive(Debug, Clone, Copy, PartialEq, Eq, Structural)]
pub struct Allocation {
    /// Location of the first usable byte; this is what an object value stores.
    pub ptr: usize,
    /// Size of the allocation in bytes, as requested.
    pub size: usize,
}

/// `b` is `a` with its mark bit set to `marked`.
pub open spec fn with_mark(a: Block, marked: bool) -> Block {
    Block { size: a.size, traced: a.traced, marked, bytes: a.bytes }
}

/// `b` is `a` with byte `offset` set to `value`.
pub open spec fn with_byte(a: Block, offset: int, value: u8) -> Block {
    Block { size: a.size, traced: a.traced, marked: a.marked, bytes: a.bytes.update(offset, value) }
}

/// True when `p` names a valid location for a fresh allocation of `size` bytes.
pub open spec fn fresh_allocation(
    before: Map<usize, Block>,
    after: Map<usize, Block>,
    a: Allocation,
    size: usize,
    contains_values: bool,
) -> bool {
    &&& a.size == size
    &&& 0 < a.ptr <= PAYLOAD_MASK
    &&& !before.contains_key(a.ptr)
    &&& after.contains_key(a.ptr)
    &&& after[a.ptr].size == size
    &&& after[a.ptr].traced == contains_values
    &&& !after[a.ptr].marked
    &&& after[a.ptr].bytes.len() == size
    &&& after == before.insert(a.ptr, after[a.ptr])
}

/// Pluggable allocator.
pub trait Allocator: Sized {
    /// Internal consistency of the allocator's own state.
    spec fn wf(&self) -> bool;

    /// The live allocations, keyed by the location of their first usable byte.
    spec fn blocks(&self) -> Map<usize, Block>;

    /// What `bytes_used` reports.
    spec fn used(&self) -> nat;

    /// Whether `free` gives an allocation back at once; otherwise space is
    /// reclaimed only by `reset_bump`.
    spec fn releases() -> bool;

    /// Whether this allocator moves objects during compaction.
    spec fn moving() -> bool;

    /// Whether `reset_bump` may cut the heap back to `new_top`.
    spec fn can_reset_to(&self, new_top: usize) -> bool;

    /// There are finitely many allocations; every recorded size fits a
    /// `usize`, and each block holds that many bytes.
    proof fn lemma_block_sizes(&self)
        requires
            self.wf(),
        ensures
            self.blocks().dom().finite(),
            forall|p: usize| #[trigger]
                self.blocks().contains_key(p) ==> self.blocks()[p].size <= usize::MAX
                    && self.blocks()[p].bytes.len() == self.blocks()[p].size,
    ;

    /// Allocates `size` bytes; `contains_values` is the trace bit. `None` when
    /// the allocator is exhausted, and then nothing changed.
    fn allocate(&mut self, size: usize, contains_values: bool) -> (r: Option<Allocation>)
        requires
            old(self).wf(),
        ensures
            final(self).wf(),
            match r {
                Some(a) => fresh_allocation(
                    old(self).blocks(),
                    final(self).blocks(),
                    a,
                    size,
                    contains_values,
                ),
                None => final(self).blocks() == old(self).blocks(),
            },
    ;

    /// Releases a live allocation, at once where `releases()`; a bump
    /// allocator keeps it until `reset_bump`.
    fn free(&mut self, ptr: usize)
        requires
            old(self).wf(),
            old(self).blocks().contains_key(ptr),
        ensures
            final(self).wf(),
            final(self).blocks() == (if Self::releases() {
                old(self).blocks().remove(ptr)
            } else {
                old(self).blocks()
            }),
    ;

    /// True when `ptr` names a live allocation of this allocator.
    fn is_live(&self, ptr: usize) -> (r: bool)
        requires
            self.wf(),
        ensures
            r == self.blocks().contains_key(ptr),
    ;

    /// The size recorded at allocation time.
    fn size_of(&self, ptr: usize) -> (r: usize)
        requires
            self.wf(),
            self.blocks().contains_key(ptr),
        ensures
            r == self.blocks()[ptr].size,
    ;

    /// The trace bit recorded at allocation time.
    fn is_traced(&self, ptr: usize) -> (r: bool)
        requires
            self.wf(),
            self.blocks().contains_key(ptr),
        ensures
            r == self.blocks()[ptr].traced,
    ;

    /// Discards every allocation whose location lies above `new_top`, a
    /// position that `can_reset_to` admits.
    fn reset_bump(&mut self, new_top: usize)
        requires
            old(self).wf(),
            old(self).can_reset_to(new_top),
        ensures
            final(self).wf(),
            final(self).blocks() == old(self).blocks().restrict(
                Set::new(|p: usize| p <= new_top),
            ),
    ;

    fn is_moving() -> (r: bool)
        ensures
            r == Self::moving(),
    ;

    /// Bytes currently allocated; whether headers count depends on the allocator.
    fn bytes_used(&self) -> (r: usize)
        requires
            self.wf(),
        ensures
            r == self.used(),
    ;

    fn set_marked(&mut self, ptr: usize, marked: bool)
        requires
            old(self).wf(),
            old(self).blocks().contains_key(ptr),
        ensures
            final(self).wf(),
            final(self).used() == old(self).used(),
            final(self).blocks() == old(self).blocks().insert(
                ptr,
                with_mark(old(self).blocks()[ptr], marked),
            ),
    ;

    fn is_marked(&self, ptr: usize) -> (r: bool)
        requires
            self.wf(),
            self.blocks().contains_key(ptr),
        ensures
            r == self.blocks()[ptr].marked,
    ;

    /// Reads usable byte `offset` of the allocation at `ptr`; `None` when `ptr`
    /// is not live or the offset is outside it.
    fn load_byte(&self, ptr: usize, offset: usize) -> (r: Option<u8>)
        requires
            self.wf(),
        ensures
            r == (if self.blocks().contains_key(ptr) && offset < self.blocks()[ptr].size {
                Some(self.blocks()[ptr].bytes[offset as int])
            } else {
                None
            }),
    ;

    /// Writes usable byte `offset` of the allocation at `ptr`; false, with
    /// nothing written, when `ptr` is not live or the offset is outside it.
    fn store_byte(&mut self, ptr: usize, offset: usize, value: u8) -> (r: bool)
        requires
            old(self).wf(),
        ensures
            final(self).wf(),
            final(self).used() == old(self).used(),
            r == (old(self).blocks().contains_key(ptr) && offset < old(self).blocks()[ptr].size),
            r ==> final(self).blocks() == old(self).blocks().insert(
                ptr,
                with_byte(old(self).blocks()[ptr], offset as int, value),
            ),
            !r ==> final(self).blocks() == old(self).blocks(),
    ;
}

/// An allocator that can enumerate its live allocations.
pub trait WalkableAllocator: Allocator {
    /// Every live allocation exactly once, with its recorded size, in an
    /// unspecified order.
    fn live_allocations(&self) -> (r: Vec<Allocation>)
        requires
            self.wf(),
        ensures
            forall|i: int|
                0 <= i < r@.len() ==> self.blocks().contains_key(#[trigger] r@[i].ptr)
                    && r@[i].size == self.blocks()[r@[i].ptr].size,
            forall|p: usize|
                self.blocks().contains_key(p) ==> exists|i: int|
                    0 <= i < r@.len() && #[trigger] r@[i].ptr == p,
            forall|i: int, j: int|
                0 <= i < j < r@.len() ==> #[trigger] r@[i].ptr != #[trigger] r@[j].ptr,
    ;
}

/// True when `width` bytes from `o` lie inside the live allocation at `p`.
pub open spec fn in_block(blocks: Map<usize, Block>, p: usize, o: int, width: nat) -> bool {
    blocks.contains_key(p) && 0 <= o && o + width <= blocks[p].size
}

/// Reads the 8-byte little-endian word at offset `o` of the allocation at `p`.
pub fn load_word<A: Allocator>(alloc: &A, p: usize, o: usize) -> (r: Option<u64>)
    requires
        alloc.wf(),
    ensures
        r == (if in_block(alloc.blocks(), p, o as int, 8) {
            Some(le_number(alloc.blocks()[p].bytes, o as int, 8) as u64)
        } else {
            None
        }),
{
    proof {
        alloc.lemma_block_sizes();
    }
    if o > usize::MAX - 7 {
        return None;
    }
    let b7 = match alloc.load_byte(p, o + 7) {
        Some(b) => b,
        None => return None,
    };
    let b0 = match alloc.load_byte(p, o) {
        Some(b) => b,
        None => return None,
    };
    let b1 = match alloc.load_byte(p, o + 1) {
        Some(b) => b,
        None => return None,
    };
    let b2 = match alloc.load_byte(p, o + 2) {
        Some(b) => b,
        None => return None,
    };
    let b3 = match alloc.load_byte(p, o + 3) {
        Some(b) => b,
        None => return None,
    };
    let b4 = match alloc.load_byte(p, o + 4) {
        Some(b) => b,
        None => return None,
    };
    let b5 = match alloc.load_byte(p, o + 5) {
        Some(b) => b,
        None => return None,
    };
    let b6 = match alloc.load_byte(p, o + 6) {
        Some(b) => b,
        None => return None,
    };
    let lo = b0 as u64 + (b1 as u64) * 0x100 + (b2 as u64) * 0x1_0000 + (b3 as u64) * 0x100_0000;
    let hi = b4 as u64 + (b5 as u64) * 0x100 + (b6 as u64) * 0x1_0000 + (b7 as u64) * 0x100_0000;
    proof {
        let bytes = alloc.blocks()[p].bytes;
        reveal_with_fuel(le_number, 5);
        lemma_le_split(bytes, o as int);
        assert(lo == le_number(bytes, o as int, 4));
        assert(hi == le_number(bytes, o + 4, 4));
    }
    Some(lo + hi * 0x1_0000_0000)
}

} // verus!
