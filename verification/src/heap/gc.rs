//! The collector interface. The machine owns both the allocator and the
//! collector and hands the allocator to every collector operation.
pub mod mark_sweep;
pub mod reference_counting;

use crate::assembler::disassemble::le_number;
use crate::heap::allocator::{Allocator, Block};
use crate::value::{bits_is_obj, payload_of};
use vstd::prelude::*;

verus! {

/// Enumerates the root set: every heap location that the machine holds directly.
pub trait RootTracer {
    /// The root locations, in the order they are reported.
    spec fn roots(&self) -> Seq<usize>;

    /// Reports each live heap location in the root set once per occurrence.
    fn trace_roots(&self) -> (r: Vec<usize>)
        ensures
            r@ == self.roots(),
    ;
}

/// A block that survived a collection: the same allocation, with only its mark
/// bit possibly changed.
pub open spec fn survives(before: Block, after: Block) -> bool {
    after.size == before.size && after.traced == before.traced && after.bytes == before.bytes
}

/// What every collection guarantees: it only removes allocations, and leaves
/// the contents of the ones it keeps untouched.
pub open spec fn collection_keeps(before: Map<usize, Block>, after: Map<usize, Block>) -> bool {
    &&& after.dom().subset_of(before.dom())
    &&& forall|p: usize| #[trigger] after.contains_key(p) ==> survives(before[p], after[p])
}

/// The location an object word refers to: none unless it is a non-null
/// object value.
pub open spec fn word_children(bits: u64) -> Seq<usize> {
    if bits_is_obj(bits) && payload_of(bits) != 0 {
        seq![payload_of(bits) as usize]
    } else {
        seq![]
    }
}

/// The locations the first `n` 8-byte words of `bytes` refer to, in order.
pub open spec fn words_children(bytes: Seq<u8>, n: nat) -> Seq<usize>
    decreases n,
{
    if n == 0 {
        seq![]
    } else {
        words_children(bytes, (n - 1) as nat) + word_children(
            le_number(bytes, 8 * (n - 1), 8) as u64,
        )
    }
}

/// The locations an allocation refers to: the object values among its whole
/// words, when it is traced.
pub open spec fn children(b: Block) -> Seq<usize> {
    if b.traced {
        words_children(b.bytes, b.size / 8)
    } else {
        seq![]
    }
}

/// A path of references from a root: every step goes from an allocation to
/// one it refers to, and every allocation on it is live.
pub open spec fn is_path(blocks: Map<usize, Block>, roots: Seq<usize>, path: Seq<usize>) -> bool {
    &&& path.len() > 0
    &&& roots.contains(path[0])
    &&& forall|i: int| 0 <= i < path.len() ==> blocks.contains_key(#[trigger] path[i])
    &&& forall|i: int|
        0 <= i < path.len() - 1 ==> children(blocks[path[i]]).contains(#[trigger] path[i + 1])
}

/// `q` is live and can be reached from the roots by following references.
pub open spec fn reachable(blocks: Map<usize, Block>, roots: Seq<usize>, q: usize) -> bool {
    exists|path: Seq<usize>| is_path(blocks, roots, path) && path.last() == q
}

/// No allocation carries a mark bit: the state between collections.
pub open spec fn no_marks(blocks: Map<usize, Block>) -> bool {
    forall|p: usize| #[trigger] blocks.contains_key(p) ==> !blocks[p].marked
}

/// The nesting depth after entering a `nogc{}` block at depth `d`; the
/// count stays at its maximum if it gets there.
pub open spec fn depth_after_enter(d: nat) -> nat {
    if d < u32::MAX {
        d + 1
    } else {
        d
    }
}

/// The nesting depth after leaving a `nogc{}` block at depth `d`; leaving
/// one that was never entered changes nothing.
pub open spec fn depth_after_exit(d: nat) -> nat {
    if d > 0 {
        (d - 1) as nat
    } else {
        0
    }
}

/// The depth after a sequence of enters (`true`) and exits (`false`) from `d`.
pub open spec fn depth_after(d: nat, ops: Seq<bool>) -> nat
    decreases ops.len(),
{
    if ops.len() == 0 {
        d
    } else if ops.last() {
        depth_after_enter(depth_after(d, ops.drop_last()))
    } else {
        depth_after_exit(depth_after(d, ops.drop_last()))
    }
}

/// The number of enters minus the number of exits.
pub open spec fn open_blocks(ops: Seq<bool>) -> int
    decreases ops.len(),
{
    if ops.len() == 0 {
        0
    } else {
        open_blocks(ops.drop_last()) + if ops.last() {
            1
        } else {
            -1
        }
    }
}

/// Nested `nogc{}` blocks: from no block, a sequence of enters and exits in
/// which no prefix leaves more blocks than it entered ends at a depth equal
/// to the blocks still open. So a collector is outside every block exactly
/// when each enter has been matched by an exit.
pub proof fn law_nested_nogc(ops: Seq<bool>)
    requires
        ops.len() <= u32::MAX,
        forall|i: int| 0 <= i <= ops.len() ==> open_blocks(#[trigger] ops.take(i)) >= 0,
    ensures
        depth_after(0, ops) == open_blocks(ops),
        open_blocks(ops) <= ops.len(),
    decreases ops.len(),
{
    if ops.len() > 0 {
        let init = ops.drop_last();
        assert forall|i: int| 0 <= i <= init.len() implies open_blocks(#[trigger] init.take(i)) >= 0 by {
            assert(init.take(i) =~= ops.take(i));
        }
        law_nested_nogc(init);
        assert(ops.take(ops.len() as int) =~= ops);
    }
}

/// Pluggable collector.
pub trait Gc<A: Allocator>: Sized {
    /// Nesting depth of `nogc{}` blocks; no collection starts while it is nonzero.
    spec fn nogc_depth(&self) -> nat;

    /// What `should_collect` answers for this allocator state.
    spec fn wants_collection(&self, alloc: &A) -> bool;

    /// Asked before every allocation; when true the machine collects first.
    fn should_collect(&self, alloc: &A) -> (r: bool)
        requires
            alloc.wf(),
        ensures
            r == self.wants_collection(alloc),
            r ==> self.nogc_depth() == 0,
    ;

    /// Runs a collection cycle over `alloc`, with `tracer` giving the roots.
    /// Starting between collections, it keeps every allocation reachable
    /// from the roots and leaves no mark behind.
    fn collect<T: RootTracer>(&mut self, alloc: &mut A, tracer: &T)
        requires
            old(alloc).wf(),
            old(self).nogc_depth() == 0,
        ensures
            final(alloc).wf(),
            final(self).nogc_depth() == old(self).nogc_depth(),
            collection_keeps(old(alloc).blocks(), final(alloc).blocks()),
            no_marks(old(alloc).blocks()) ==> no_marks(final(alloc).blocks()),
            no_marks(old(alloc).blocks()) ==> forall|q: usize|
                #[trigger] reachable(old(alloc).blocks(), tracer.roots(), q)
                    ==> final(alloc).blocks().contains_key(q),
    ;

    /// Enters a `nogc{}` block.
    fn enter_nogc(&mut self)
        ensures
            final(self).nogc_depth() == depth_after_enter(old(self).nogc_depth()),
    ;

    /// Leaves a `nogc{}` block; leaving one that was never entered changes nothing.
    fn exit_nogc(&mut self)
        ensures
            final(self).nogc_depth() == depth_after_exit(old(self).nogc_depth()),
    ;

    fn in_nogc(&self) -> (r: bool)
        ensures
            r == (self.nogc_depth() > 0),
    ;
}

} // verus!
