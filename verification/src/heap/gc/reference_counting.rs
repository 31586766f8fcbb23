//! Reference counting: the counting happens where values are copied and
//! dropped, so the collector itself never collects.
use crate::heap::allocator::Allocator;
use crate::heap::gc::{depth_after_enter, depth_after_exit, Gc, RootTracer};
use vstd::prelude::*;

verus! {

pub struct ReferenceCounting {
    nogc_depth: u32,
}

impl ReferenceCounting {
    pub fn new() -> (r: Self)
        ensures
            r.depth() == 0,
    {
        ReferenceCounting { nogc_depth: 0 }
    }

    /// Nesting depth of `nogc{}` blocks.
    pub closed spec fn depth(&self) -> nat {
        self.nogc_depth as nat
    }

    /// The `nogc` depth the `Gc` interface sees is this collector's depth.
    pub proof fn lemma_collector_state<A: Allocator>(&self)
        ensures
            <ReferenceCounting as Gc<A>>::nogc_depth(self) == self.depth(),
    {
    }
}

impl<A: Allocator> Gc<A> for ReferenceCounting {
    closed spec fn nogc_depth(&self) -> nat {
        self.nogc_depth as nat
    }

    open spec fn wants_collection(&self, alloc: &A) -> bool {
        false
    }

    fn in_nogc(&self) -> (r: bool) {
        self.nogc_depth > 0
    }

    /// Counts nested blocks; the count stays at its maximum if it gets there.
    fn enter_nogc(&mut self)
        ensures
            final(self).depth() == depth_after_enter(old(self).depth()),
    {
        if self.nogc_depth < u32::MAX {
            self.nogc_depth += 1;
        }
    }

    fn exit_nogc(&mut self)
        ensures
            final(self).depth() == depth_after_exit(old(self).depth()),
    {
        if self.nogc_depth > 0 {
            self.nogc_depth -= 1;
        }
    }

    fn should_collect(&self, alloc: &A) -> (r: bool) {
        false
    }

    /// Nothing to do: memory is reclaimed as counts drop to zero.
    fn collect<T: RootTracer>(&mut self, alloc: &mut A, tracer: &T)
        ensures
            *final(alloc) == *old(alloc),
            final(self).depth() == old(self).depth(),
    {
    }
}

} // verus!
