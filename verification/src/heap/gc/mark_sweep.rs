//! A stop-the-world mark-and-sweep collector.
//!
//! Marking starts from the roots and follows every object value stored in a
//! traced allocation; the worklist grows as needed, so no reference is ever
//! dropped. The sweep frees at most `WORKLIST_CAP` unmarked allocations per
//! cycle, leaving the rest for the next one.
use crate::heap::allocator::{
    load_word, with_mark, Allocation, Allocator, Block, WalkableAllocator,
};
use crate::heap::gc::{depth_after_enter, depth_after_exit, 
    children, collection_keeps, is_path, no_marks, reachable, survives, words_children,
    word_children, Gc, RootTracer,
};
use crate::value::Value;
use vstd::prelude::*;

verus! {

/// Capacity of the list of allocations freed in one sweep.
pub const WORKLIST_CAP: usize = 256;

/// The unmarked live allocations.
pub open spec fn unmarked(blocks: Map<usize, Block>) -> Set<usize> {
    blocks.dom().filter(|p: usize| !blocks[p].marked)
}

/// The live allocations that the roots do not reach.
pub open spec fn garbage(blocks: Map<usize, Block>, roots: Seq<usize>) -> Set<usize> {
    blocks.dom().filter(|q: usize| !reachable(blocks, roots, q))
}

/// `after` is `before` with the mark bits of some allocations set.
pub open spec fn only_marked(before: Map<usize, Block>, after: Map<usize, Block>) -> bool {
    &&& after.dom() == before.dom()
    &&& forall|p: usize|
        #[trigger] after.contains_key(p) ==> survives(before[p], after[p]) && (before[p].marked
            ==> after[p].marked)
}

pub struct MarkSweep {
    /// Collect once the allocator reports at least this many bytes in use.
    threshold: usize,
    /// Depth of `nogc{}` blocks; collection is suppressed while nonzero.
    nogc_depth: u32,
}

impl MarkSweep {
    /// `threshold` is the byte usage (headers included or not, as the
    /// allocator counts) at which a collection is triggered.
    pub fn new(threshold: usize) -> (r: Self)
        ensures
            r.threshold() == threshold,
            r.depth() == 0,
    {
        MarkSweep { threshold, nogc_depth: 0 }
    }

    pub closed spec fn threshold(&self) -> nat {
        self.threshold as nat
    }

    /// Nesting depth of `nogc{}` blocks.
    pub closed spec fn depth(&self) -> nat {
        self.nogc_depth as nat
    }

    /// The collector's state as the `Gc` interface sees it: its `nogc`
    /// depth, and a collection wanted outside `nogc` blocks once usage
    /// reaches the threshold.
    pub proof fn lemma_collector_state<A: WalkableAllocator>(&self, alloc: &A)
        ensures
            <MarkSweep as Gc<A>>::nogc_depth(self) == self.depth(),
            <MarkSweep as Gc<A>>::wants_collection(self, alloc) == (self.depth() == 0
                && alloc.used() >= self.threshold()),
    {
    }

    /// Marks the allocation at `ptr` and queues the locations it refers to.
    /// True when it was live and not yet marked.
    fn mark_object<A: Allocator>(ptr: usize, alloc: &mut A, worklist: &mut Vec<usize>) -> (r: bool)
        requires
            old(alloc).wf(),
        ensures
            final(alloc).wf(),
            r == (old(alloc).blocks().contains_key(ptr) && !old(alloc).blocks()[ptr].marked),
            r ==> final(alloc).blocks() == old(alloc).blocks().insert(
                ptr,
                with_mark(old(alloc).blocks()[ptr], true),
            ),
            r ==> final(worklist)@ == old(worklist)@ + children(old(alloc).blocks()[ptr]),
            !r ==> final(alloc).blocks() == old(alloc).blocks(),
            !r ==> final(worklist)@ == old(worklist)@,
    {
        if !alloc.is_live(ptr) {
            return false;
        }
        if alloc.is_marked(ptr) {
            return false;
        }
        let ghost b = alloc.blocks()[ptr];
        alloc.set_marked(ptr, true);
        if alloc.is_traced(ptr) {
            let size = alloc.size_of(ptr);
            let words = size / 8;
            let ghost wl0 = worklist@;
            let mut i: usize = 0;
            proof {
                assert(wl0 + Seq::<usize>::empty() =~= wl0);
            }
            while i < words
                invariant
                    alloc.wf(),
                    alloc.blocks() == old(alloc).blocks().insert(ptr, with_mark(b, true)),
                    b == old(alloc).blocks()[ptr],
                    b.traced,
                    b.size == size,
                    words == size / 8,
                    i <= words,
                    worklist@ == wl0 + words_children(b.bytes, i as nat),
                decreases words - i,
            {
                proof {
                    alloc.lemma_block_sizes();
                    assert(i * 8 + 8 <= size) by (nonlinear_arith)
                        requires
                            i < words,
                            words == size / 8,
                    ;
                }
                let bits = match load_word(alloc, ptr, i * 8) {
                    Some(w) => w,
                    None => 0,
                };
                let ghost all = wl0 + words_children(b.bytes, i as nat);
                if let Some(child) = Value::from_bits(bits).as_obj() {
                    if child != 0 {
                        worklist.push(child as usize);
                    }
                }
                proof {
                    let next = words_children(b.bytes, (i + 1) as nat);
                    assert(next == words_children(b.bytes, i as nat) + word_children(bits));
                    assert(wl0 + next =~= all + word_children(bits));
                    if word_children(bits).len() == 0 {
                        assert(all + word_children(bits) =~= all);
                    } else {
                        assert(worklist@ =~= all + word_children(bits));
                    }
                }
                i += 1;
            }
        } else {
            proof {
                assert(worklist@ + Seq::<usize>::empty() =~= worklist@);
            }
        }
        true
    }
}

/// Marking never unmarks, and the count of unmarked allocations is finite.
proof fn lemma_unmarked_shrinks(before: Map<usize, Block>, ptr: usize)
    requires
        before.dom().finite(),
        before.contains_key(ptr),
        !before[ptr].marked,
    ensures
        unmarked(before.insert(ptr, with_mark(before[ptr], true))).len() < unmarked(before).len(),
        unmarked(before).finite(),
{
    let after = before.insert(ptr, with_mark(before[ptr], true));
    vstd::set_lib::lemma_set_subset_finite(before.dom(), unmarked(before));
    assert(unmarked(after) =~= unmarked(before).remove(ptr));
}

/// Every reference out of a marked allocation leads to a marked allocation,
/// to a dead location, or to one still queued in `wl`.
spec fn queued_or_marked(start: Map<usize, Block>, cur: Map<usize, Block>, wl: Seq<usize>) -> bool {
    forall|p: usize, c: usize|
        #![trigger cur[p], children(start[p]).contains(c)]
        cur.contains_key(p) && cur[p].marked && children(start[p]).contains(c) && cur.contains_key(c)
            ==> cur[c].marked || wl.contains(c)
}

/// Every reference out of a marked allocation leads to a marked allocation or
/// to a dead location.
spec fn marks_closed(start: Map<usize, Block>, cur: Map<usize, Block>) -> bool {
    forall|p: usize, c: usize|
        #![trigger cur[p], children(start[p]).contains(c)]
        cur.contains_key(p) && cur[p].marked && children(start[p]).contains(c) && cur.contains_key(c)
            ==> cur[c].marked
}

/// One step of draining the worklist keeps every marked allocation's
/// references marked or queued.
proof fn lemma_drain_step(
    start: Map<usize, Block>,
    cur: Map<usize, Block>,
    cur2: Map<usize, Block>,
    wl_popped: Seq<usize>,
    wl_after: Seq<usize>,
    ptr: usize,
    r: bool,
)
    requires
        only_marked(start, cur),
        r == (cur.contains_key(ptr) && !cur[ptr].marked),
        r ==> cur2 == cur.insert(ptr, with_mark(cur[ptr], true)),
        r ==> wl_after == wl_popped + children(cur[ptr]),
        !r ==> cur2 == cur && wl_after == wl_popped,
        queued_or_marked(start, cur, wl_popped.push(ptr)),
    ensures
        queued_or_marked(start, cur2, wl_after),
{
    let wl = wl_popped.push(ptr);
    if r {
        assert(children(cur[ptr]) == children(start[ptr]));
        assert forall|p: usize, c: usize|
            cur2.contains_key(p) && cur2[p].marked && children(start[p]).contains(c)
                && cur2.contains_key(c) implies cur2[c].marked || wl_after.contains(c) by {
            if p == ptr {
                let k = children(start[ptr]).index_of(c);
                assert(wl_after[wl_popped.len() + k] == c);
            } else if c != ptr && !cur[c].marked {
                assert(cur[p].marked);
                let k = wl.index_of(c);
                assert(wl_popped[k] == c);
                assert(wl_after[k] == c);
            }
        }
    } else {
        assert forall|p: usize, c: usize|
            cur2.contains_key(p) && cur2[p].marked && children(start[p]).contains(c)
                && cur2.contains_key(c) implies cur2[c].marked || wl_after.contains(c) by {
            if !cur[c].marked {
                let k = wl.index_of(c);
                if k < wl_popped.len() {
                    assert(wl_popped[k] == c);
                }
            }
        }
    }
}

/// A live root is reachable.
proof fn lemma_root_reachable(start: Map<usize, Block>, roots: Seq<usize>, k: int)
    requires
        0 <= k < roots.len(),
        start.contains_key(roots[k]),
    ensures
        reachable(start, roots, roots[k]),
{
    let path = seq![roots[k]];
    assert(roots[k] == path[0]);
    assert(roots.contains(path[0]));
    assert(is_path(start, roots, path) && path.last() == roots[k]);
}

/// What a reachable allocation refers to, if live, is reachable.
proof fn lemma_reachable_child(start: Map<usize, Block>, roots: Seq<usize>, p: usize, c: usize)
    requires
        reachable(start, roots, p),
        start.contains_key(c),
        children(start[p]).contains(c),
    ensures
        reachable(start, roots, c),
{
    let path = choose|path: Seq<usize>| is_path(start, roots, path) && path.last() == p;
    let path2 = path.push(c);
    assert forall|i: int| 0 <= i < path2.len() implies start.contains_key(#[trigger] path2[i]) by {
        if i < path.len() {
            assert(path2[i] == path[i]);
        }
    }
    assert forall|i: int| 0 <= i < path2.len() - 1 implies children(start[path2[i]]).contains(
        #[trigger] path2[i + 1],
    ) by {
        assert(path2[i] == path[i]);
        if i < path.len() - 1 {
            assert(path2[i + 1] == path[i + 1]);
        }
    }
    assert(path2[0] == path[0]);
    assert(is_path(start, roots, path2));
    assert(path2.last() == c);
}

/// Along a path from marked roots, marks that are closed under references
/// reach its end.
proof fn lemma_path_marked(
    start: Map<usize, Block>,
    m: Map<usize, Block>,
    roots: Seq<usize>,
    path: Seq<usize>,
)
    requires
        only_marked(start, m),
        marks_closed(start, m),
        forall|i: int| 0 <= i < roots.len() && start.contains_key(#[trigger] roots[i]) ==> m[roots[i]].marked,
        is_path(start, roots, path),
    ensures
        m[path.last()].marked,
    decreases path.len(),
{
    if path.len() == 1 {
        let i = roots.index_of(path[0]);
        assert(start.contains_key(path[0]));
    } else {
        let init = path.drop_last();
        assert(is_path(start, roots, init)) by {
            assert forall|i: int| 0 <= i < init.len() implies start.contains_key(#[trigger] init[i]) by {
                assert(init[i] == path[i]);
            }
            assert forall|i: int| 0 <= i < init.len() - 1 implies children(start[init[i]]).contains(
                #[trigger] init[i + 1],
            ) by {
                assert(init[i] == path[i] && init[i + 1] == path[i + 1]);
            }
        }
        lemma_path_marked(start, m, roots, init);
        let i = path.len() - 2;
        assert(init.last() == path[i]);
        assert(children(start[path[i]]).contains(path[i + 1]));
        assert(start.contains_key(path[i + 1]));
    }
}

impl<A: WalkableAllocator> Gc<A> for MarkSweep {
    closed spec fn nogc_depth(&self) -> nat {
        self.nogc_depth as nat
    }

    /// Outside `nogc{}` blocks, once usage reaches the threshold.
    closed spec fn wants_collection(&self, alloc: &A) -> bool {
        self.nogc_depth == 0 && alloc.used() >= self.threshold
    }

    fn should_collect(&self, alloc: &A) -> (r: bool)
        ensures
            r == (self.depth() == 0 && alloc.used() >= self.threshold()),
    {
        if self.nogc_depth > 0 {
            return false;
        }
        alloc.bytes_used() >= self.threshold
    }

    /// Marks from the roots, then sweeps: unmarked allocations are freed, up
    /// to `WORKLIST_CAP` of them, and the mark bits of the others cleared.
    /// Every root survives. Starting between collections, everything the
    /// roots reach survives, and with an allocator that frees at once exactly
    /// `min(WORKLIST_CAP, garbage)` unreachable allocations go: all of them
    /// when there are no more than `WORKLIST_CAP`.
    fn collect<T: RootTracer>(&mut self, alloc: &mut A, tracer: &T)
        ensures
            final(self).threshold() == old(self).threshold(),
            no_marks(final(alloc).blocks()),
            forall|i: int|
                0 <= i < tracer.roots().len() && old(alloc).blocks().contains_key(
                    #[trigger] tracer.roots()[i],
                ) ==> final(alloc).blocks().contains_key(tracer.roots()[i]),
            A::releases() && no_marks(old(alloc).blocks()) ==> ({
                let freed = old(alloc).blocks().dom().difference(final(alloc).blocks().dom());
                let g = garbage(old(alloc).blocks(), tracer.roots());
                &&& freed.subset_of(g)
                &&& freed.len() == (if g.len() <= WORKLIST_CAP {
                    g.len()
                } else {
                    WORKLIST_CAP as nat
                })
                &&& g.len() <= WORKLIST_CAP ==> freed == g
            }),
    {
        let mut worklist = tracer.trace_roots();
        let ghost rs = worklist@;
        let ghost start = alloc.blocks();
        let ghost nm = no_marks(start);
        proof {
            assert(only_marked(start, start));
            if nm {
                assert forall|k: int|
                    0 <= k < worklist@.len() && start.contains_key(
                        #[trigger] worklist@[k],
                    ) implies reachable(start, rs, worklist@[k]) by {
                    lemma_root_reachable(start, rs, k);
                }
            }
        }
        while worklist.len() > 0
            invariant
                alloc.wf(),
                collection_keeps(old(alloc).blocks(), alloc.blocks()),
                only_marked(start, alloc.blocks()),
                start == old(alloc).blocks(),
                rs == tracer.roots(),
                nm == no_marks(start),
                forall|m: int|
                    0 <= m < rs.len() && start.contains_key(#[trigger] rs[m]) ==> alloc.blocks()[rs[m]].marked
                        || worklist@.contains(rs[m]),
                nm ==> queued_or_marked(start, alloc.blocks(), worklist@),
                nm ==> forall|p: usize|
                    #[trigger] alloc.blocks().contains_key(p) && alloc.blocks()[p].marked
                        ==> reachable(start, rs, p),
                nm ==> forall|k: int|
                    0 <= k < worklist@.len() && start.contains_key(#[trigger] worklist@[k])
                        ==> reachable(start, rs, worklist@[k]),
            decreases unmarked(alloc.blocks()).len(), worklist@.len(),
        {
            proof {
                alloc.lemma_block_sizes();
                vstd::set_lib::lemma_set_subset_finite(alloc.blocks().dom(), unmarked(alloc.blocks()));
            }
            let ghost wl_before = worklist@;
            let ptr = match worklist.pop() {
                Some(p) => p,
                None => 0,
            };
            let ghost wl_popped = worklist@;
            let ghost before = alloc.blocks();
            let marked = Self::mark_object(ptr, alloc, &mut worklist);
            proof {
                assert(wl_before =~= wl_popped.push(ptr));
                assert(wl_before[wl_before.len() - 1] == ptr);
                if marked {
                    lemma_unmarked_shrinks(before, ptr);
                    assert(alloc.blocks().dom() =~= before.dom());
                }
                if nm {
                    lemma_drain_step(start, before, alloc.blocks(), wl_popped, worklist@, ptr, marked);
                    assert forall|p: usize|
                        #[trigger] alloc.blocks().contains_key(p) && alloc.blocks()[p].marked implies reachable(
                        start,
                        rs,
                        p,
                    ) by {
                        if p == ptr && marked {
                            assert(start.contains_key(ptr));
                        }
                    }
                    assert forall|k: int|
                        0 <= k < worklist@.len() && start.contains_key(
                            #[trigger] worklist@[k],
                        ) implies reachable(start, rs, worklist@[k]) by {
                        if k < wl_popped.len() {
                            assert(wl_before[k] == wl_popped[k]);
                            assert(worklist@[k] == wl_popped[k]);
                        } else {
                            let c = worklist@[k];
                            assert(children(start[ptr])[k - wl_popped.len()] == c);
                            assert(children(start[ptr]).contains(c));
                            lemma_reachable_child(start, rs, ptr, c);
                        }
                    }
                }
                assert forall|m: int|
                    0 <= m < rs.len() && start.contains_key(#[trigger] rs[m]) implies alloc.blocks()[rs[m]].marked
                    || worklist@.contains(rs[m]) by {
                    let r = rs[m];
                    if !before[r].marked {
                        let w = wl_before.index_of(r);
                        if w < wl_popped.len() {
                            assert(wl_popped[w] == r);
                            assert(worklist@[w] == r);
                        } else {
                            assert(r == ptr);
                        }
                    }
                }
            }
        }
        let ghost marked_state = alloc.blocks();
        proof {
            assert(marked_state.dom() == start.dom());
            assert forall|m: int|
                0 <= m < rs.len() && start.contains_key(#[trigger] rs[m]) implies marked_state[rs[m]].marked by {
                assert(!worklist@.contains(rs[m]));
            }
            if nm {
                let cur = marked_state;
                assert forall|p: usize, c: usize|
                    #![trigger cur[p], children(start[p]).contains(c)]
                    cur.contains_key(p) && cur[p].marked && children(start[p]).contains(c)
                        && cur.contains_key(c) implies cur[c].marked by {
                    assert(!worklist@.contains(c));
                }
            }
        }
        // Sweep. Allocations cannot be freed while the allocator is walked, so
        // the unmarked ones are listed first, as many as the list holds.
        let live = alloc.live_allocations();
        proof {
            alloc.lemma_block_sizes();
        }
        let mut to_free: Vec<usize> = Vec::new();
        let ghost mut seen: Seq<usize> = Seq::empty();
        let mut j: usize = 0;
        while j < live.len()
            invariant
                alloc.wf(),
                collection_keeps(old(alloc).blocks(), alloc.blocks()),
                j <= live@.len(),
                alloc.blocks().dom() == marked_state.dom(),
                marked_state.dom() == start.dom(),
                forall|t: int|
                    0 <= t < live@.len() ==> marked_state.contains_key(#[trigger] live@[t].ptr),
                forall|t: int, u: int|
                    0 <= t < u < live@.len() ==> #[trigger] live@[t].ptr != #[trigger] live@[u].ptr,
                forall|q: usize|
                    marked_state.contains_key(q) ==> exists|t: int|
                        0 <= t < live@.len() && #[trigger] live@[t].ptr == q,
                forall|q: usize|
                    #[trigger] alloc.blocks().contains_key(q) ==> if live@.take(j as int).map_values(
                        |a: Allocation| a.ptr,
                    ).contains(q) {
                        !alloc.blocks()[q].marked
                    } else {
                        alloc.blocks()[q].marked == marked_state[q].marked
                    },
                seen.no_duplicates(),
                forall|q: usize|
                    #[trigger] seen.contains(q) <==> live@.take(j as int).map_values(
                        |a: Allocation| a.ptr,
                    ).contains(q) && !marked_state[q].marked,
                to_free@ == (if seen.len() <= WORKLIST_CAP {
                    seen
                } else {
                    seen.take(WORKLIST_CAP as int)
                }),
            decreases live@.len() - j,
        {
            let p = live[j].ptr;
            let ghost taken = live@.take(j as int).map_values(|a: Allocation| a.ptr);
            let ghost next = live@.take(j + 1).map_values(|a: Allocation| a.ptr);
            proof {
                assert(next =~= taken.push(p));
                assert(!taken.contains(p)) by {
                    if taken.contains(p) {
                        let t = taken.index_of(p);
                        assert(live@[t].ptr == p);
                    }
                }
                assert forall|q: usize| next.contains(q) <==> (taken.contains(q) || q == p) by {
                    if next.contains(q) {
                        let t = next.index_of(q);
                        if t < j {
                            assert(taken[t] == q);
                        }
                    }
                    if taken.contains(q) {
                        let t = taken.index_of(q);
                        assert(next[t] == q);
                    }
                    if q == p {
                        assert(next[j as int] == p);
                    }
                }
            }
            let ghost old_seen = seen;
            if !alloc.is_marked(p) {
                if to_free.len() < WORKLIST_CAP {
                    to_free.push(p);
                }
                proof {
                    seen = seen.push(p);
                    assert(!old_seen.contains(p));
                    assert forall|q: usize| #[trigger] seen.contains(q) <==> next.contains(q)
                        && !marked_state[q].marked by {
                        if seen.contains(q) && q != p {
                            let i = seen.index_of(q);
                            assert(old_seen[i] == q);
                        }
                        if q == p {
                            assert(seen[seen.len() - 1] == p);
                        } else if old_seen.contains(q) {
                            let i = old_seen.index_of(q);
                            assert(seen[i] == q);
                        }
                    }
                    if old_seen.len() >= WORKLIST_CAP {
                        assert(seen.take(WORKLIST_CAP as int) =~= old_seen.take(WORKLIST_CAP as int));
                    } else {
                        assert(to_free@ =~= seen);
                    }
                }
            } else {
                alloc.set_marked(p, false);
            }
            proof {
                assert(alloc.blocks().dom() =~= marked_state.dom());
            }
            j += 1;
        }
        let ghost all = live@.map_values(|a: Allocation| a.ptr);
        proof {
            assert(live@.take(live@.len() as int) =~= live@);
            assert forall|q: usize| #[trigger] alloc.blocks().contains_key(q) implies !alloc.blocks()[q].marked by {
                let t = choose|t: int| 0 <= t < live@.len() && #[trigger] live@[t].ptr == q;
                assert(all[t] == q);
            }
            assert forall|q: usize| #[trigger] seen.contains(q) <==> unmarked(marked_state).contains(q) by {
                if marked_state.contains_key(q) {
                    let t = choose|t: int| 0 <= t < live@.len() && #[trigger] live@[t].ptr == q;
                    assert(all[t] == q);
                }
                if all.contains(q) {
                    let t = all.index_of(q);
                    assert(live@[t].ptr == q);
                }
            }
            assert(seen.to_set() =~= unmarked(marked_state));
            seen.unique_seq_to_set();
            assert forall|m: int| 0 <= m < to_free@.len() implies #[trigger] to_free@[m] == seen[m] && unmarked(
                marked_state,
            ).contains(to_free@[m]) by {
                assert(to_free@[m] == seen[m]);
                assert(seen.contains(seen[m]));
            }
            assert forall|m: int, n: int| 0 <= m < n < to_free@.len() implies to_free@[m] != to_free@[n] by {
                assert(to_free@[m] == seen[m] && to_free@[n] == seen[n]);
            }
            assert forall|q: usize|
                #[trigger] alloc.blocks().contains_key(q) <==> marked_state.contains_key(q)
                    && !to_free@.take(0).contains(q) by {}
        }
        let mut k: usize = 0;
        while k < to_free.len()
            invariant
                alloc.wf(),
                collection_keeps(old(alloc).blocks(), alloc.blocks()),
                k <= to_free@.len(),
                forall|q: usize| #[trigger] alloc.blocks().contains_key(q) ==> !alloc.blocks()[q].marked,
                forall|m: int| k <= m < to_free@.len() ==> alloc.blocks().contains_key(#[trigger] to_free@[m]),
                forall|m: int, n: int|
                    0 <= m < n < to_free@.len() ==> #[trigger] to_free@[m] != #[trigger] to_free@[n],
                forall|m: int|
                    0 <= m < to_free@.len() ==> unmarked(marked_state).contains(#[trigger] to_free@[m]),
                forall|m: int|
                    0 <= m < rs.len() && start.contains_key(#[trigger] rs[m]) ==> alloc.blocks().contains_key(rs[m])
                        && marked_state[rs[m]].marked,
                forall|q: usize|
                    #[trigger] marked_state.contains_key(q) && marked_state[q].marked
                        ==> alloc.blocks().contains_key(q),
                A::releases() ==> forall|q: usize|
                    #[trigger] alloc.blocks().contains_key(q) <==> marked_state.contains_key(q)
                        && !to_free@.take(k as int).contains(q),
            decreases to_free@.len() - k,
        {
            let ghost before = alloc.blocks();
            alloc.free(to_free[k]);
            proof {
                if A::releases() {
                    let t0 = to_free@.take(k as int);
                    let t1 = to_free@.take(k + 1);
                    assert(t1 =~= t0.push(to_free@[k as int]));
                    assert(alloc.blocks() == before.remove(to_free@[k as int]));
                    assert forall|q: usize|
                        #[trigger] alloc.blocks().contains_key(q) <==> marked_state.contains_key(q)
                            && !t1.contains(q) by {
                        if t1.contains(q) && q != to_free@[k as int] {
                            let i = t1.index_of(q);
                            assert(t0[i] == q);
                        }
                        if t0.contains(q) {
                            let i = t0.index_of(q);
                            assert(t1[i] == q);
                        }
                        if q == to_free@[k as int] {
                            assert(t1[k as int] == q);
                        }
                    }
                }
            }
            k += 1;
        }
        proof {
            assert(to_free@.take(to_free@.len() as int) =~= to_free@);
            if nm {
                assert forall|q: usize| #[trigger]
                    reachable(old(alloc).blocks(), tracer.roots(), q) implies alloc.blocks().contains_key(q) by {
                    let path = choose|path: Seq<usize>|
                        is_path(start, rs, path) && path.last() == q;
                    lemma_path_marked(start, marked_state, rs, path);
                    assert(start.contains_key(path[path.len() - 1]));
                }
                // Marked is reachable, and reachable is marked.
                assert forall|q: usize| #[trigger] unmarked(marked_state).contains(q) <==> garbage(
                    start,
                    rs,
                ).contains(q) by {
                    if start.contains_key(q) && reachable(start, rs, q) {
                        let path = choose|path: Seq<usize>|
                            is_path(start, rs, path) && path.last() == q;
                        lemma_path_marked(start, marked_state, rs, path);
                        assert(start.contains_key(path[path.len() - 1]));
                    }
                }
                assert(unmarked(marked_state) =~= garbage(start, rs));
            }
            if A::releases() && nm {
                let freed = start.dom().difference(alloc.blocks().dom());
                assert(freed =~= to_free@.to_set()) by {
                    assert forall|q: usize| freed.contains(q) <==> to_free@.to_set().contains(q) by {
                        if to_free@.contains(q) {
                            let m = to_free@.index_of(q);
                            assert(unmarked(marked_state).contains(to_free@[m]));
                        }
                    }
                }
                assert(to_free@.no_duplicates());
                to_free@.unique_seq_to_set();
                if seen.len() <= WORKLIST_CAP {
                    assert(freed =~= garbage(start, rs));
                }
            }
        }
    }

    fn enter_nogc(&mut self)
        ensures
            final(self).depth() == depth_after_enter(old(self).depth()),
            final(self).threshold() == old(self).threshold(),
    {
        if self.nogc_depth < u32::MAX {
            self.nogc_depth += 1;
        }
    }

    /// Leaving a block that was never entered changes nothing.
    fn exit_nogc(&mut self)
        ensures
            final(self).threshold() == old(self).threshold(),
            final(self).depth() == depth_after_exit(old(self).depth()),
    {
        if self.nogc_depth > 0 {
            self.nogc_depth -= 1;
        }
    }

    fn in_nogc(&self) -> (r: bool) {
        self.nogc_depth > 0
    }
}

} // verus!
