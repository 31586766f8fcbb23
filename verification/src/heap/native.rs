//! An allocator backed by the platform allocator: every allocation has its
//! own buffer. It does not move objects, and it cannot enumerate its
//! allocations for a collector that walks the heap.
//!
//! An allocation is named by `8 * (k + 1)` where `k` is its slot. A freed
//! slot is handed out again by a later allocation, the most recently freed
//! first, as the platform allocator hands freed memory out again.
use crate::heap::allocator::{fresh_allocation, with_byte, with_mark, Allocation, Allocator, Block};
use vstd::prelude::*;

verus! {

/// Spacing of the names handed out, like the alignment of real addresses.
pub const NAME_STRIDE: usize = 8;

/// Most allocations one allocator hands out over its life: as many as have
/// names that fit a 32-bit address.
pub const MAX_ALLOCATIONS: usize = 0x1FFF_FFFF;

/// Sum of the sizes of the live slots among the first `n`.
pub open spec fn live_total(sizes: Seq<usize>, live: Seq<bool>, n: int) -> nat
    decreases n,
{
    if n <= 0 {
        0
    } else {
        live_total(sizes, live, n - 1) + if live[n - 1] {
            sizes[n - 1] as nat
        } else {
            0
        }
    }
}

proof fn lemma_total_kill(sizes: Seq<usize>, live: Seq<bool>, n: int, k: int)
    requires
        0 <= k < n <= live.len(),
        live[k],
    ensures
        live_total(sizes, live.update(k, false), n) + sizes[k] == live_total(sizes, live, n),
    decreases n,
{
    if n - 1 > k {
        lemma_total_kill(sizes, live, n - 1, k);
    } else {
        assert(live_total(sizes, live.update(k, false), n - 1) == live_total(sizes, live, n - 1))
            by {
            lemma_total_prefix(sizes, live, live.update(k, false), n - 1);
        }
    }
}

proof fn lemma_total_prefix(sizes: Seq<usize>, a: Seq<bool>, b: Seq<bool>, n: int)
    requires
        n <= a.len(),
        n <= b.len(),
        forall|i: int| 0 <= i < n ==> a[i] == b[i],
    ensures
        live_total(sizes, a, n) == live_total(sizes, b, n),
    decreases n,
{
    if n > 0 {
        lemma_total_prefix(sizes, a, b, n - 1);
    }
}

/// Changing the size of a dead slot changes no total.
proof fn lemma_total_dead_size(sizes: Seq<usize>, live: Seq<bool>, n: int, k: int, x: usize)
    requires
        0 <= k < sizes.len(),
        n <= sizes.len(),
        n <= live.len(),
        k < live.len(),
        !live[k],
    ensures
        live_total(sizes.update(k, x), live, n) == live_total(sizes, live, n),
    decreases n,
{
    if n > 0 {
        lemma_total_dead_size(sizes, live, n - 1, k, x);
    }
}

proof fn lemma_total_sizes_prefix(a: Seq<usize>, b: Seq<usize>, live: Seq<bool>, n: int)
    requires
        n <= a.len(),
        n <= b.len(),
        forall|i: int| 0 <= i < n ==> a[i] == b[i],
    ensures
        live_total(a, live, n) == live_total(b, live, n),
    decreases n,
{
    if n > 0 {
        lemma_total_sizes_prefix(a, b, live, n - 1);
    }
}

/// Allocator backed by the platform allocator. `bytes_used` counts user
/// bytes only, without any bookkeeping.
pub struct NativeAllocator {
    sizes: Vec<usize>,
    traced: Vec<bool>,
    marked: Vec<bool>,
    live: Vec<bool>,
    data: Vec<Vec<u8>>,
    used: usize,
    /// Dead slots to hand out again, the most recently freed last.
    free_slots: Vec<usize>,
}

/// The slot an allocation name refers to, if any.
pub open spec fn slot_of(p: usize) -> int {
    p as int / NAME_STRIDE as int - 1
}

impl NativeAllocator {
    pub fn new() -> (r: Self)
        ensures
            r.wf(),
            r.blocks() == Map::<usize, Block>::empty(),
            r.used() == 0,
            r.issued() == 0,
            r.reusable() == 0,
    {
        let r = NativeAllocator {
            sizes: Vec::new(),
            traced: Vec::new(),
            marked: Vec::new(),
            live: Vec::new(),
            data: Vec::new(),
            used: 0,
            free_slots: Vec::new(),
        };
        assert(r.blocks() =~= Map::<usize, Block>::empty());
        r
    }

    /// How many slots this allocator has opened so far.
    pub closed spec fn issued(&self) -> nat {
        self.live@.len()
    }

    /// How many freed slots wait to be handed out again.
    pub closed spec fn reusable(&self) -> nat {
        self.free_slots@.len()
    }

    /// The slot the next allocation reuses, when there is one.
    pub closed spec fn next_reused(&self) -> nat {
        self.free_slots@.last() as nat
    }

    /// Every live name belongs to an opened slot: a multiple of
    /// `NAME_STRIDE` no larger than `NAME_STRIDE` times the count issued. A
    /// newly opened slot is named past them all.
    pub proof fn lemma_names_issued(&self)
        requires
            self.wf(),
        ensures
            forall|p: usize|
                #[trigger] self.blocks().contains_key(p) ==> NAME_STRIDE <= p <= NAME_STRIDE
                    * self.issued() && p % NAME_STRIDE == 0,
    {
        assert forall|p: usize| #[trigger] self.blocks().contains_key(p) implies NAME_STRIDE <= p
            <= NAME_STRIDE * self.issued() && p % NAME_STRIDE == 0 by {
            assert(slot_of(p) < self.live@.len());
        }
    }

    /// True when `p` names a live slot.
    pub closed spec fn names_live(&self, p: usize) -> bool {
        &&& p % NAME_STRIDE == 0
        &&& p >= NAME_STRIDE
        &&& slot_of(p) < self.live@.len()
        &&& self.live@[slot_of(p)]
    }

    /// The slot of a live allocation name.
    fn find(&self, ptr: usize) -> (r: Option<usize>)
        requires
            self.wf(),
        ensures
            r matches Some(k) ==> self.names_live(ptr) && k == slot_of(ptr),
            r is None ==> !self.names_live(ptr),
    {
        if ptr % NAME_STRIDE != 0 || ptr < NAME_STRIDE {
            return None;
        }
        let k = ptr / NAME_STRIDE - 1;
        if k >= self.live.len() || !self.live[k] {
            return None;
        }
        Some(k)
    }
}

impl Allocator for NativeAllocator {
    closed spec fn wf(&self) -> bool {
        let n = self.live@.len();
        &&& self.sizes@.len() == n
        &&& self.traced@.len() == n
        &&& self.marked@.len() == n
        &&& self.data@.len() == n
        &&& n <= MAX_ALLOCATIONS
        &&& forall|k: int| 0 <= k < n && #[trigger] self.live@[k] ==> self.data@[k]@.len() == self.sizes@[k]
        &&& self.used == live_total(self.sizes@, self.live@, n as int)
        &&& self.free_slots@.no_duplicates()
        &&& forall|i: int|
            0 <= i < self.free_slots@.len() ==> #[trigger] self.free_slots@[i] < n && !self.live@[self.free_slots@[i] as int]
    }

    closed spec fn blocks(&self) -> Map<usize, Block> {
        Map::new(
            |p: usize| self.names_live(p),
            |p: usize|
                Block {
                    size: self.sizes@[slot_of(p)] as nat,
                    traced: self.traced@[slot_of(p)],
                    marked: self.marked@[slot_of(p)],
                    bytes: self.data@[slot_of(p)]@,
                },
        )
    }

    /// The sum of the live user sizes.
    closed spec fn used(&self) -> nat {
        self.used as nat
    }

    open spec fn releases() -> bool {
        true
    }

    open spec fn moving() -> bool {
        false
    }

    /// This allocator never moves objects, so it cannot be reset.
    closed spec fn can_reset_to(&self, new_top: usize) -> bool {
        false
    }

    proof fn lemma_block_sizes(&self) {
        let d = self.blocks().dom();
        let n = self.live@.len() as int;
        let f = |k: int| ((k + 1) * NAME_STRIDE) as usize;
        let slots = vstd::set_lib::set_int_range(0, n);
        vstd::set_lib::lemma_int_range(0, n);
        slots.lemma_map_finite(f);
        assert forall|p: usize| d.contains(p) implies slots.map(f).contains(p) by {
            let k = slot_of(p);
            assert(slots.contains(k));
            assert(f(k) == p);
        }
        vstd::set_lib::lemma_set_subset_finite(slots.map(f), d);
    }

    fn is_live(&self, ptr: usize) -> (r: bool) {
        self.find(ptr).is_some()
    }


    /// Gives the allocation its own zeroed buffer, in the most recently
    /// freed slot if there is one, else in a new slot. `None` when the count
    /// of user bytes, or of slots with none to reuse, would pass what this
    /// allocator can name.
    fn allocate(&mut self, size: usize, contains_values: bool) -> (r: Option<Allocation>)
        ensures
            r is None <==> old(self).used() + size > usize::MAX || (old(self).reusable() == 0
                && old(self).issued() >= MAX_ALLOCATIONS),
            r matches Some(a) ==> if old(self).reusable() > 0 {
                &&& a.ptr == NAME_STRIDE * (old(self).next_reused() + 1)
                &&& final(self).issued() == old(self).issued()
                &&& final(self).reusable() == old(self).reusable() - 1
            } else {
                &&& a.ptr == NAME_STRIDE * (old(self).issued() + 1)
                &&& final(self).issued() == old(self).issued() + 1
                &&& final(self).reusable() == 0
            },
            r is Some ==> final(self).used() == old(self).used() + size,
            r is None ==> final(self).used() == old(self).used(),
    {
        if size > usize::MAX - self.used {
            return None;
        }
        let n = self.live.len();
        if self.free_slots.len() > 0 {
            let ghost old_free = self.free_slots@;
            let k = match self.free_slots.pop() {
                Some(k) => k,
                None => 0,
            };
            proof {
                assert(old_free =~= self.free_slots@.push(k));
                assert(old_free[old_free.len() - 1] == k);
            }
            let ghost old_sizes = self.sizes@;
            let ghost old_live = self.live@;
            self.sizes.set(k, size);
            self.traced.set(k, contains_values);
            self.marked.set(k, false);
            self.live.set(k, true);
            self.data.set(k, vec![0u8; size]);
            self.used = self.used + size;
            let ptr = (k + 1) * NAME_STRIDE;
            let a = Allocation { ptr, size };
            proof {
                lemma_total_dead_size(old_sizes, old_live, n as int, k as int, size);
                lemma_total_kill(self.sizes@, self.live@, n as int, k as int);
                assert(self.live@.update(k as int, false) =~= old_live);
                assert forall|i: int|
                    0 <= i < self.free_slots@.len() implies #[trigger] self.free_slots@[i] < n
                    && !self.live@[self.free_slots@[i] as int] by {
                    assert(old_free[i] == self.free_slots@[i]);
                    assert(old_free[i] != k);
                }
                assert(slot_of(ptr) == k);
                let before = old(self).blocks();
                let after = self.blocks();
                assert(!before.contains_key(ptr));
                assert forall|p: usize| #[trigger] after.contains_key(p) && p != ptr implies before.contains_key(p) && after[p] == before[p] by {
                    assert(slot_of(p) != k);
                }
                assert forall|p: usize| #[trigger] before.contains_key(p) implies after.contains_key(p) by {
                    assert(slot_of(p) != k);
                }
                assert(after =~= before.insert(ptr, after[ptr]));
                assert(fresh_allocation(before, after, a, size, contains_values));
            }
            return Some(a);
        }
        if n >= MAX_ALLOCATIONS {
            return None;
        }
        let k = n;
        let ghost old_sizes = self.sizes@;
        let ghost old_live = self.live@;
        self.sizes.push(size);
        self.traced.push(contains_values);
        self.marked.push(false);
        self.live.push(true);
        self.data.push(vec![0u8; size]);
        self.used = self.used + size;
        let ptr = (k + 1) * NAME_STRIDE;
        let a = Allocation { ptr, size };
        proof {
            lemma_total_prefix(self.sizes@, old_live, self.live@, k as int);
            lemma_total_sizes_prefix(old_sizes, self.sizes@, old_live, k as int);
            assert(slot_of(ptr) == k);
            let before = old(self).blocks();
            let after = self.blocks();
            assert(!before.contains_key(ptr));
            assert forall|p: usize| #[trigger] after.contains_key(p) && p != ptr implies before.contains_key(p) && after[p] == before[p] by {
                assert(slot_of(p) != k);
            }
            assert forall|p: usize| #[trigger] before.contains_key(p) implies after.contains_key(p) by {}
            assert(after =~= before.insert(ptr, after[ptr]));
            assert(fresh_allocation(before, after, a, size, contains_values));
        }
        Some(a)
    }

    /// Releases the buffer; the slot is the next one to be handed out again.
    fn free(&mut self, ptr: usize)
        ensures
            final(self).blocks() == old(self).blocks().remove(ptr),
            final(self).used() + old(self).blocks()[ptr].size == old(self).used(),
            final(self).issued() == old(self).issued(),
            final(self).reusable() == old(self).reusable() + 1,
            final(self).next_reused() == slot_of(ptr),
    {
        let k = ptr / NAME_STRIDE - 1;
        let ghost old_live = self.live@;
        let ghost old_free = self.free_slots@;
        proof {
            lemma_total_kill(self.sizes@, self.live@, self.live@.len() as int, k as int);
        }
        self.used = self.used - self.sizes[k];
        self.live.set(k, false);
        self.data.set(k, Vec::new());
        self.free_slots.push(k);
        proof {
            assert(self.live@ == old_live.update(k as int, false));
            assert(self.blocks() =~= old(self).blocks().remove(ptr));
            assert(!old_free.contains(k)) by {
                if old_free.contains(k) {
                    let i = old_free.index_of(k);
                    assert(!old_live[old_free[i] as int]);
                }
            }
            assert forall|i: int|
                0 <= i < self.free_slots@.len() implies #[trigger] self.free_slots@[i] < self.live@.len()
                && !self.live@[self.free_slots@[i] as int] by {
                if i < old_free.len() {
                    assert(self.free_slots@[i] == old_free[i]);
                }
            }
            assert forall|i: int, j: int|
                0 <= i < j < self.free_slots@.len() implies self.free_slots@[i] != self.free_slots@[j] by {
                if j < old_free.len() {
                    assert(self.free_slots@[i] == old_free[i] && self.free_slots@[j] == old_free[j]);
                } else {
                    assert(self.free_slots@[i] == old_free[i]);
                    assert(old_free.contains(old_free[i]));
                }
            }
        }
    }

    fn size_of(&self, ptr: usize) -> (r: usize) {
        self.sizes[ptr / NAME_STRIDE - 1]
    }

    fn is_traced(&self, ptr: usize) -> (r: bool) {
        self.traced[ptr / NAME_STRIDE - 1]
    }

    /// Nothing to reset: this allocator never moves objects.
    fn reset_bump(&mut self, new_top: usize) {
    }

    fn is_moving() -> (r: bool) {
        false
    }

    fn bytes_used(&self) -> (r: usize) {
        self.used
    }

    fn set_marked(&mut self, ptr: usize, marked: bool)
        ensures
            final(self).issued() == old(self).issued(),
    {
        let k = ptr / NAME_STRIDE - 1;
        self.marked.set(k, marked);
        proof {
            assert(self.blocks() =~= old(self).blocks().insert(
                ptr,
                with_mark(old(self).blocks()[ptr], marked),
            ));
        }
    }

    fn is_marked(&self, ptr: usize) -> (r: bool) {
        self.marked[ptr / NAME_STRIDE - 1]
    }

    fn load_byte(&self, ptr: usize, offset: usize) -> (r: Option<u8>) {
        match self.find(ptr) {
            Some(k) => if offset < self.sizes[k] {
                Some(self.data[k][offset])
            } else {
                None
            },
            None => None,
        }
    }

    fn store_byte(&mut self, ptr: usize, offset: usize, value: u8) -> (r: bool)
        ensures
            final(self).issued() == old(self).issued(),
    {
        let k = match self.find(ptr) {
            Some(k) => k,
            None => {
                return false;
            },
        };
        if offset >= self.sizes[k] {
            return false;
        }
        let mut buf: Vec<u8> = Vec::new();
        std::mem::swap(&mut buf, &mut self.data[k]);
        buf.set(offset, value);
        self.data.set(k, buf);
        proof {
            assert(self.blocks() =~= old(self).blocks().insert(
                ptr,
                with_byte(old(self).blocks()[ptr], offset as int, value),
            ));
        }
        true
    }
}

} // verus!
