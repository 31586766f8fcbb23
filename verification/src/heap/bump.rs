//! A bump allocator over a fixed array of `N` bytes.
//!
//! Every allocation is preceded by an 8-byte header:
//!
//! ```text
//! +0  size of the user bytes, u32 little-endian
//! +4  trace bit (1 when the bytes may hold values)
//! +5  mark bit
//! +6  two bytes of padding
//! ```
//!
//! User sizes are rounded up to a multiple of 8, so every header, and every
//! allocation, is 8-byte aligned. The headers form a chain from offset 0 to
//! the bump offset, which is how the allocator walks its heap.
use crate::assembler::disassemble::le_number;
use crate::heap::allocator::{
    fresh_allocation, with_byte, with_mark, Allocation, Allocator, Block, WalkableAllocator,
};
use vstd::prelude::*;

verus! {

/// Size of the header in front of every allocation.
pub const HEADER_SIZE: usize = 8;

/// `n` rounded up to a multiple of 8.
pub open spec fn round8(n: nat) -> nat {
    ((n + 7) / 8 * 8) as nat
}

/// The user size recorded in the header at `h`.
pub open spec fn header_size(heap: Seq<u8>, h: int) -> nat {
    le_number(heap, h, 4)
}

/// The header that follows the one at `h`.
pub open spec fn next_header(heap: Seq<u8>, h: int) -> int {
    h + HEADER_SIZE + round8(header_size(heap, h))
}

/// The headers met walking from `off`, when the walk lands exactly on `end`.
pub open spec fn walk(heap: Seq<u8>, off: int, end: int) -> Option<Seq<int>>
    decreases end - off,
{
    if off == end {
        Some(Seq::empty())
    } else if off < 0 || off > end {
        None
    } else {
        let nx = next_header(heap, off);
        if nx > end {
            None
        } else {
            match walk(heap, nx, end) {
                Some(rest) => Some(seq![off] + rest),
                None => None,
            }
        }
    }
}

/// The allocation whose header is at `h`.
pub open spec fn block_at(heap: Seq<u8>, h: int) -> Block {
    Block {
        size: header_size(heap, h),
        traced: heap[h + 4] != 0,
        marked: heap[h + 5] != 0,
        bytes: heap.subrange(h + HEADER_SIZE, h + HEADER_SIZE + header_size(heap, h)),
    }
}

/// `heap` and `other` agree on every byte in `[a, b)`.
pub open spec fn agree(heap: Seq<u8>, other: Seq<u8>, a: int, b: int) -> bool {
    forall|i: int| a <= i < b ==> #[trigger] heap[i] == other[i]
}

/// Facts about a walk: headers ascend, each region ends before the next
/// begins, and the last one ends at `end`.
proof fn lemma_walk_shape(heap: Seq<u8>, off: int, end: int)
    requires
        walk(heap, off, end) is Some,
    ensures
        ({
            let s = walk(heap, off, end)->Some_0;
            &&& off <= end
            &&& forall|i: int| 0 <= i < s.len() ==> off <= #[trigger] s[i] && next_header(heap, s[i]) <= end
            &&& forall|i: int, j: int| 0 <= i < j < s.len() ==> next_header(heap, #[trigger] s[i]) <= #[trigger] s[j]
            &&& s.len() > 0 ==> s[0] == off
            &&& s.len() == 0 ==> off == end
        }),
    decreases end - off,
{
    if off != end {
        let nx = next_header(heap, off);
        lemma_walk_shape(heap, nx, end);
        let rest = walk(heap, nx, end)->Some_0;
        let s = walk(heap, off, end)->Some_0;
        assert(s == seq![off] + rest);
        assert forall|i: int, j: int| 0 <= i < j < s.len() implies next_header(heap, #[trigger] s[i]) <= #[trigger] s[j] by {
            if i == 0 {
                assert(s[j] == rest[j - 1]);
                if rest.len() > 0 {
                    assert(rest[0] == nx);
                    if j - 1 > 0 {
                        assert(next_header(heap, rest[0]) <= rest[j - 1]);
                    }
                }
            } else {
                assert(s[i] == rest[i - 1] && s[j] == rest[j - 1]);
            }
        }
        assert forall|i: int| 0 <= i < s.len() implies off <= #[trigger] s[i] && next_header(heap, s[i]) <= end by {
            if i > 0 {
                assert(s[i] == rest[i - 1]);
            }
        }
    }
}

/// A walk from an 8-aligned offset meets only 8-aligned headers and ends on
/// an 8-aligned offset.
proof fn lemma_walk_aligned(heap: Seq<u8>, off: int, end: int)
    requires
        walk(heap, off, end) is Some,
        off % 8 == 0,
    ensures
        end % 8 == 0,
        forall|i: int|
            0 <= i < walk(heap, off, end)->Some_0.len() ==> #[trigger] walk(heap, off, end)->Some_0[i]
                % 8 == 0,
    decreases end - off,
{
    if off != end {
        let nx = next_header(heap, off);
        let n = header_size(heap, off);
        assert(round8(n) % 8 == 0) by (nonlinear_arith)
            requires
                round8(n) == (n + 7) / 8 * 8,
        ;
        lemma_walk_aligned(heap, nx, end);
        let rest = walk(heap, nx, end)->Some_0;
        let s = walk(heap, off, end)->Some_0;
        assert(s == seq![off] + rest);
        assert forall|i: int| 0 <= i < s.len() implies #[trigger] s[i] % 8 == 0 by {
            if i > 0 {
                assert(s[i] == rest[i - 1]);
            }
        }
    }
}

/// A walk depends only on the size fields of the headers it meets.
proof fn lemma_walk_agree(heap: Seq<u8>, other: Seq<u8>, off: int, end: int)
    requires
        walk(heap, off, end) is Some,
        forall|i: int|
            0 <= i < walk(heap, off, end)->Some_0.len() ==> agree(
                heap,
                other,
                walk(heap, off, end)->Some_0[i],
                walk(heap, off, end)->Some_0[i] + 4,
            ),
    ensures
        walk(other, off, end) == walk(heap, off, end),
    decreases end - off,
{
    if off != end {
        let s = walk(heap, off, end)->Some_0;
        assert(s[0] == off);
        assert(agree(heap, other, off, off + 4));
        reveal_with_fuel(le_number, 5);
        assert(header_size(heap, off) == header_size(other, off));
        let nx = next_header(heap, off);
        let rest = walk(heap, nx, end)->Some_0;
        assert(s == seq![off] + rest);
        assert forall|i: int| 0 <= i < rest.len() implies agree(heap, other, rest[i], rest[i] + 4) by {
            assert(rest[i] == s[i + 1]);
        }
        lemma_walk_agree(heap, other, nx, end);
    }
}

/// A walk to `b` continues to `next_header(b)` with one more header.
proof fn lemma_walk_append(heap: Seq<u8>, a: int, b: int)
    requires
        walk(heap, a, b) is Some,
        b >= 0,
    ensures
        walk(heap, a, next_header(heap, b)) == Some(walk(heap, a, b)->Some_0.push(b)),
    decreases b - a,
{
    let c = next_header(heap, b);
    if a == b {
        assert(walk(heap, c, c) == Some(Seq::<int>::empty()));
        assert(seq![b] + Seq::<int>::empty() =~= Seq::<int>::empty().push(b));
    } else {
        let nx = next_header(heap, a);
        lemma_walk_append(heap, nx, b);
        let rest = walk(heap, nx, b)->Some_0;
        assert(seq![a] + rest.push(b) =~= (seq![a] + rest).push(b));
    }
}

/// The walk stops at any header it meets.
proof fn lemma_walk_prefix(heap: Seq<u8>, off: int, end: int, k: int)
    requires
        walk(heap, off, end) is Some,
        0 <= k < walk(heap, off, end)->Some_0.len(),
    ensures
        walk(heap, off, walk(heap, off, end)->Some_0[k]) == Some(
            walk(heap, off, end)->Some_0.take(k),
        ),
    decreases end - off,
{
    let s = walk(heap, off, end)->Some_0;
    if k == 0 {
        lemma_walk_shape(heap, off, end);
        assert(s.take(0) =~= Seq::<int>::empty());
    } else {
        let nx = next_header(heap, off);
        let rest = walk(heap, nx, end)->Some_0;
        assert(s == seq![off] + rest);
        lemma_walk_prefix(heap, nx, end, k - 1);
        assert(rest[k - 1] == s[k]);
        lemma_walk_shape(heap, off, end);
        assert(s[k] > off);
        assert(seq![off] + rest.take(k - 1) =~= s.take(k));
    }
}

/// A bump allocator over `N` bytes.
pub struct BumpAllocator<const N: usize> {
    heap: Vec<u8>,
    /// Offset of the next free byte in `heap`.
    bump: usize,
}

impl<const N: usize> BumpAllocator<N> {
    /// The headers of the live allocations, in address order.
    pub closed spec fn headers(&self) -> Seq<int> {
        walk(self.heap@, 0, self.bump as int)->Some_0
    }

    pub fn new() -> (r: Self)
        requires
            N <= 0xFFFF_FFF0,
        ensures
            r.wf(),
            r.blocks() == Map::<usize, Block>::empty(),
            r.used() == 0,
    {
        let r = BumpAllocator { heap: vec![0u8; N], bump: 0 };
        assert(r.blocks() =~= Map::<usize, Block>::empty());
        r
    }

    /// Usage never exceeds the heap.
    pub proof fn lemma_used_bound(&self)
        requires
            self.wf(),
        ensures
            self.used() <= N,
    {
    }

    /// The header offset of the live allocation at `ptr`, found by walking the
    /// header chain, and its size.
    fn find(&self, ptr: usize) -> (r: Option<usize>)
        requires
            self.wf(),
        ensures
            r matches Some(size) ==> self.blocks().contains_key(ptr) && size
                == self.blocks()[ptr].size,
            r is None ==> !self.blocks().contains_key(ptr),
    {
        let ghost s = self.headers();
        proof {
            lemma_walk_shape(self.heap@, 0, self.bump as int);
        }
        let mut off: usize = 0;
        let ghost mut k: int = 0;
        while off < self.bump
            invariant
                self.wf(),
                s == self.headers(),
                0 <= k <= s.len(),
                k < s.len() ==> s[k] == off,
                k == s.len() ==> off == self.bump,
                forall|j: int| 0 <= j < k ==> s[j] + HEADER_SIZE != ptr,
                forall|j: int| 0 <= j < k ==> s[j] < off,
            decreases self.bump - off,
        {
            proof {
                lemma_walk_shape(self.heap@, 0, self.bump as int);
            }
            let size = self.read_size(off);
            if off + HEADER_SIZE == ptr {
                return Some(size as usize);
            }
            let aligned = align8(size as usize);
            proof {
                if k + 1 < s.len() {
                    lemma_walk_next(self.heap@, 0, self.bump as int, k);
                } else {
                    lemma_walk_last(self.heap@, 0, self.bump as int);
                }
            }
            off = off + HEADER_SIZE + aligned;
            proof {
                k = k + 1;
            }
        }
        proof {
            assert forall|j: int| 0 <= j < s.len() implies s[j] + HEADER_SIZE != ptr by {}
        }
        None
    }

    /// Writes a fresh header for `size` user bytes at offset `h`.
    fn write_header(&mut self, h: usize, size: usize, contains_values: bool)
        requires
            h + HEADER_SIZE <= old(self).heap@.len(),
            size <= 0xFFFF_FFFF,
        ensures
            final(self).bump == old(self).bump,
            final(self).heap@.len() == old(self).heap@.len(),
            agree(old(self).heap@, final(self).heap@, 0, h as int),
            agree(
                old(self).heap@,
                final(self).heap@,
                h + HEADER_SIZE,
                old(self).heap@.len() as int,
            ),
            header_size(final(self).heap@, h as int) == size,
            (final(self).heap@[h + 4] != 0) == contains_values,
            final(self).heap@[h + 5] == 0,
    {
        let _len = self.heap.len();
        let sz = size as u32;
        let b0 = (sz & 0xff) as u8;
        let b1 = ((sz >> 8u32) & 0xff) as u8;
        let b2 = ((sz >> 16u32) & 0xff) as u8;
        let b3 = ((sz >> 24u32) & 0xff) as u8;
        assert(b0 + 0x100 * (b1 + 0x100 * (b2 + 0x100 * b3)) == sz) by (bit_vector)
            requires
                b0 == (sz & 0xff) as u8,
                b1 == ((sz >> 8u32) & 0xff) as u8,
                b2 == ((sz >> 16u32) & 0xff) as u8,
                b3 == ((sz >> 24u32) & 0xff) as u8,
        ;
        self.heap.set(h, b0);
        self.heap.set(h + 1, b1);
        self.heap.set(h + 2, b2);
        self.heap.set(h + 3, b3);
        self.heap.set(h + 4, if contains_values { 1 } else { 0 });
        self.heap.set(h + 5, 0);
        self.heap.set(h + 6, 0);
        self.heap.set(h + 7, 0);
        proof {
            reveal_with_fuel(le_number, 5);
        }
    }

    /// Reads the size field of the header at `h`.
    fn read_size(&self, h: usize) -> (r: u32)
        requires
            self.wf(),
            h + HEADER_SIZE <= self.heap@.len(),
        ensures
            r == header_size(self.heap@, h as int),
    {
        proof {
            reveal_with_fuel(le_number, 5);
        }
        self.heap[h] as u32 + (self.heap[h + 1] as u32) * 0x100 + (self.heap[h + 2] as u32)
            * 0x1_0000 + (self.heap[h + 3] as u32) * 0x100_0000
    }
}

/// `n` rounded up to a multiple of 8.
fn align8(n: usize) -> (r: usize)
    requires
        n <= 0xFFFF_FFF0,
    ensures
        r == round8(n as nat),
{
    let m = n + 7;
    let r = m & !7usize;
    assert(r == m / 8 * 8) by (bit_vector)
        requires
            r == m & !7usize,
    ;
    r
}

/// In a walk, the header after the `k`-th one is the `k+1`-th.
proof fn lemma_walk_next(heap: Seq<u8>, off: int, end: int, k: int)
    requires
        walk(heap, off, end) is Some,
        0 <= k,
        k + 1 < walk(heap, off, end)->Some_0.len(),
    ensures
        walk(heap, off, end)->Some_0[k + 1] == next_header(heap, walk(heap, off, end)->Some_0[k]),
    decreases end - off,
{
    let s = walk(heap, off, end)->Some_0;
    let nx = next_header(heap, off);
    let rest = walk(heap, nx, end)->Some_0;
    assert(s == seq![off] + rest);
    lemma_walk_shape(heap, nx, end);
    if k > 0 {
        lemma_walk_next(heap, nx, end, k - 1);
    }
}

/// The region of the last header of a walk ends the walk.
proof fn lemma_walk_last(heap: Seq<u8>, off: int, end: int)
    requires
        walk(heap, off, end) is Some,
        walk(heap, off, end)->Some_0.len() > 0,
    ensures
        next_header(heap, walk(heap, off, end)->Some_0.last()) == end,
    decreases end - off,
{
    let s = walk(heap, off, end)->Some_0;
    let nx = next_header(heap, off);
    let rest = walk(heap, nx, end)->Some_0;
    assert(s == seq![off] + rest);
    lemma_walk_shape(heap, nx, end);
    if rest.len() > 0 {
        lemma_walk_last(heap, nx, end);
        assert(s.last() == rest.last());
    }
}


/// Writing one byte outside every size field leaves the walk alone, and
/// leaves alone every allocation whose region does not hold that byte.
proof fn lemma_write_one(heap: Seq<u8>, end: int, q: int, v: u8)
    requires
        walk(heap, 0, end) is Some,
        end <= heap.len(),
        0 <= q < heap.len(),
        forall|i: int|
            0 <= i < walk(heap, 0, end)->Some_0.len() ==> !(walk(heap, 0, end)->Some_0[i] <= q
                < #[trigger] walk(heap, 0, end)->Some_0[i] + 4),
    ensures
        walk(heap.update(q, v), 0, end) == walk(heap, 0, end),
        forall|i: int|
            0 <= i < walk(heap, 0, end)->Some_0.len() && !(walk(heap, 0, end)->Some_0[i] <= q
                < next_header(heap, #[trigger] walk(heap, 0, end)->Some_0[i])) ==> block_at(
                heap.update(q, v),
                walk(heap, 0, end)->Some_0[i],
            ) == block_at(heap, walk(heap, 0, end)->Some_0[i]),
{
    let h2 = heap.update(q, v);
    let s = walk(heap, 0, end)->Some_0;
    lemma_walk_shape(heap, 0, end);
    assert forall|i: int| 0 <= i < s.len() implies agree(heap, h2, s[i], s[i] + 4) by {
        assert(!(s[i] <= q < s[i] + 4));
    }
    lemma_walk_agree(heap, h2, 0, end);
    lemma_walk_shape(heap, 0, end);
    assert forall|i: int|
        0 <= i < s.len() && !(s[i] <= q < next_header(heap, #[trigger] s[i])) implies block_at(
        h2,
        s[i],
    ) == block_at(heap, s[i]) by {
        let x = s[i];
        assert(agree(heap, h2, x, x + 4));
        reveal_with_fuel(le_number, 5);
        assert(header_size(h2, x) == header_size(heap, x));
        assert(block_at(h2, x).bytes =~= block_at(heap, x).bytes);
    }
}

/// The allocations of a heap whose header chain ends at `end`, keyed by the
/// offset of their first user byte.
pub open spec fn blocks_of(heap: Seq<u8>, end: int) -> Map<usize, Block> {
    Map::new(
        |p: usize| p >= HEADER_SIZE && walk(heap, 0, end)->Some_0.contains(p - HEADER_SIZE),
        |p: usize| block_at(heap, p - HEADER_SIZE),
    )
}

/// Appending a header at the end of the chain adds one allocation and keeps
/// the others.
proof fn lemma_append_block(old_heap: Seq<u8>, nh: Seq<u8>, h: int, size: nat)
    requires
        walk(old_heap, 0, h) is Some,
        0 <= h,
        h + HEADER_SIZE <= usize::MAX,
        h + HEADER_SIZE + round8(size) <= nh.len(),
        nh.len() == old_heap.len(),
        agree(old_heap, nh, 0, h),
        header_size(nh, h) == size,
    ensures
        walk(nh, 0, h + HEADER_SIZE + round8(size)) == Some(walk(old_heap, 0, h)->Some_0.push(h)),
        !walk(old_heap, 0, h)->Some_0.contains(h),
        blocks_of(nh, h + HEADER_SIZE + round8(size)) == blocks_of(old_heap, h).insert(
            (h + HEADER_SIZE) as usize,
            block_at(nh, h),
        ),
{
    let s = walk(old_heap, 0, h)->Some_0;
    lemma_walk_shape(old_heap, 0, h);
    assert forall|i: int| 0 <= i < s.len() implies agree(old_heap, nh, s[i], s[i] + 4) by {}
    lemma_walk_agree(old_heap, nh, 0, h);
    lemma_walk_append(nh, 0, h);
    let ns = s.push(h);
    assert(!s.contains(h)) by {
        if s.contains(h) {
            let i = s.index_of(h);
            lemma_region(old_heap, h, i);
        }
    }
    let before = blocks_of(old_heap, h);
    let after = blocks_of(nh, h + HEADER_SIZE + round8(size));
    let np = (h + HEADER_SIZE) as usize;
    assert(ns[s.len() as int] == h);
    assert(ns.contains(h));
    assert forall|p: usize| after.contains_key(p) <==> before.insert(np, block_at(nh, h)).contains_key(p) by {
        if p >= HEADER_SIZE && p != np {
            assert(ns.contains(p - HEADER_SIZE) == s.contains(p - HEADER_SIZE)) by {
                if ns.contains(p - HEADER_SIZE) {
                    let i = ns.index_of(p - HEADER_SIZE);
                    assert(i < s.len());
                    assert(s[i] == p - HEADER_SIZE);
                }
                if s.contains(p - HEADER_SIZE) {
                    let i = s.index_of(p - HEADER_SIZE);
                    assert(ns[i] == p - HEADER_SIZE);
                }
            }
        }
    }
    assert forall|p: usize| #[trigger] after.contains_key(p) && p != np implies after[p] == before[p] by {
        let x = p - HEADER_SIZE;
        let i = ns.index_of(x);
        assert(i < s.len());
        assert(s[i] == x);
        lemma_region(old_heap, h, i);
        assert(agree(old_heap, nh, x, x + 4));
        reveal_with_fuel(le_number, 5);
        assert(header_size(nh, x) == header_size(old_heap, x));
        assert(block_at(nh, x).bytes =~= block_at(old_heap, x).bytes);
    }
    assert(after =~= before.insert(np, block_at(nh, h)));
}

/// Facts about the allocation at header `s[i]`: where its bytes lie.
proof fn lemma_region(heap: Seq<u8>, end: int, i: int)
    requires
        walk(heap, 0, end) is Some,
        0 <= i < walk(heap, 0, end)->Some_0.len(),
        end <= heap.len(),
    ensures
        ({
            let s = walk(heap, 0, end)->Some_0;
            let x = s[i];
            &&& 0 <= x
            &&& x + HEADER_SIZE + header_size(heap, x) <= next_header(heap, x) <= end
            &&& forall|j: int| 0 <= j < s.len() && j != i ==> (next_header(heap, #[trigger] s[j]) <= x || s[j] >= next_header(heap, x))
            &&& header_size(heap, x) <= 0xFFFF_FFFF
            &&& block_at(heap, x).bytes.len() == header_size(heap, x)
        }),
{
    lemma_walk_shape(heap, 0, end);
    let s = walk(heap, 0, end)->Some_0;
    let x = s[i];
    reveal_with_fuel(le_number, 5);
    assert forall|j: int| 0 <= j < s.len() && j != i implies (next_header(heap, #[trigger] s[j]) <= x || s[j] >= next_header(heap, x)) by {
        if j < i {
            assert(next_header(heap, s[j]) <= s[i]);
        } else {
            assert(next_header(heap, s[i]) <= s[j]);
        }
    }
}

impl<const N: usize> Allocator for BumpAllocator<N> {
    closed spec fn wf(&self) -> bool {
        &&& self.heap@.len() == N
        &&& N <= 0xFFFF_FFF0
        &&& self.bump <= N
        &&& walk(self.heap@, 0, self.bump as int) is Some
    }

    closed spec fn blocks(&self) -> Map<usize, Block> {
        blocks_of(self.heap@, self.bump as int)
    }

    /// Headers count: the bump offset.
    closed spec fn used(&self) -> nat {
        self.bump as nat
    }

    open spec fn releases() -> bool {
        false
    }

    open spec fn moving() -> bool {
        true
    }

    /// The bump offset may go back to itself or to any header.
    closed spec fn can_reset_to(&self, new_top: usize) -> bool {
        new_top == self.bump || self.headers().contains(new_top as int)
    }

    proof fn lemma_block_sizes(&self) {
        let s = self.headers();
        let d = self.blocks().dom();
        let f = |x: int| (x + HEADER_SIZE) as usize;
        assert(d.subset_of(s.to_set().map(f))) by {
            assert forall|p: usize| d.contains(p) implies s.to_set().map(f).contains(p) by {
                let x = p - HEADER_SIZE;
                assert(s.to_set().contains(x));
                assert(f(x) == p);
            }
        }
        vstd::seq_lib::seq_to_set_is_finite(s);
        s.to_set().lemma_map_finite(f);
        vstd::set_lib::lemma_set_subset_finite(s.to_set().map(f), d);
        assert forall|p: usize| #[trigger]
            self.blocks().contains_key(p) implies self.blocks()[p].size <= usize::MAX
            && self.blocks()[p].bytes.len() == self.blocks()[p].size by {
            let i = s.index_of(p - HEADER_SIZE);
            lemma_region(self.heap@, self.bump as int, i);
        }
    }

    /// Rounds the size up to 8 bytes, writes the header at the bump offset
    /// and moves the bump offset past the allocation.
    fn allocate(&mut self, size: usize, contains_values: bool) -> (r: Option<Allocation>)
        ensures
            r matches Some(a) ==> a.ptr == old(self).used() + HEADER_SIZE && a.ptr % 8 == 0
                && final(self).used() == old(self).used() + HEADER_SIZE + round8(size as nat),
            r is Some ==> old(self).used() + HEADER_SIZE + round8(size as nat) <= N,
            r matches Some(a) ==> forall|p: usize|
                #[trigger] old(self).blocks().contains_key(p) ==> p < a.ptr,
            r is None ==> final(self).used() == old(self).used() && old(self).used() + HEADER_SIZE
                + round8(size as nat) > N,
    {
        if size > N {
            return None;
        }
        let aligned_size = align8(size);
        let total = HEADER_SIZE + aligned_size;
        if total > N - self.bump {
            return None;
        }
        let h = self.bump;
        proof {
            lemma_walk_aligned(self.heap@, 0, h as int);
            assert(round8(size as nat) % 8 == 0) by (nonlinear_arith)
                requires
                    round8(size as nat) == (size + 7) / 8 * 8,
            ;
        }
        let ghost old_heap = self.heap@;
        let ghost s = self.headers();
        self.write_header(h, size, contains_values);
        proof {
            let nh = self.heap@;
            lemma_append_block(old_heap, nh, h as int, size as nat);
        }
        self.bump = h + total;
        let a = Allocation { ptr: h + HEADER_SIZE, size };
        proof {
            let after = self.blocks();
            assert(after[a.ptr] == block_at(self.heap@, h as int));
            assert(block_at(self.heap@, h as int).bytes.len() == size);
            assert(fresh_allocation(old(self).blocks(), after, a, size, contains_values));
            assert forall|p: usize| #[trigger] old(self).blocks().contains_key(p) implies p < a.ptr by {
                let i = s.index_of((p - HEADER_SIZE) as int);
                lemma_region(old_heap, h as int, i);
            }
        }
        Some(a)
    }

    /// A bump allocator reclaims space only through `reset_bump`.
    fn free(&mut self, ptr: usize)
        ensures
            final(self).blocks() == old(self).blocks(),
            final(self).used() == old(self).used(),
    {
    }

    /// Walks the header chain.
    fn is_live(&self, ptr: usize) -> (r: bool) {
        self.find(ptr).is_some()
    }

    fn size_of(&self, ptr: usize) -> (r: usize) {
        let ghost i = self.headers().index_of(ptr - HEADER_SIZE);
        proof {
            lemma_region(self.heap@, self.bump as int, i);
        }
        self.read_size(ptr - HEADER_SIZE) as usize
    }

    fn is_traced(&self, ptr: usize) -> (r: bool) {
        let ghost i = self.headers().index_of(ptr - HEADER_SIZE);
        proof {
            lemma_region(self.heap@, self.bump as int, i);
        }
        self.heap[ptr - HEADER_SIZE + 4] != 0
    }

    fn reset_bump(&mut self, new_top: usize) {
        let ghost s = self.headers();
        proof {
            lemma_walk_shape(self.heap@, 0, self.bump as int);
            if new_top != self.bump {
                let k = s.index_of(new_top as int);
                lemma_walk_prefix(self.heap@, 0, self.bump as int, k);
                lemma_region(self.heap@, self.bump as int, k);
            }
        }
        self.bump = new_top;
        proof {
            let before = old(self).blocks();
            let after = self.blocks();
            let ns = self.headers();
            let keep = before.restrict(Set::new(|p: usize| p <= new_top));
            assert forall|p: usize| after.contains_key(p) <==> keep.contains_key(p) by {
                if p >= HEADER_SIZE {
                    let x = p - HEADER_SIZE;
                    if new_top != old(self).bump {
                        let k = s.index_of(new_top as int);
                        assert(ns == s.take(k));
                        if s.contains(x) {
                            let i = s.index_of(x);
                            lemma_region(self.heap@, old(self).bump as int, i);
                            lemma_region(self.heap@, old(self).bump as int, k);
                            if i < k {
                                assert(ns[i] == x);
                            }
                        }
                        if ns.contains(x) {
                            let i = ns.index_of(x);
                            assert(s[i] == x);
                            lemma_region(self.heap@, old(self).bump as int, i);
                            lemma_region(self.heap@, old(self).bump as int, k);
                        }
                    } else {
                        if s.contains(x) {
                            let i = s.index_of(x);
                            lemma_region(self.heap@, old(self).bump as int, i);
                        }
                    }
                }
            }
            assert(after =~= keep);
        }
    }

    fn is_moving() -> (r: bool) {
        true
    }

    /// Includes the headers.
    fn bytes_used(&self) -> (r: usize) {
        self.bump
    }

    #[verifier::rlimit(40)]
    fn set_marked(&mut self, ptr: usize, marked: bool) {
        let ghost s = self.headers();
        let ghost i = s.index_of(ptr - HEADER_SIZE);
        let ghost old_heap = self.heap@;
        proof {
            assert(self.blocks().contains_key(ptr));
            assert(s.contains(ptr - HEADER_SIZE));
        }
        let q = ptr - HEADER_SIZE + 5;
        proof {
            lemma_region(old_heap, self.bump as int, i);
            assert forall|j: int| 0 <= j < s.len() implies !(s[j] <= q < #[trigger] s[j] + 4) by {
                if j != i {
                    lemma_walk_shape(old_heap, 0, self.bump as int);
                }
            }
            lemma_write_one(old_heap, self.bump as int, q as int, if marked { 1u8 } else { 0u8 });
        }
        self.heap.set(q, if marked { 1 } else { 0 });
        proof {
            let before = old(self).blocks();
            let after = self.blocks();
            let x = s[i];
            reveal_with_fuel(le_number, 5);
            assert(header_size(self.heap@, x) == header_size(old_heap, x));
            assert(block_at(self.heap@, x).bytes =~= block_at(old_heap, x).bytes);
            assert forall|p: usize| #[trigger] after.contains_key(p) && p != ptr implies after[p] == before[p] by {
                let j = s.index_of(p - HEADER_SIZE);
                lemma_region(old_heap, old(self).bump as int, j);
            }
            assert(after =~= before.insert(ptr, with_mark(before[ptr], marked)));
        }
    }

    fn is_marked(&self, ptr: usize) -> (r: bool) {
        let ghost i = self.headers().index_of(ptr - HEADER_SIZE);
        proof {
            lemma_region(self.heap@, self.bump as int, i);
        }
        self.heap[ptr - HEADER_SIZE + 5] != 0
    }

    fn load_byte(&self, ptr: usize, offset: usize) -> (r: Option<u8>) {
        match self.find(ptr) {
            Some(size) => if offset < size {
                let ghost i = self.headers().index_of(ptr - HEADER_SIZE);
                proof {
                    lemma_region(self.heap@, self.bump as int, i);
                }
                Some(self.heap[ptr + offset])
            } else {
                None
            },
            None => None,
        }
    }

    #[verifier::rlimit(40)]
    fn store_byte(&mut self, ptr: usize, offset: usize, value: u8) -> (r: bool) {
        let size = match self.find(ptr) {
            Some(size) => size,
            None => {
                return false;
            },
        };
        if offset >= size {
            return false;
        }
        let ghost s = self.headers();
        let ghost i = s.index_of(ptr - HEADER_SIZE);
        let ghost old_heap = self.heap@;
        proof {
            lemma_region(old_heap, self.bump as int, i);
        }
        let q = ptr + offset;
        proof {
            assert forall|j: int| 0 <= j < s.len() implies !(s[j] <= q < #[trigger] s[j] + 4) by {
                if j != i {
                    lemma_walk_shape(old_heap, 0, self.bump as int);
                }
            }
            lemma_write_one(old_heap, self.bump as int, q as int, value);
        }
        self.heap.set(q, value);
        proof {
            let before = old(self).blocks();
            let after = self.blocks();
            let x = s[i];
            reveal_with_fuel(le_number, 5);
            assert(header_size(self.heap@, x) == header_size(old_heap, x));
            assert(block_at(self.heap@, x).bytes =~= block_at(old_heap, x).bytes.update(
                offset as int,
                value,
            ));
            assert forall|p: usize| #[trigger] after.contains_key(p) && p != ptr implies after[p] == before[p] by {
                let j = s.index_of(p - HEADER_SIZE);
                lemma_region(old_heap, old(self).bump as int, j);
            }
            assert(after =~= before.insert(ptr, with_byte(before[ptr], offset as int, value)));
        }
        true
    }
}

impl<const N: usize> WalkableAllocator for BumpAllocator<N> {
    /// Walks the header chain from the bottom of the heap: the allocations
    /// come in address order, which is the order they were made in.
    fn live_allocations(&self) -> (r: Vec<Allocation>)
        ensures
            forall|i: int, j: int| 0 <= i < j < r@.len() ==> #[trigger] r@[i].ptr < #[trigger] r@[j].ptr,
    {
        let ghost s = self.headers();
        proof {
            lemma_walk_shape(self.heap@, 0, self.bump as int);
        }
        let mut out: Vec<Allocation> = Vec::new();
        let mut offset: usize = 0;
        while offset < self.bump
            invariant
                self.wf(),
                s == self.headers(),
                out@.len() <= s.len(),
                out@.len() < s.len() ==> s[out@.len() as int] == offset,
                out@.len() == s.len() ==> offset == self.bump,
                forall|j: int|
                    0 <= j < out@.len() ==> (#[trigger] out@[j]).ptr == s[j] + HEADER_SIZE
                        && out@[j].size == header_size(self.heap@, s[j]),
            decreases self.bump - offset,
        {
            proof {
                lemma_walk_shape(self.heap@, 0, self.bump as int);
                lemma_region(self.heap@, self.bump as int, out@.len() as int);
            }
            let size = self.read_size(offset) as usize;
            let aligned_size = align8(size);
            proof {
                if out@.len() + 1 < s.len() {
                    lemma_walk_next(self.heap@, 0, self.bump as int, out@.len() as int);
                } else {
                    lemma_walk_last(self.heap@, 0, self.bump as int);
                }
            }
            out.push(Allocation { ptr: offset + HEADER_SIZE, size });
            offset += HEADER_SIZE + aligned_size;
        }
        proof {
            let b = self.blocks();
            assert forall|p: usize| b.contains_key(p) implies exists|i: int|
                0 <= i < out@.len() && #[trigger] out@[i].ptr == p by {
                let i = s.index_of(p - HEADER_SIZE);
                assert(out@[i].ptr == p);
            }
            assert forall|i: int, j: int|
                0 <= i < j < out@.len() implies #[trigger] out@[i].ptr < #[trigger] out@[j].ptr by {
                lemma_region(self.heap@, self.bump as int, i);
            }
            assert forall|i: int| 0 <= i < out@.len() implies b.contains_key(#[trigger] out@[i].ptr)
                && out@[i].size == b[out@[i].ptr].size by {
                assert(s.contains(s[i]));
            }
        }
        out
    }
}

} // verus!
