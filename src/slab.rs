//! Object caches for sizes `2^3` to `2^12`, each a list of free-list
//! allocators over frames taken from a buddy allocator.
use crate::buddy::{
    BuddyAllocator, BuddyView, took_block, fits, is_order_for, pow2, disjoint, FRAME_SIZE,
    lemma_range_fits,
};
use crate::free_list::{FreeListAllocator, FreeListView};
use vstd::prelude::*;

verus! {

/// Number of size classes.
pub const NUM_CLASSES: usize = 10;

/// Size of the smallest class, in bytes.
pub const MIN_OBJECT_SIZE: usize = 8;

/// Size of the largest class, in bytes.
pub const MAX_OBJECT_SIZE: usize = 4096;

/// Object size of class `c`: `2^(c + 3)`.
pub open spec fn class_size(c: nat) -> nat {
    pow2(c + 3)
}

/// Whether class `c` is the one for requests of `size` bytes: the smallest
/// class whose objects hold them.
pub open spec fn is_class_for(size: nat, c: nat) -> bool {
    &&& c < NUM_CLASSES
    &&& class_size(c) >= size
    &&& (c == 0 || class_size((c - 1) as nat) < size)
}

/// Whether `i` is the first allocator of `s` that can hand out a block.
pub open spec fn first_fit(s: Seq<FreeListView>, i: int) -> bool {
    &&& 0 <= i < s.len()
    &&& s[i].next_block() is Some
    &&& forall|j: int| 0 <= j < i ==> (#[trigger] s[j]).next_block() is None
}

/// Whether no allocator of `s` can hand out a block.
pub open spec fn no_fit(s: Seq<FreeListView>) -> bool {
    forall|j: int| 0 <= j < s.len() ==> (#[trigger] s[j]).next_block() is None
}

/// A fresh free-list allocator over `bytes` bytes at `a` for class `c`.
pub open spec fn fresh(a: nat, bytes: nat, c: nat) -> FreeListView {
    FreeListView {
        start: a,
        next: a,
        end: a + bytes,
        block_size: class_size(c),
        free: Seq::empty(),
        live: Set::empty(),
    }
}

/// Frames the next growth of a class asks for: twice the last, as long as
/// that fits in the range.
pub open spec fn grown_frames(f: nat, frames: nat) -> nat {
    if 2 * f <= frames {
        2 * f
    } else {
        f
    }
}

/// What a slab allocator holds: its buddy allocator, the free-list allocators
/// of each class in order of address, and the frames each class asks for
/// when it next grows.
pub struct SlabView {
    pub buddy: BuddyView,
    pub caches: Seq<Seq<FreeListView>>,
    pub frames_next: Seq<nat>,
}

impl SlabView {
    /// Whether block `p` is live in allocator `i` of class `c`.
    pub open spec fn owns(self, c: int, i: int, p: usize) -> bool {
        0 <= c < self.caches.len() && 0 <= i < self.caches[c].len() && self.caches[c][i].live.contains(p)
    }

    /// There is one cache and one growth size, at least one frame, for each
    /// class; every allocator is well formed with the object size of its
    /// class, and no two allocators' regions overlap.
    pub open spec fn caches_ok(self) -> bool {
        &&& self.caches.len() == NUM_CLASSES
        &&& self.frames_next.len() == NUM_CLASSES
        &&& forall|c: int| 0 <= c < NUM_CLASSES ==> #[trigger] self.frames_next[c] >= 1
        &&& forall|c: int, i: int|
            0 <= c < self.caches.len() && 0 <= i < self.caches[c].len() ==> (#[trigger] self.caches[c][i]).wf()
                && self.caches[c][i].block_size == class_size(c as nat)
        &&& forall|c1: int, i1: int, c2: int, i2: int|
            0 <= c1 < self.caches.len() && 0 <= i1 < self.caches[c1].len() && 0 <= c2 < self.caches.len() && 0
                <= i2 < self.caches[c2].len() && (c1 != c2 || i1 != i2) ==> #[trigger] self.caches[c1][i1].end
                <= #[trigger] self.caches[c2][i2].start || self.caches[c2][i2].end <= self.caches[c1][i1].start
    }

    /// Whether `new` is `self` after a request of `size` bytes answered with
    /// `r`: the first allocator of the class with a block to spare hands it
    /// out; when none has, the class grows by a block from the buddy
    /// allocator, placed in address order, whose first object is handed out;
    /// when the buddy has no such block either, nothing changes.
    pub open spec fn allocated(self, size: nat, new: Self, r: Option<usize>) -> bool {
        &&& size > MAX_OBJECT_SIZE ==> r is None && new == self
        &&& forall|c: nat| #[trigger] is_class_for(size, c) ==> {
            let s = self.caches[c as int];
            let bytes = (self.frames_next[c as int] * FRAME_SIZE) as nat;
            if !no_fit(s) {
                exists|i: int| #[trigger] first_fit(s, i) && r == s[i].next_block() && new == (SlabView {
                    caches: self.caches.update(c as int, s.update(i, s[i].allocated())),
                    ..self
                })
            } else if fits(bytes, self.buddy.max_order) && exists|k: nat, g: nat|
                #[trigger] is_order_for(bytes, k) && #[trigger] self.buddy.free.contains_key(g) && self.buddy.free[g] >= k {
                forall|k: nat| #[trigger] is_order_for(bytes, k) ==> exists|a: usize| #[trigger] took_block(self.buddy, new.buddy, k, a as nat)
                    && r == Some(a)
                    && new.frames_next == self.frames_next.update(
                        c as int,
                        grown_frames(self.frames_next[c as int], self.buddy.frames),
                    )
                    && exists|pos: int| 0 <= pos <= s.len()
                        && (forall|j: int| 0 <= j < pos ==> (#[trigger] s[j]).start < a)
                        && (forall|j: int| pos <= j < s.len() ==> (#[trigger] s[j]).start > a)
                        && new.caches == self.caches.update(c as int, #[trigger] s.insert(pos, fresh(a as nat, bytes, c).allocated()))
            } else {
                r is None && new == self
            }
        }
    }

    /// Whether `new` is `self` after block `p` went back to the allocator in
    /// which it is live.
    pub open spec fn freed(self, p: usize, new: Self) -> bool {
        forall|c: int, i: int| #[trigger] self.owns(c, i, p) ==> new == (SlabView {
            caches: self.caches.update(c, self.caches[c].update(i, self.caches[c][i].freed(p))),
            ..self
        })
    }
}

proof fn lemma_class_sizes()
    ensures
        class_size(0) == 8,
        class_size(1) == 16,
        class_size(2) == 32,
        class_size(3) == 64,
        class_size(4) == 128,
        class_size(5) == 256,
        class_size(6) == 512,
        class_size(7) == 1024,
        class_size(8) == 2048,
        class_size(9) == 4096,
{
    reveal_with_fuel(pow2, 13);
}

/// Every request of at most `MAX_OBJECT_SIZE` bytes has exactly one class.
pub proof fn lemma_class_exists(size: nat)
    requires
        size <= MAX_OBJECT_SIZE,
    ensures
        exists|c: nat| #[trigger] is_class_for(size, c),
        forall|c1: nat, c2: nat| is_class_for(size, c1) && is_class_for(size, c2) ==> c1 == c2,
{
    lemma_class_sizes();
    let c: nat = if size <= 8 { 0 } else if size <= 16 { 1 } else if size <= 32 { 2 } else if size <= 64 { 3 }
        else if size <= 128 { 4 } else if size <= 256 { 5 } else if size <= 512 { 6 } else if size <= 1024 { 7 }
        else if size <= 2048 { 8 } else { 9 };
    assert(is_class_for(size, c));
    assert forall|c1: nat, c2: nat| is_class_for(size, c1) && is_class_for(size, c2) implies c1 == c2 by {
        if c1 < c2 {
            crate::buddy::lemma_pow2_mono((c1 + 3) as nat, (c2 + 2) as nat);
        } else if c2 < c1 {
            crate::buddy::lemma_pow2_mono((c2 + 3) as nat, (c1 + 2) as nat);
        }
    }
}

proof fn lemma_alloc_owner(v0: SlabView, v1: SlabView, size: nat, p: usize)
    requires
        v0.caches_ok(),
        v0.allocated(size, v1, Some(p)),
    ensures
        size <= MAX_OBJECT_SIZE,
        exists|c: nat, i: int| #[trigger] is_class_for(size, c) && #[trigger] v1.owns(c as int, i, p)
            && v1.caches[c as int][i].block_size == class_size(c)
            && forall|j: int| 0 <= j < i ==> (#[trigger] v1.caches[c as int][j]).next_block() is None,
{
    assert(size <= MAX_OBJECT_SIZE);
    lemma_class_exists(size);
    let c = choose|c: nat| #[trigger] is_class_for(size, c);
    let s = v0.caches[c as int];
    let bytes = (v0.frames_next[c as int] * FRAME_SIZE) as nat;
    if !no_fit(s) {
        let i = choose|i: int| #[trigger] first_fit(s, i) && Some(p) == s[i].next_block() && v1 == (SlabView {
            caches: v0.caches.update(c as int, s.update(i, s[i].allocated())),
            ..v0
        });
        assert(v1.owns(c as int, i, p));
        assert forall|j: int| 0 <= j < i implies (#[trigger] v1.caches[c as int][j]).next_block() is None by {
            assert(v1.caches[c as int][j] == s[j]);
        }
    } else {
        let (k, g) = choose|k: nat, g: nat| #[trigger] is_order_for(bytes, k) && #[trigger] v0.buddy.free.contains_key(g) && v0.buddy.free[g] >= k;
        let a = choose|a: usize| #[trigger] took_block(v0.buddy, v1.buddy, k, a as nat)
            && Some(p) == Some(a)
            && v1.frames_next == v0.frames_next.update(
                c as int,
                grown_frames(v0.frames_next[c as int], v0.buddy.frames),
            )
            && exists|pos: int| 0 <= pos <= s.len()
                && (forall|j: int| 0 <= j < pos ==> (#[trigger] s[j]).start < a)
                && (forall|j: int| pos <= j < s.len() ==> (#[trigger] s[j]).start > a)
                && v1.caches == v0.caches.update(c as int, #[trigger] s.insert(pos, fresh(a as nat, bytes, c).allocated()));
        let pos = choose|pos: int| 0 <= pos <= s.len()
                && (forall|j: int| 0 <= j < pos ==> (#[trigger] s[j]).start < a)
                && (forall|j: int| pos <= j < s.len() ==> (#[trigger] s[j]).start > a)
                && v1.caches == v0.caches.update(c as int, #[trigger] s.insert(pos, fresh(a as nat, bytes, c).allocated()));
        lemma_class_sizes();
        assert(class_size(c) <= bytes);
        assert(v1.caches[c as int][pos] == fresh(a as nat, bytes, c).allocated());
        assert(v1.owns(c as int, pos, p));
        assert forall|j: int| 0 <= j < pos implies (#[trigger] v1.caches[c as int][j]).next_block() is None by {
            assert(v1.caches[c as int][j] == s[j]);
        }
    }
}

/// Size-class routing: a block handed out for `size` bytes is a live block
/// of an allocator of the class `2^ceil(log2 size)` (at least `2^3`).
pub proof fn lemma_slab_class(v0: SlabView, v1: SlabView, size: nat, p: usize)
    requires
        v0.caches_ok(),
        v0.allocated(size, v1, Some(p)),
    ensures
        size <= MAX_OBJECT_SIZE,
        exists|c: nat, i: int| #[trigger] is_class_for(size, c) && #[trigger] v1.owns(c as int, i, p)
            && v1.caches[c as int][i].block_size == class_size(c),
{
    lemma_alloc_owner(v0, v1, size, p);
}

/// Reuse: when a request of `size` bytes gets block `p` and `p` is freed,
/// the next request of `size` bytes gets `p` again.
pub proof fn lemma_slab_reuse(
    v0: SlabView,
    v1: SlabView,
    v2: SlabView,
    v3: SlabView,
    size: nat,
    p: usize,
    r: Option<usize>,
)
    requires
        v0.caches_ok(),
        v0.allocated(size, v1, Some(p)),
        v1.freed(p, v2),
        v2.allocated(size, v3, r),
    ensures
        r == Some(p),
{
    lemma_alloc_owner(v0, v1, size, p);
    lemma_class_exists(size);
    let (c, i) = choose|c: nat, i: int| #[trigger] is_class_for(size, c) && #[trigger] v1.owns(c as int, i, p)
        && v1.caches[c as int][i].block_size == class_size(c)
        && forall|j: int| 0 <= j < i ==> (#[trigger] v1.caches[c as int][j]).next_block() is None;
    let s1 = v1.caches[c as int];
    let s2 = v2.caches[c as int];
    assert(v2 == (SlabView { caches: v1.caches.update(c as int, s1.update(i, s1[i].freed(p))), ..v1 }));
    assert(s2 == s1.update(i, s1[i].freed(p)));
    assert(s2[i].next_block() == Some(p));
    assert(!no_fit(s2));
    assert(first_fit(s2, i)) by {
        assert forall|j: int| 0 <= j < i implies (#[trigger] s2[j]).next_block() is None by {
            assert(s2[j] == s1[j]);
        }
    }
    let i2 = choose|i2: int| #[trigger] first_fit(s2, i2) && r == s2[i2].next_block() && v3 == (SlabView {
        caches: v2.caches.update(c as int, s2.update(i2, s2[i2].allocated())),
        ..v2
    });
    assert(i2 == i);
}

/// The object cache of a kernel heap: per size class, free-list allocators
/// over blocks of frames from a buddy allocator.
pub struct SlabAllocator {
    buddy: BuddyAllocator,
    caches: Vec<Vec<FreeListAllocator>>,
    frames_next: Vec<usize>,
    owners: Ghost<Seq<Seq<nat>>>,
}

/// Byte range of the buddy block at frame `f` of order `k`.
pub open spec fn block_lo(b: BuddyView, f: nat) -> nat {
    (b.start + f * FRAME_SIZE) as nat
}

pub open spec fn block_hi(b: BuddyView, f: nat, k: nat) -> nat {
    (b.start + (f + pow2(k)) * FRAME_SIZE) as nat
}

impl SlabAllocator {
    pub closed spec fn view(&self) -> SlabView {
        SlabView {
            buddy: self.buddy@,
            caches: self.caches@.map_values(|v: Vec<FreeListAllocator>| v@.map_values(|a: FreeListAllocator| a@)),
            frames_next: self.frames_next@.map_values(|f: usize| f as nat),
        }
    }

    pub closed spec fn wf(&self) -> bool {
        &&& self.buddy.wf()
        &&& self.caches@.len() == NUM_CLASSES
        &&& self.frames_next@.len() == NUM_CLASSES
        &&& self.owners@.len() == NUM_CLASSES
        &&& self@.caches_ok()
        &&& forall|c: int| 0 <= c < NUM_CLASSES ==> (#[trigger] self.frames_next@[c]) <= self.buddy@.frames
            || self.frames_next@[c] == 1
        &&& forall|c: int| 0 <= c < NUM_CLASSES ==> (#[trigger] self.owners@[c]).len() == self.caches@[c]@.len()
        &&& forall|c: int, i: int|
            0 <= c < NUM_CLASSES && 0 <= i < self.caches@[c]@.len() ==> (#[trigger] self.caches@[c]@[i]).wf()
        &&& forall|c: int, i: int|
            0 <= c < NUM_CLASSES && 0 <= i < self.caches@[c]@.len() ==> {
                let o = #[trigger] self.owners@[c][i];
                let a = self.caches@[c]@[i]@;
                &&& self.buddy@.live.contains_key(o)
                &&& block_lo(self.buddy@, o) <= a.start
                &&& a.start < a.end
                &&& a.end <= block_hi(self.buddy@, o, self.buddy@.live[o])
            }
        &&& forall|c1: int, i1: int, c2: int, i2: int|
            0 <= c1 < NUM_CLASSES && 0 <= i1 < self.caches@[c1]@.len() && 0 <= c2 < NUM_CLASSES && 0 <= i2
                < self.caches@[c2]@.len() && (c1 != c2 || i1 != i2) ==> #[trigger] self.owners@[c1][i1]
                != #[trigger] self.owners@[c2][i2]
        &&& forall|c: int, i: int, j: int|
            0 <= c < NUM_CLASSES && 0 <= i < j < self.caches@[c]@.len() ==> #[trigger] self.caches@[c]@[i]@.start
                < #[trigger] self.caches@[c]@[j]@.start
    }

    /// A slab allocator with no objects yet, over the frames of
    /// `[start_address, end_address)`.
    pub fn new(start_address: usize, end_address: usize) -> (r: SlabAllocator)
        requires
            start_address <= end_address,
        ensures
            r.wf(),
            r@.caches_ok(),
            r@.buddy.start == start_address,
            r@.buddy.frames == (end_address - start_address) / (FRAME_SIZE as int),
            r@.buddy.live == Map::<nat, nat>::empty(),
            crate::buddy::is_top_order(r@.buddy.frames, r@.buddy.max_order),
            r@.buddy.free == crate::buddy::greedy(Map::empty(), 0, r@.buddy.frames, r@.buddy.max_order),
            forall|c: int| 0 <= c < NUM_CLASSES ==> (#[trigger] r@.caches[c]).len() == 0 && r@.frames_next[c] == 1,
    {
        let buddy = BuddyAllocator::new(start_address, end_address);
        let mut caches: Vec<Vec<FreeListAllocator>> = Vec::new();
        let mut frames_next: Vec<usize> = Vec::new();
        let mut c: usize = 0;
        while c < NUM_CLASSES
            invariant
                c <= NUM_CLASSES,
                caches@.len() == c,
                frames_next@.len() == c,
                forall|j: int| 0 <= j < c ==> (#[trigger] caches@[j])@.len() == 0,
                forall|j: int| 0 <= j < c ==> #[trigger] frames_next@[j] == 1,
            decreases NUM_CLASSES - c,
        {
            caches.push(Vec::new());
            frames_next.push(1);
            c = c + 1;
        }
        let r = SlabAllocator {
            buddy,
            caches,
            frames_next,
            owners: Ghost(Seq::new(NUM_CLASSES as nat, |c: int| Seq::<nat>::empty())),
        };
        proof {
            assert forall|c: int| 0 <= c < NUM_CLASSES implies (#[trigger] r@.caches[c]).len() == 0 && r@.frames_next[c]
                == 1 && r.owners@[c].len() == 0 && r.caches@[c]@.len() == 0 by {
                assert(r.caches@[c]@.len() == 0);
            }
            assert(r@.caches.len() == NUM_CLASSES);
            assert(r@.frames_next.len() == NUM_CLASSES);
        }
        r
    }
}

/// The class for requests of `size` bytes.
fn class_index(size: usize) -> (r: usize)
    requires
        size <= MAX_OBJECT_SIZE,
    ensures
        is_class_for(size as nat, r as nat),
{
    proof {
        lemma_class_sizes();
    }
    if size <= 8 {
        0
    } else if size <= 16 {
        1
    } else if size <= 32 {
        2
    } else if size <= 64 {
        3
    } else if size <= 128 {
        4
    } else if size <= 256 {
        5
    } else if size <= 512 {
        6
    } else if size <= 1024 {
        7
    } else if size <= 2048 {
        8
    } else {
        9
    }
}

/// Object size of class `c`.
fn class_size_exec(c: usize) -> (r: usize)
    requires
        c < NUM_CLASSES,
    ensures
        r == class_size(c as nat),
        8 <= r <= MAX_OBJECT_SIZE,
{
    proof {
        lemma_class_sizes();
    }
    if c == 0 {
        8
    } else if c == 1 {
        16
    } else if c == 2 {
        32
    } else if c == 3 {
        64
    } else if c == 4 {
        128
    } else if c == 5 {
        256
    } else if c == 6 {
        512
    } else if c == 7 {
        1024
    } else if c == 8 {
        2048
    } else {
        4096
    }
}

proof fn lemma_blocks_apart(b: BuddyView, o1: nat, k1: nat, o2: nat, k2: nat)
    requires
        disjoint(o1, k1, o2, k2),
    ensures
        block_hi(b, o1, k1) <= block_lo(b, o2) || block_hi(b, o2, k2) <= block_lo(b, o1),
{
    if o1 + pow2(k1) <= o2 {
        assert((o1 + pow2(k1)) * FRAME_SIZE <= o2 * FRAME_SIZE) by (nonlinear_arith)
            requires
                o1 + pow2(k1) <= o2,
        ;
    } else {
        assert((o2 + pow2(k2)) * FRAME_SIZE <= o1 * FRAME_SIZE) by (nonlinear_arith)
            requires
                o2 + pow2(k2) <= o1,
        ;
    }
}

impl SlabAllocator {
    /// Allocators inside distinct live buddy blocks have disjoint regions.
    proof fn lemma_regions_apart(&self)
        requires
            self.buddy.wf(),
            self.caches@.len() == NUM_CLASSES,
            self.owners@.len() == NUM_CLASSES,
            forall|c: int| 0 <= c < NUM_CLASSES ==> (#[trigger] self.owners@[c]).len() == self.caches@[c]@.len(),
            forall|c: int, i: int|
                0 <= c < NUM_CLASSES && 0 <= i < self.caches@[c]@.len() ==> {
                    let o = #[trigger] self.owners@[c][i];
                    let a = self.caches@[c]@[i]@;
                    &&& self.buddy@.live.contains_key(o)
                    &&& block_lo(self.buddy@, o) <= a.start
                    &&& a.start < a.end
                    &&& a.end <= block_hi(self.buddy@, o, self.buddy@.live[o])
                },
            forall|c1: int, i1: int, c2: int, i2: int|
                0 <= c1 < NUM_CLASSES && 0 <= i1 < self.caches@[c1]@.len() && 0 <= c2 < NUM_CLASSES && 0 <= i2
                    < self.caches@[c2]@.len() && (c1 != c2 || i1 != i2) ==> #[trigger] self.owners@[c1][i1]
                    != #[trigger] self.owners@[c2][i2],
        ensures
            forall|c1: int, i1: int, c2: int, i2: int|
                0 <= c1 < self@.caches.len() && 0 <= i1 < self@.caches[c1].len() && 0 <= c2 < self@.caches.len() && 0
                    <= i2 < self@.caches[c2].len() && (c1 != c2 || i1 != i2) ==> #[trigger] self@.caches[c1][i1].end
                    <= #[trigger] self@.caches[c2][i2].start || self@.caches[c2][i2].end <= self@.caches[c1][i1].start,
    {
        crate::buddy::lemma_live_blocks_disjoint(&self.buddy);
        assert forall|c1: int, i1: int, c2: int, i2: int|
            0 <= c1 < self@.caches.len() && 0 <= i1 < self@.caches[c1].len() && 0 <= c2 < self@.caches.len() && 0
                <= i2 < self@.caches[c2].len() && (c1 != c2 || i1 != i2) implies #[trigger] self@.caches[c1][i1].end
                <= #[trigger] self@.caches[c2][i2].start || self@.caches[c2][i2].end <= self@.caches[c1][i1].start by {
            let o1 = self.owners@[c1][i1];
            let o2 = self.owners@[c2][i2];
            assert(self@.caches[c1][i1] == self.caches@[c1]@[i1]@);
            assert(self@.caches[c2][i2] == self.caches@[c2]@[i2]@);
            assert(self.buddy@.live.contains_key(o1) && self.buddy@.live.contains_key(o2) && o1 != o2);
            lemma_blocks_apart(self.buddy@, o1, self.buddy@.live[o1], o2, self.buddy@.live[o2]);
        }
    }

    /// Inserting a new allocator whose region lies in a block just taken from
    /// the buddy, at its place in address order, keeps the whole well formed.
    proof fn lemma_grown_wf(a0: &SlabAllocator, b: &SlabAllocator, c: int, pos: int, fb: nat, k: nat, fl: &FreeListAllocator)
        requires
            a0.wf(),
            0 <= c < NUM_CLASSES,
            0 <= pos <= a0.caches@[c]@.len(),
            b.buddy.wf(),
            b.buddy@.start == a0.buddy@.start,
            b.buddy@.frames == a0.buddy@.frames,
            b.buddy@.live == a0.buddy@.live.insert(fb, k),
            !a0.buddy@.live.contains_key(fb),
            b.caches@.len() == NUM_CLASSES,
            b.caches@[c]@ == a0.caches@[c]@.insert(pos, *fl),
            forall|d: int| 0 <= d < NUM_CLASSES && d != c ==> #[trigger] b.caches@[d] == a0.caches@[d],
            b.owners@ == a0.owners@.update(c, a0.owners@[c].insert(pos, fb)),
            b.frames_next@.len() == NUM_CLASSES,
            forall|d: int| 0 <= d < NUM_CLASSES ==> #[trigger] b.frames_next@[d] >= 1 && (b.frames_next@[d]
                <= b.buddy@.frames || b.frames_next@[d] == 1),
            fl.wf(),
            fl@.block_size == class_size(c as nat),
            block_lo(b.buddy@, fb) <= fl@.start,
            fl@.start < fl@.end,
            fl@.end <= block_hi(b.buddy@, fb, k),
            forall|j: int| 0 <= j < pos ==> (#[trigger] a0.caches@[c]@[j])@.start < fl@.start,
            forall|j: int| pos <= j < a0.caches@[c]@.len() ==> (#[trigger] a0.caches@[c]@[j])@.start > fl@.start,
        ensures
            b.wf(),
    {
        let nc = b.caches@[c]@;
        let oc = a0.caches@[c]@;
        assert forall|d: int, i: int| #![trigger b.owners@[d][i]] #![trigger b@.caches[d][i]]
            0 <= d < NUM_CLASSES && 0 <= i < b.caches@[d]@.len() implies {
            let o = b.owners@[d][i];
            let x = b.caches@[d]@[i]@;
            &&& b.buddy@.live.contains_key(o)
            &&& block_lo(b.buddy@, o) <= x.start
            &&& x.start < x.end
            &&& x.end <= block_hi(b.buddy@, o, b.buddy@.live[o])
            &&& b.caches@[d]@[i].wf()
            &&& x.block_size == class_size(d as nat)
            &&& (o == fb <==> (d == c && i == pos))
            &&& b@.caches[d][i] == x
            &&& x.wf()
        } by {
            assert(b@.caches[d][i] == b.caches@[d]@[i]@);
            if d != c || i != pos {
                let oi = if d != c || i < pos { i } else { i - 1 };
                assert(b.owners@[d][i] == a0.owners@[d][oi]);
                assert(b.caches@[d]@[i] == a0.caches@[d]@[oi]);
                let o = a0.owners@[d][oi];
                assert(a0.buddy@.live.contains_key(o));
                crate::free_list::lemma_view_wf(&a0.caches@[d]@[oi]);
                assert(a0@.caches[d][oi] == a0.caches@[d]@[oi]@);
            } else {
                assert(b.caches@[d]@[i] == *fl);
            }
            crate::free_list::lemma_view_wf(&b.caches@[d]@[i]);
        }
        assert forall|c1: int, i1: int, c2: int, i2: int|
            0 <= c1 < NUM_CLASSES && 0 <= i1 < b.caches@[c1]@.len() && 0 <= c2 < NUM_CLASSES && 0 <= i2
                < b.caches@[c2]@.len() && (c1 != c2 || i1 != i2) implies #[trigger] b.owners@[c1][i1]
                != #[trigger] b.owners@[c2][i2] by {
            if (c1 == c && i1 == pos) || (c2 == c && i2 == pos) {
            } else {
                let o1i = if c1 != c || i1 < pos { i1 } else { i1 - 1 };
                let o2i = if c2 != c || i2 < pos { i2 } else { i2 - 1 };
                assert(b.owners@[c1][i1] == a0.owners@[c1][o1i]);
                assert(b.owners@[c2][i2] == a0.owners@[c2][o2i]);
            }
        }
        assert forall|d: int, i: int, j: int|
            0 <= d < NUM_CLASSES && 0 <= i < j < b.caches@[d]@.len() implies #[trigger] b.caches@[d]@[i]@.start
                < #[trigger] b.caches@[d]@[j]@.start by {
            if d == c {
                if j < pos {
                    assert(nc[i] == oc[i] && nc[j] == oc[j]);
                } else if j == pos {
                    assert(nc[i] == oc[i]);
                } else if i < pos {
                    assert(nc[i] == oc[i] && nc[j] == oc[j - 1]);
                } else if i == pos {
                    assert(nc[j] == oc[j - 1]);
                } else {
                    assert(nc[i] == oc[i - 1] && nc[j] == oc[j - 1]);
                }
            } else {
                assert(b.caches@[d] == a0.caches@[d]);
            }
        }
        b.lemma_regions_apart();
        assert forall|d: int| 0 <= d < NUM_CLASSES implies #[trigger] b@.frames_next[d] >= 1 by {}
        assert forall|d: int| 0 <= d < NUM_CLASSES implies #[trigger] b@.caches[d].len() == b.caches@[d]@.len() by {}
        assert(b@.caches_ok());
    }

    /// Changing one allocator in place, keeping its region, object size and
    /// well-formedness, keeps the whole well formed.
    proof fn lemma_update_one(a: &SlabAllocator, b: &SlabAllocator, c: int, i: int)
        requires
            a.wf(),
            0 <= c < NUM_CLASSES,
            0 <= i < a.caches@[c]@.len(),
            b.buddy == a.buddy,
            b.frames_next == a.frames_next,
            b.owners == a.owners,
            b.caches@.len() == a.caches@.len(),
            b.caches@[c]@.len() == a.caches@[c]@.len(),
            forall|d: int| 0 <= d < NUM_CLASSES && d != c ==> #[trigger] b.caches@[d] == a.caches@[d],
            forall|j: int| 0 <= j < a.caches@[c]@.len() && j != i ==> #[trigger] b.caches@[c]@[j] == a.caches@[c]@[j],
            b.caches@[c]@[i].wf(),
            b.caches@[c]@[i]@.start == a.caches@[c]@[i]@.start,
            b.caches@[c]@[i]@.end == a.caches@[c]@[i]@.end,
            b.caches@[c]@[i]@.block_size == a.caches@[c]@[i]@.block_size,
        ensures
            b.wf(),
    {
        assert forall|d: int, j: int| 0 <= d < NUM_CLASSES && 0 <= j < b.caches@[d]@.len() implies
            (#[trigger] b.caches@[d]@[j])@.start == a.caches@[d]@[j]@.start
            && b.caches@[d]@[j]@.end == a.caches@[d]@[j]@.end
            && b.caches@[d]@[j]@.block_size == a.caches@[d]@[j]@.block_size
            && b.caches@[d]@[j].wf() && b.caches@[d]@[j]@.wf() by {
            if d != c {
                assert(b.caches@[d] == a.caches@[d]);
                assert(a.caches@[d]@[j].wf());
            } else if j != i {
                assert(b.caches@[c]@[j] == a.caches@[c]@[j]);
                assert(a.caches@[d]@[j].wf());
            }
            crate::free_list::lemma_view_wf(&b.caches@[d]@[j]);
        }
        assert forall|d: int, j: int| 0 <= d < NUM_CLASSES && 0 <= j < b.caches@[d]@.len() implies
            #[trigger] b@.caches[d][j] == b.caches@[d]@[j]@ && a@.caches[d][j] == a.caches@[d]@[j]@ by {
        }
        assert forall|d: int| 0 <= d < NUM_CLASSES implies (#[trigger] b@.caches[d]).len() == a@.caches[d].len() by {
        }
        assert(b@.caches_ok());
    }

    /// Hands out an object of `size` bytes from its class: see
    /// `SlabView::allocated`.
    pub fn allocate(&mut self, size: usize) -> (r: Option<usize>)
        requires
            old(self).wf(),
        ensures
            final(self).wf(),
            final(self)@.caches_ok(),
            old(self)@.allocated(size as nat, final(self)@, r),
    {
        if size > MAX_OBJECT_SIZE {
            proof {
                assert forall|c: nat| #[trigger] is_class_for(size as nat, c) implies false by {
                    lemma_class_sizes();
                    crate::buddy::lemma_pow2_mono(c + 3, 12);
                }
            }
            return None;
        }
        let c = class_index(size);
        proof {
            lemma_class_exists(size as nat);
        }
        let n = self.caches[c].len();
        let mut i: usize = 0;
        while i < n && self.caches[c][i].fully_occupied()
            invariant
                self.wf(),
                c < NUM_CLASSES,
                n == self.caches@[c as int]@.len(),
                i <= n,
                forall|j: int| 0 <= j < i ==> (#[trigger] self@.caches[c as int][j]).next_block() is None,
            decreases n - i,
        {
            i = i + 1;
        }
        if i < n {
            let ghost s = self@.caches[c as int];
            let ghost a = *self;
            let r = self.caches[c][i].allocate_size();
            proof {
                Self::lemma_update_one(&a, self, c as int, i as int);
                assert(first_fit(s, i as int));
                assert(self@.caches[c as int] =~= s.update(i as int, s[i as int].allocated()));
                assert(self@.caches =~= old(self)@.caches.update(c as int, s.update(i as int, s[i as int].allocated())));
                assert(self@.frames_next =~= old(self)@.frames_next);
            }
            return r;
        }
        proof {
            assert(no_fit(self@.caches[c as int]));
        }
        self.grow(c)
    }

    /// Grows class `c` by a block of its next number of frames from the buddy
    /// allocator and hands out the first object of that block.
    fn grow(&mut self, c: usize) -> (r: Option<usize>)
        requires
            old(self).wf(),
            c < NUM_CLASSES,
            no_fit(old(self)@.caches[c as int]),
        ensures
            final(self).wf(),
            ({
                let s = old(self)@.caches[c as int];
                let bytes = (old(self)@.frames_next[c as int] * FRAME_SIZE) as nat;
                if fits(bytes, old(self)@.buddy.max_order) && exists|k: nat, g: nat|
                    #[trigger] is_order_for(bytes, k) && #[trigger] old(self)@.buddy.free.contains_key(g) && old(self)@.buddy.free[g] >= k {
                    forall|k: nat| #[trigger] is_order_for(bytes, k) ==> exists|a: usize| #[trigger] took_block(old(self)@.buddy, final(self)@.buddy, k, a as nat)
                        && r == Some(a)
                        && final(self)@.frames_next == old(self)@.frames_next.update(
                            c as int,
                            grown_frames(old(self)@.frames_next[c as int], old(self)@.buddy.frames),
                        )
                        && exists|pos: int| 0 <= pos <= s.len()
                            && (forall|j: int| 0 <= j < pos ==> (#[trigger] s[j]).start < a)
                            && (forall|j: int| pos <= j < s.len() ==> (#[trigger] s[j]).start > a)
                            && final(self)@.caches == old(self)@.caches.update(c as int, #[trigger] s.insert(pos, fresh(a as nat, bytes, c as nat).allocated()))
                } else {
                    r is None && final(self)@ == old(self)@
                }
            }),
    {
        let ghost a0 = *self;
        let f = self.frames_next[c];
        proof {
            assert(old(self)@.frames_next[c as int] == f);
            lemma_range_fits(&self.buddy);
            assert(f * FRAME_SIZE <= usize::MAX) by (nonlinear_arith)
                requires
                    f <= self.buddy@.frames || f == 1,
                    self.buddy@.start + self.buddy@.frames * FRAME_SIZE <= usize::MAX,
            ;
        }
        let bytes = f * FRAME_SIZE;
        let ghost b0 = self.buddy@;
        proof {
            crate::buddy::lemma_live_blocks_disjoint(&self.buddy);
            if fits(bytes as nat, b0.max_order) {
                crate::buddy::lemma_order_exists(bytes as nat, b0.max_order);
            }
        }
        match self.buddy.allocate(bytes) {
            None => {
                proof {
                    assert(self.buddy@ == b0);
                    assert(self@ == old(self)@);
                }
                None
            },
            Some(a) => {
                let ghost b1 = self.buddy@;
                let ghost s = old(self)@.caches[c as int];
                let ghost k = choose|k: nat| k <= b0.max_order && #[trigger] is_order_for(bytes as nat, k);
                proof {
                    assert(took_block(b0, b1, k, a as nat));
                }
                let ghost (fb, jb) = choose|fb: nat, j: nat| #[trigger] crate::buddy::lowest_fit(b0.free, k, fb, j)
                    && a == b0.start + fb * FRAME_SIZE
                    && b1.free == crate::buddy::split(b0.free.remove(fb), fb, j, k)
                    && b1.live == b0.live.insert(fb, k)
                    && b1.start == b0.start && b1.frames == b0.frames && b1.max_order == b0.max_order;
                proof {
                    crate::buddy::lemma_live_blocks_disjoint(&self.buddy);
                    assert(b1.live.contains_key(fb) && b1.live[fb] == k);
                    assert(fb + pow2(k) <= b1.frames);
                    assert(!b0.live.contains_key(fb)) by {
                        if b0.live.contains_key(fb) {
                            let j = b0.free[fb];
                            crate::buddy::lemma_pow2_pos(j);
                            crate::buddy::lemma_pow2_pos(b0.live[fb]);
                            assert(crate::buddy::all_disjoint(b0.free, b0.live));
                            assert(b0.free.contains_key(fb));
                            assert(disjoint(fb, j, fb, b0.live[fb]));
                        }
                    }
                    assert(a + bytes <= block_hi(b1, fb, k)) by (nonlinear_arith)
                        requires
                            a == b1.start + fb * FRAME_SIZE,
                            bytes <= pow2(k) * FRAME_SIZE,
                            block_hi(b1, fb, k) == b1.start + (fb + pow2(k)) * FRAME_SIZE,
                    ;
                    lemma_range_fits(&self.buddy);
                    assert(block_hi(b1, fb, k) <= b1.start + b1.frames * FRAME_SIZE) by (nonlinear_arith)
                        requires
                            fb + pow2(k) <= b1.frames,
                            block_hi(b1, fb, k) == b1.start + (fb + pow2(k)) * FRAME_SIZE,
                    ;
                }
                let cs = class_size_exec(c);
                let mut fl = FreeListAllocator::from_size(a, bytes, cs);
                let r = fl.allocate_size();
                let n = self.caches[c].len();
                let mut pos: usize = 0;
                while pos < n && self.caches[c][pos].start_address() < a
                    invariant
                        self.caches@.len() == NUM_CLASSES,
                        c < NUM_CLASSES,
                        n == self.caches@[c as int]@.len(),
                        pos <= n,
                        forall|j: int| 0 <= j < pos ==> (#[trigger] self.caches@[c as int]@[j])@.start < a,
                    decreases n - pos,
                {
                    pos = pos + 1;
                }
                self.caches[c].insert(pos, fl);
                self.owners = Ghost(self.owners@.update(c as int, self.owners@[c as int].insert(pos as int, fb)));
                let nf = if f <= self.buddy.frames_count() / 2 { 2 * f } else { f };
                self.frames_next.set(c, nf);
                proof {
                    let ghost fv = fresh(a as nat, bytes as nat, c as nat);
                    assert(fl@ == fv.allocated());
                    assert(r == Some(a));
                    assert(self.buddy@ == b1);
                    if pos < n {
                        let o = a0.owners@[c as int][pos as int];
                        assert(a0.caches@[c as int]@[pos as int]@.start >= a);
                        assert(b0.live.contains_key(o));
                        assert(o != fb);
                        assert(b1.live.contains_key(o) && b1.live[o] == b0.live[o]);
                        lemma_blocks_apart(b1, o, b1.live[o], fb, k);
                    }
                    let ghost oc = a0.caches@[c as int]@;
                    assert forall|j: int| pos <= j < oc.len() implies (#[trigger] oc[j])@.start > a by {
                        if j > pos {
                            assert(oc[j]@.start > oc[pos as int]@.start);
                        }
                    }
                    assert(self.buddy@.frames == b0.frames);
                    assert(a0.wf());
                    assert forall|d: int| 0 <= d < NUM_CLASSES implies #[trigger] self.frames_next@[d] >= 1
                        && (self.frames_next@[d] <= self.buddy@.frames || self.frames_next@[d] == 1) by {
                        assert(a0.frames_next@[d] >= 1) by {
                            assert(a0@.frames_next[d] >= 1);
                        }
                        if d != c {
                            assert(self.frames_next@[d] == a0.frames_next@[d]);
                        } else {
                            assert(self.frames_next@[d] == nf);
                            assert(a0.frames_next@[c as int] == f);
                            assert(a0.frames_next@[c as int] <= b0.frames || a0.frames_next@[c as int] == 1);
                            assert(self.buddy@.frames == b0.frames);
                            assert(f >= 1);
                        }
                    }
                    Self::lemma_grown_wf(&a0, self, c as int, pos as int, fb, k, &fl);
                    let ghost sv = old(self)@.caches[c as int];
                    assert(self@.caches[c as int] =~= sv.insert(pos as int, fv.allocated()));
                    assert(self@.caches =~= old(self)@.caches.update(c as int, sv.insert(pos as int, fv.allocated())));
                    assert(self@.frames_next =~= old(self)@.frames_next.update(c as int, grown_frames(f as nat, b0.frames)));
                    assert forall|j: int| 0 <= j < pos implies (#[trigger] sv[j]).start < a by {
                        assert(sv[j] == oc[j]@);
                    }
                    assert forall|j: int| pos <= j < sv.len() implies (#[trigger] sv[j]).start > a by {
                        assert(sv[j] == oc[j]@);
                    }
                    assert(took_block(b0, b1, k, a as nat));
                    let ghost bb = (old(self)@.frames_next[c as int] * FRAME_SIZE) as nat;
                    assert(bb == bytes);
                    assert(0 <= pos <= sv.len()
                        && (forall|j: int| 0 <= j < pos ==> (#[trigger] sv[j]).start < a)
                        && (forall|j: int| pos <= j < sv.len() ==> (#[trigger] sv[j]).start > a)
                        && self@.caches == old(self)@.caches.update(c as int, sv.insert(pos as int, fresh(a as nat, bb, c as nat).allocated())));
                    assert(self@.frames_next == old(self)@.frames_next.update(c as int,
                        grown_frames(old(self)@.frames_next[c as int], old(self)@.buddy.frames)));
                    assert forall|k2: nat| #[trigger] is_order_for(bb, k2) implies exists|a2: usize| #[trigger] took_block(old(self)@.buddy, self@.buddy, k2, a2 as nat)
                        && r == Some(a2)
                        && self@.frames_next == old(self)@.frames_next.update(
                            c as int,
                            grown_frames(old(self)@.frames_next[c as int], old(self)@.buddy.frames),
                        )
                        && exists|pos2: int| 0 <= pos2 <= sv.len()
                            && (forall|j: int| 0 <= j < pos2 ==> (#[trigger] sv[j]).start < a2)
                            && (forall|j: int| pos2 <= j < sv.len() ==> (#[trigger] sv[j]).start > a2)
                            && self@.caches == old(self)@.caches.update(c as int, #[trigger] sv.insert(pos2, fresh(a2 as nat, bb, c as nat).allocated())) by {
                        assert(k2 == k);
                        assert(took_block(old(self)@.buddy, self@.buddy, k2, a as nat));
                    }
                    let ghost bb = (old(self)@.frames_next[c as int] * FRAME_SIZE) as nat;
                    assert(bb == bytes);
                    assert(0 <= pos <= sv.len()
                        && (forall|j: int| 0 <= j < pos ==> (#[trigger] sv[j]).start < a)
                        && (forall|j: int| pos <= j < sv.len() ==> (#[trigger] sv[j]).start > a)
                        && self@.caches == old(self)@.caches.update(c as int, sv.insert(pos as int, fresh(a as nat, bb, c as nat).allocated())));
                    assert(self@.frames_next == old(self)@.frames_next.update(c as int,
                        grown_frames(old(self)@.frames_next[c as int], old(self)@.buddy.frames)));
                    assert forall|k2: nat| #[trigger] is_order_for(bb, k2) implies exists|a2: usize| #[trigger] took_block(old(self)@.buddy, self@.buddy, k2, a2 as nat)
                        && r == Some(a2)
                        && self@.frames_next == old(self)@.frames_next.update(
                            c as int,
                            grown_frames(old(self)@.frames_next[c as int], old(self)@.buddy.frames),
                        )
                        && exists|pos2: int| 0 <= pos2 <= sv.len()
                            && (forall|j: int| 0 <= j < pos2 ==> (#[trigger] sv[j]).start < a2)
                            && (forall|j: int| pos2 <= j < sv.len() ==> (#[trigger] sv[j]).start > a2)
                            && self@.caches == old(self)@.caches.update(c as int, #[trigger] sv.insert(pos2, fresh(a2 as nat, bb, c as nat).allocated())) by {
                        assert(k2 == k);
                        assert(took_block(old(self)@.buddy, self@.buddy, k2, a as nat));
                    }
                }
                r
            },
        }
    }
}

impl SlabAllocator {
    /// Returns object `pointer` to the allocator that handed it out.
    pub fn free(&mut self, pointer: usize)
        requires
            old(self).wf(),
            exists|c: int, i: int| #[trigger] old(self)@.owns(c, i, pointer),
        ensures
            final(self).wf(),
            final(self)@.caches_ok(),
            old(self)@.freed(pointer, final(self)@),
    {
        let mut c: usize = 0;
        while c < NUM_CLASSES
            invariant
                self.wf(),
                *self == *old(self),
                c <= NUM_CLASSES,
                exists|c2: int, i2: int| #[trigger] self@.owns(c2, i2, pointer),
                forall|c2: int, i2: int| 0 <= c2 < c ==> !#[trigger] self@.owns(c2, i2, pointer),
            decreases NUM_CLASSES - c,
        {
            let n = self.caches[c].len();
            let mut i: usize = 0;
            while i < n
                invariant
                    self.wf(),
                    *self == *old(self),
                    c < NUM_CLASSES,
                    n == self.caches@[c as int]@.len(),
                    i <= n,
                    forall|i2: int| 0 <= i2 < i ==> !#[trigger] self@.owns(c as int, i2, pointer),
                decreases n - i,
            {
                if self.caches[c][i].owns(pointer) {
                    proof {
                        assert(self@.owns(c as int, i as int, pointer));
                        assert forall|c2: int, i2: int| #[trigger] self@.owns(c2, i2, pointer) implies c2 == c && i2 == i by {
                            let x = self@.caches[c as int][i as int];
                            let y = self@.caches[c2][i2];
                            assert(x.wf() && y.wf());
                            assert(x.live.contains(pointer) && y.live.contains(pointer));
                        }
                    }
                    let ghost a = *self;
                    let ghost s = self@.caches[c as int];
                    self.caches[c][i].free_size(pointer);
                    proof {
                        Self::lemma_update_one(&a, self, c as int, i as int);
                        assert(self@.caches[c as int] =~= s.update(i as int, s[i as int].freed(pointer)));
                        assert(self@.caches =~= old(self)@.caches.update(c as int, s.update(i as int, s[i as int].freed(pointer))));
                        assert(self@.frames_next =~= old(self)@.frames_next);
                    }
                    return;
                }
                i = i + 1;
            }
            proof {
                assert forall|i2: int| !#[trigger] self@.owns(c as int, i2, pointer) by {}
            }
            c = c + 1;
        }
    }

    /// Whether no object of any class is handed out.
    pub fn is_fully_free(&self) -> (r: bool)
        requires
            self.wf(),
        ensures
            r == forall|c: int, i: int| 0 <= c < NUM_CLASSES && 0 <= i < self@.caches[c].len() ==> (#[trigger] self@.caches[c][i]).live.len() == 0,
    {
        let mut c: usize = 0;
        while c < NUM_CLASSES
            invariant
                self.wf(),
                c <= NUM_CLASSES,
                forall|c2: int, i: int| 0 <= c2 < c && 0 <= i < self@.caches[c2].len() ==> (#[trigger] self@.caches[c2][i]).live.len() == 0,
            decreases NUM_CLASSES - c,
        {
            let n = self.caches[c].len();
            let mut i: usize = 0;
            while i < n
                invariant
                    self.wf(),
                    c < NUM_CLASSES,
                    n == self.caches@[c as int]@.len(),
                    i <= n,
                    forall|c2: int, i2: int| 0 <= c2 < c && 0 <= i2 < self@.caches[c2].len() ==> (#[trigger] self@.caches[c2][i2]).live.len() == 0,
                    forall|i2: int| 0 <= i2 < i ==> (#[trigger] self@.caches[c as int][i2]).live.len() == 0,
                decreases n - i,
            {
                if !self.caches[c][i].fully_free() {
                    proof {
                        assert(self@.caches[c as int][i as int] == self.caches@[c as int]@[i as int]@);
                    }
                    return false;
                }
                i = i + 1;
            }
            c = c + 1;
        }
        true
    }

    /// Number of allocators class `c` holds.
    pub fn cache_count(&self, c: usize) -> (r: usize)
        requires
            self.wf(),
            c < NUM_CLASSES,
        ensures
            r == self@.caches[c as int].len(),
    {
        self.caches[c].len()
    }

    /// Start address of allocator `i` of class `c`.
    pub fn cache_start(&self, c: usize, i: usize) -> (r: usize)
        requires
            self.wf(),
            c < NUM_CLASSES,
            i < self@.caches[c as int].len(),
        ensures
            r == self@.caches[c as int][i as int].start,
    {
        self.caches[c][i].start_address()
    }
}

} // verus!
