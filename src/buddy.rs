//! Power-of-two block allocator over a contiguous range of frames. Free
//! blocks are indexed by their first frame, so a block's buddy is found and
//! taken out in constant time when two halves merge.
use vstd::prelude::*;

verus! {

/// Size of a frame in bytes.
pub const FRAME_SIZE: usize = 4096;

/// Largest order the allocator ever uses.
pub const MAX_ORDER: usize = 40;

/// `2^k`.
pub open spec fn pow2(k: nat) -> nat
    decreases k,
{
    if k == 0 {
        1
    } else {
        2 * pow2((k - 1) as nat)
    }
}

pub proof fn lemma_pow2_pos(k: nat)
    ensures
        pow2(k) >= 1,
    decreases k,
{
    if k > 0 {
        lemma_pow2_pos((k - 1) as nat);
    }
}

pub proof fn lemma_pow2_mono(a: nat, b: nat)
    requires
        a <= b,
    ensures
        pow2(a) <= pow2(b),
    decreases b,
{
    if a < b {
        lemma_pow2_mono(a, (b - 1) as nat);
        lemma_pow2_pos((b - 1) as nat);
    }
}

/// Whether blocks of order `k` hold `size` bytes.
pub open spec fn fits(size: nat, k: nat) -> bool {
    pow2(k) * FRAME_SIZE >= size
}

/// The frame of the block of order `k` that pairs with the one at `f`.
pub open spec fn buddy_of(f: nat, k: nat) -> nat {
    if (f / pow2(k)) % 2 == 0 {
        f + pow2(k)
    } else {
        (f - pow2(k)) as nat
    }
}

/// Free blocks after splitting a block at frame `f` from order `j` down to
/// order `k`: at each step the upper half is added and the lower half goes on.
pub open spec fn split(free: Map<nat, nat>, f: nat, j: nat, k: nat) -> Map<nat, nat>
    decreases j,
{
    if j <= k {
        free
    } else {
        split(free.insert(f + pow2((j - 1) as nat), (j - 1) as nat), f, (j - 1) as nat, k)
    }
}

/// Free blocks after freeing the block of order `k` at frame `f`: while its
/// buddy is free with the same order and the pair fits in the range, the
/// buddy is taken out and the pair goes up one order.
pub open spec fn merge(free: Map<nat, nat>, f: nat, k: nat, frames: nat, max_order: nat) -> Map<nat, nat>
    decreases max_order - k,
{
    let b = buddy_of(f, k);
    if k < max_order && b + pow2(k) <= frames && free.contains_key(b) && free[b] == k {
        merge(free.remove(b), if b < f { b } else { f }, k + 1, frames, max_order)
    } else {
        free.insert(f, k)
    }
}

/// Whether `(f, j)` is the block an allocation of order `k` takes: the free
/// block of the smallest order at least `k`, the lowest one of that order.
pub open spec fn lowest_fit(free: Map<nat, nat>, k: nat, f: nat, j: nat) -> bool {
    &&& free.contains_key(f)
    &&& free[f] == j
    &&& j >= k
    &&& forall|g: nat| #[trigger] free.contains_key(g) && free[g] >= k ==> free[g] > j || (free[g] == j && g >= f)
}

/// Whether `k` is the largest order, up to `MAX_ORDER`, whose blocks fit in
/// `frames` frames (order 0 when there are none).
pub open spec fn is_top_order(frames: nat, k: nat) -> bool {
    &&& k <= MAX_ORDER
    &&& (pow2(k) <= frames || k == 0)
    &&& (k == MAX_ORDER || pow2(k + 1) > frames)
}

/// The largest order up to `k` of an aligned block at frame `f` that ends
/// within `frames`.
pub open spec fn largest_from(f: nat, frames: nat, k: nat) -> nat
    decreases k,
{
    if k == 0 {
        0
    } else if f % pow2(k) == 0 && f + pow2(k) <= frames {
        k
    } else {
        largest_from(f, frames, (k - 1) as nat)
    }
}

/// The initial free blocks: from frame `f` on, the largest aligned block
/// that fits, then the next one after it, added to `acc`.
pub open spec fn greedy(acc: Map<nat, nat>, f: nat, frames: nat, max_order: nat) -> Map<nat, nat>
    decreases frames - f,
    via greedy_decreases
{
    if f >= frames {
        acc
    } else {
        let k = largest_from(f, frames, max_order);
        greedy(acc.insert(f, k), f + pow2(k), frames, max_order)
    }
}

#[via_fn]
proof fn greedy_decreases(acc: Map<nat, nat>, f: nat, frames: nat, max_order: nat) {
    if f < frames {
        lemma_pow2_pos(largest_from(f, frames, max_order));
        lemma_largest_from(f, frames, max_order);
    }
}

proof fn lemma_largest_from(f: nat, frames: nat, k: nat)
    requires
        f < frames,
    ensures
        largest_from(f, frames, k) <= k,
        f + pow2(largest_from(f, frames, k)) <= frames,
    decreases k,
{
    if k > 0 {
        lemma_largest_from(f, frames, (k - 1) as nat);
    }
}

/// Whether the blocks of order `ka` at frame `a` and of order `kb` at frame
/// `b` share no frame.
pub open spec fn disjoint(a: nat, ka: nat, b: nat, kb: nat) -> bool {
    a + pow2(ka) <= b || b + pow2(kb) <= a
}

/// Whether no two blocks, free or handed out, share a frame.
pub open spec fn all_disjoint(free: Map<nat, nat>, live: Map<nat, nat>) -> bool {
    &&& forall|a: nat, b: nat|
        #[trigger] free.contains_key(a) && #[trigger] free.contains_key(b) && a != b ==> disjoint(a, free[a], b, free[b])
    &&& forall|a: nat, b: nat|
        #[trigger] live.contains_key(a) && #[trigger] live.contains_key(b) && a != b ==> disjoint(a, live[a], b, live[b])
    &&& forall|a: nat, b: nat|
        #[trigger] free.contains_key(a) && #[trigger] live.contains_key(b) ==> disjoint(a, free[a], b, live[b])
}

/// Whether the block of order `k` at frame `f` shares no frame with any
/// block of `free` or `live`.
pub open spec fn apart(f: nat, k: nat, free: Map<nat, nat>, live: Map<nat, nat>) -> bool {
    &&& forall|a: nat| #[trigger] free.contains_key(a) ==> disjoint(f, k, a, free[a])
    &&& forall|a: nat| #[trigger] live.contains_key(a) ==> disjoint(f, k, a, live[a])
}

/// Whether `new` is `old` after handing out, at address `a`, a block of
/// order `k`: the lowest free block of the smallest order at least `k` is
/// split down to order `k`, and its lower part is handed out.
pub open spec fn took_block(old: BuddyView, new: BuddyView, k: nat, a: nat) -> bool {
    exists|f: nat, j: nat| #[trigger] lowest_fit(old.free, k, f, j)
        && a == old.start + f * FRAME_SIZE
        && new.free == split(old.free.remove(f), f, j, k)
        && new.live == old.live.insert(f, k)
        && new.start == old.start && new.frames == old.frames && new.max_order == old.max_order
}

/// What a buddy allocator holds: the first address, the number of frames, the
/// largest order, the order of each free block by its first frame, and the
/// order of each block handed out and not yet returned.
pub struct BuddyView {
    pub start: nat,
    pub frames: nat,
    pub max_order: nat,
    pub free: Map<nat, nat>,
    pub live: Map<nat, nat>,
}

/// Hands out blocks of `2^k` frames from `[start, start + frames * FRAME_SIZE)`.
pub struct BuddyAllocator {
    start: usize,
    frames: usize,
    max_order: usize,
    head: Vec<Option<u8>>,
    live: Ghost<Map<nat, nat>>,
}

impl BuddyAllocator {
    pub closed spec fn view(&self) -> BuddyView {
        BuddyView {
            start: self.start as nat,
            frames: self.frames as nat,
            max_order: self.max_order as nat,
            free: Map::new(
                |f: nat| f < self.head@.len() && self.head@[f as int] is Some,
                |f: nat| self.head@[f as int].unwrap() as nat,
            ),
            live: self.live@,
        }
    }

    pub closed spec fn wf(&self) -> bool {
        &&& self.head@.len() == self.frames
        &&& self.max_order <= MAX_ORDER
        &&& self.start + self.frames * FRAME_SIZE <= usize::MAX
        &&& forall|f: int|
            0 <= f < self.head@.len() && (#[trigger] self.head@[f]) is Some ==> self.head@[f].unwrap()
                <= self.max_order && f + pow2(self.head@[f].unwrap() as nat) <= self.frames
        &&& forall|f: nat|
            #[trigger] self.live@.contains_key(f) ==> self.live@[f] <= self.max_order && f + pow2(self.live@[f])
                <= self.frames
        &&& all_disjoint(self@.free, self@.live)
        &&& is_top_order(self@.frames, self@.max_order)
        &&& aligned(self@.free)
        &&& aligned(self@.live)
        &&& merged(self@.free, self@.frames, self@.max_order)
    }
}

/// `2^k` as a machine integer.
fn pow2_exec(k: usize) -> (r: usize)
    requires
        pow2(k as nat) <= usize::MAX,
    ensures
        r == pow2(k as nat),
{
    let mut v: usize = 1;
    let mut i: usize = 0;
    while i < k
        invariant
            i <= k,
            v == pow2(i as nat),
            pow2(k as nat) <= usize::MAX,
        decreases k - i,
    {
        proof {
            lemma_pow2_mono((i + 1) as nat, k as nat);
        }
        v = v * 2;
        i = i + 1;
    }
    v
}

impl BuddyAllocator {
    /// An allocator over the whole frames of `[start_address, end_address)`,
    /// all of them free, cut into the largest aligned blocks that fit.
    pub fn new(start_address: usize, end_address: usize) -> (r: BuddyAllocator)
        requires
            start_address <= end_address,
        ensures
            r.wf(),
            r@.start == start_address,
            r@.frames == (end_address - start_address) / (FRAME_SIZE as int),
            is_top_order(r@.frames, r@.max_order),
            r@.free == greedy(Map::empty(), 0, r@.frames, r@.max_order),
            r@.live == Map::<nat, nat>::empty(),
    {
        let frames = (end_address - start_address) / FRAME_SIZE;
        proof {
            assert(start_address + frames * FRAME_SIZE <= end_address) by (nonlinear_arith)
                requires
                    frames == (end_address - start_address) / 4096,
                    start_address <= end_address,
            ;
        }
        let mut max_order: usize = 0;
        let mut size: usize = 1;
        while max_order < MAX_ORDER && size <= frames / 2
            invariant
                max_order <= MAX_ORDER,
                size == pow2(max_order as nat),
                pow2(max_order as nat) <= frames || max_order == 0,
            decreases MAX_ORDER - max_order,
        {
            size = size * 2;
            max_order = max_order + 1;
        }
        let mut head: Vec<Option<u8>> = Vec::new();
        let mut i: usize = 0;
        while i < frames
            invariant
                i <= frames,
                head@.len() == i,
                forall|j: int| 0 <= j < i ==> (#[trigger] head@[j]) is None,
            decreases frames - i,
        {
            head.push(None);
            i = i + 1;
        }
        let mut r = BuddyAllocator { start: start_address, frames, max_order, head, live: Ghost(Map::empty()) };
        assert(r@.free =~= Map::empty());
        let mut f: usize = 0;
        while f < frames
            invariant
                r.wf(),
                r.start == start_address,
                r.frames == frames,
                r.max_order == max_order,
                r.live@ == Map::<nat, nat>::empty(),
                forall|g: nat| #[trigger] r@.free.contains_key(g) ==> g + pow2(r@.free[g]) <= f,
                forall|g: nat| #[trigger] r@.free.contains_key(g) ==> r@.free[g] == largest_from(g, frames as nat, max_order as nat),
                is_top_order(frames as nat, max_order as nat),
                size == pow2(max_order as nat),
                f <= frames,
                forall|g: int| f <= g < frames ==> (#[trigger] r.head@[g]) is None,
                greedy(r@.free, f as nat, frames as nat, max_order as nat) == greedy(
                    Map::empty(),
                    0,
                    frames as nat,
                    max_order as nat,
                ),
            decreases frames - f,
        {
            let mut k: usize = max_order;
            let mut bsize: usize = size;
            proof {
                lemma_pow2_pos(max_order as nat);
            }
            while k > 0 && !(f % bsize == 0 && bsize <= frames - f)
                invariant
                    k <= max_order,
                    f < frames,
                    bsize == pow2(k as nat),
                    bsize >= 1,
                    bsize <= size,
                    largest_from(f as nat, frames as nat, k as nat) == largest_from(
                        f as nat,
                        frames as nat,
                        max_order as nat,
                    ),
                decreases k,
            {
                proof {
                    lemma_pow2_pos((k - 1) as nat);
                    lemma_pow2_mono((k - 1) as nat, k as nat);
                }
                k = k - 1;
                bsize = bsize / 2;
            }
            proof {
                lemma_largest_from(f as nat, frames as nat, k as nat);
                lemma_pow2_pos(k as nat);
            }
            let ghost before = r@.free;
            r.head.set(f, Some(k as u8));
            proof {
                assert(r@.free =~= before.insert(f as nat, k as nat));
                assert forall|a: nat| #[trigger] r@.free.contains_key(a) implies a + pow2(r@.free[a]) <= f + bsize by {
                    if a != f {
                        assert(before.contains_key(a));
                    }
                }
                assert forall|a: nat, b: nat| #[trigger] r@.free.contains_key(a) && #[trigger] r@.free.contains_key(b) && a != b
                    implies disjoint(a, r@.free[a], b, r@.free[b]) by {
                    if a != f && b != f {
                        assert(before.contains_key(a) && before.contains_key(b));
                    } else if a == f {
                        assert(before.contains_key(b));
                    } else {
                        assert(before.contains_key(a));
                    }
                }
                assert forall|g: nat| #[trigger] r@.free.contains_key(g) implies r@.free[g] == largest_from(g, frames as nat, max_order as nat)
                    && g + pow2(r@.free[g]) <= frames by {
                    if g != f {
                        assert(before.contains_key(g));
                    }
                }
                lemma_greedy_merged(r@.free, frames as nat, max_order as nat);
            }
            f = f + bsize;
        }
        r
    }
}

/// Whether `k` is the smallest order whose blocks hold `size` bytes.
pub open spec fn is_order_for(size: nat, k: nat) -> bool {
    fits(size, k) && (k == 0 || !fits(size, (k - 1) as nat))
}

proof fn lemma_fits_mono(size: nat, a: nat, b: nat)
    requires
        a <= b,
        fits(size, a),
    ensures
        fits(size, b),
{
    lemma_pow2_mono(a, b);
    assert(pow2(a) * FRAME_SIZE <= pow2(b) * FRAME_SIZE) by (nonlinear_arith)
        requires
            pow2(a) <= pow2(b),
    ;
}

impl BuddyAllocator {
    /// The smallest order up to the largest one whose blocks hold `size`
    /// bytes, if any.
    pub fn order_for(&self, size: usize) -> (r: Option<usize>)
        requires
            self.wf(),
        ensures
            match r {
                Some(k) => k <= self@.max_order && is_order_for(size as nat, k as nat),
                None => !fits(size as nat, self@.max_order),
            },
    {
        let mut k: usize = 0;
        let mut bytes: usize = FRAME_SIZE;
        while bytes < size
            invariant
                self.wf(),
                k <= self.max_order,
                bytes == pow2(k as nat) * FRAME_SIZE,
                k == 0 || !fits(size as nat, (k - 1) as nat),
            decreases self.max_order - k,
        {
            if k == self.max_order {
                return None;
            }
            proof {
                lemma_pow2_mono((k + 1) as nat, self.max_order as nat);
                assert(pow2((k + 1) as nat) * FRAME_SIZE <= self.frames * FRAME_SIZE) by (nonlinear_arith)
                    requires
                        pow2((k + 1) as nat) <= self.frames,
                ;
            }
            bytes = bytes * 2;
            k = k + 1;
        }
        Some(k)
    }

    /// Takes the free block of the smallest order that holds `size` bytes,
    /// the lowest one of that order, splits it down to that order and
    /// returns its address; `None`, with nothing changed, when no free block
    /// is large enough.
    pub fn allocate(&mut self, size: usize) -> (r: Option<usize>)
        requires
            old(self).wf(),
        ensures
            final(self).wf(),
            final(self)@.start == old(self)@.start,
            final(self)@.frames == old(self)@.frames,
            final(self)@.max_order == old(self)@.max_order,
            !fits(size as nat, old(self)@.max_order) ==> r is None && final(self)@ == old(self)@,
            forall|k: nat|
                k <= old(self)@.max_order && #[trigger] is_order_for(size as nat, k) ==> {
                    &&& r is None <==> !exists|g: nat| #[trigger] old(self)@.free.contains_key(g) && old(self)@.free[g] >= k
                    &&& r is None ==> final(self)@ == old(self)@
                    &&& r matches Some(a) ==> took_block(old(self)@, final(self)@, k, a as nat)
                },
    {
        let k = match self.order_for(size) {
            Some(k) => k,
            None => {
                proof {
                    assert forall|k: nat| k <= old(self)@.max_order && #[trigger] is_order_for(size as nat, k) implies false by {
                        lemma_fits_mono(size as nat, k, old(self)@.max_order as nat);
                    }
                }
                return None;
            },
        };
        proof {
            assert forall|k2: nat| #[trigger] is_order_for(size as nat, k2) implies k2 == k by {
                if k2 < k {
                    lemma_fits_mono(size as nat, k2, (k - 1) as nat);
                } else if k2 > k {
                    lemma_fits_mono(size as nat, k as nat, (k2 - 1) as nat);
                }
            }
        }
        let mut j: usize = k;
        let mut found: Option<usize> = None;
        while j <= self.max_order && found.is_none()
            invariant
                self.wf(),
                k <= j,
                self.max_order <= MAX_ORDER,
                found matches Some(f) ==> f < self.head@.len() && lowest_fit(self@.free, k as nat, f as nat, self.head@[f as int].unwrap() as nat),
                found is None ==> forall|g: nat| #[trigger] self@.free.contains_key(g) && self@.free[g] >= k ==> self@.free[g] >= j,
            decreases MAX_ORDER + 1 - j, (if found is None { 1int } else { 0int }),
        {
            let mut f: usize = 0;
            while f < self.frames && found.is_none()
                invariant
                    self.wf(),
                    k <= j <= self.max_order,
                    f <= self.frames,
                    found matches Some(x) ==> x < self.head@.len() && lowest_fit(self@.free, k as nat, x as nat, j as nat),
                    found is None ==> forall|g: nat| #[trigger] self@.free.contains_key(g) && self@.free[g] >= k ==> self@.free[g] >= j,
                    found is None ==> forall|g: nat| #[trigger] self@.free.contains_key(g) && g < f ==> self@.free[g] != j,
                decreases self.frames - f,
            {
                if self.head[f] == Some(j as u8) {
                    found = Some(f);
                    proof {
                        assert(self@.free.contains_key(f as nat));
                    }
                }
                f = f + 1;
            }
            if found.is_none() {
                j = j + 1;
            }
        }
        match found {
            None => {
                proof {
                    lemma_fits_mono(size as nat, k as nat, self.max_order as nat);
                    assert forall|g: nat| #[trigger] self@.free.contains_key(g) && self@.free[g] >= k implies false by {
                        assert(self.head@[g as int].unwrap() <= self.max_order);
                    }
                }
                None
            },
            Some(f) => {
                let ghost v = self@;
                let j: usize = self.head[f].unwrap() as usize;
                proof {
                    lemma_fits_mono(size as nat, k as nat, self.max_order as nat);
                    assert(j <= self.max_order);
                }
                self.head.set(f, None);
                proof {
                    assert(self@.free =~= v.free.remove(f as nat));
                    assert forall|a: nat| #[trigger] self@.free.contains_key(a) implies disjoint(f as nat, j as nat, a, self@.free[a]) by {
                        assert(v.free.contains_key(a) && v.free.contains_key(f as nat) && a != f);
                    }
                    assert forall|a: nat| #[trigger] self@.live.contains_key(a) implies disjoint(f as nat, j as nat, a, self@.live[a]) by {
                        assert(v.free.contains_key(f as nat));
                    }
                }
                let mut m: usize = j;
                let mut bsize: usize = pow2_exec(j);
                while m > k
                    invariant
                        self.wf(),
                        self.start == v.start,
                        self.frames == v.frames,
                        self.max_order == v.max_order,
                        k <= m <= j,
                        j <= self.max_order <= MAX_ORDER,
                        bsize == pow2(m as nat),
                        f + bsize <= self.frames,
                        self@.live == v.live,
                        (f as nat) % pow2(j as nat) == 0,
                        !self@.free.contains_key(f as nat),
                        apart(f as nat, m as nat, self@.free, self@.live),
                        split(self@.free, f as nat, m as nat, k as nat) == split(v.free.remove(f as nat), f as nat, j as nat, k as nat),
                    decreases m,
                {
                    proof {
                        lemma_pow2_pos((m - 1) as nat);
                    }
                    let ghost before = self@.free;
                    bsize = bsize / 2;
                    m = m - 1;
                    self.head.set(f + bsize, Some(m as u8));
                    proof {
                        let h = (f + bsize) as nat;
                        assert(!before.contains_key(h));
                        assert(self@.free =~= before.insert(h, m as nat));
                        assert forall|a: nat, b: nat| #[trigger] self@.free.contains_key(a) && #[trigger] self@.free.contains_key(b) && a != b
                            implies disjoint(a, self@.free[a], b, self@.free[b]) by {
                            if a != h && b != h {
                                assert(before.contains_key(a) && before.contains_key(b));
                            } else if a == h {
                                assert(before.contains_key(b));
                            } else {
                                assert(before.contains_key(a));
                            }
                        }
                        assert forall|a: nat, b: nat| #[trigger] self@.free.contains_key(a) && #[trigger] self@.live.contains_key(b)
                            implies disjoint(a, self@.free[a], b, self@.live[b]) by {
                            if a != h {
                                assert(before.contains_key(a));
                            }
                        }
                        assert forall|a: nat| #[trigger] self@.free.contains_key(a) implies disjoint(f as nat, m as nat, a, self@.free[a]) by {
                            if a != h {
                                assert(before.contains_key(a));
                            }
                        }
                        lemma_aligned_buddy(f as nat, j as nat, m as nat);
                        lemma_pair_aligned(f as nat, m as nat);
                        assert(buddy_of(h, m as nat) == f);
                        assert(aligned(self@.free)) by {
                            assert forall|x: nat| #[trigger] self@.free.contains_key(x) implies x % pow2(self@.free[x]) == 0 by {
                                if x != h {
                                    assert(before.contains_key(x));
                                }
                            }
                        }
                        assert forall|x: nat| #[trigger] self@.free.contains_key(x) implies ({
                            let kx = self@.free[x];
                            let bx = buddy_of(x, kx);
                            !(kx < self@.max_order && bx + pow2(kx) <= self@.frames && self@.free.contains_key(bx) && self@.free[bx] == kx)
                        }) by {
                            if x != h {
                                assert(before.contains_key(x));
                                let kx = before[x];
                                let bx = buddy_of(x, kx);
                                if bx == h && kx == m {
                                    lemma_pair_aligned(x, kx);
                                    assert(x == f);
                                } else if bx != h {
                                    assert(self@.free.contains_key(bx) == before.contains_key(bx));
                                }
                            }
                        }
                    }
                }
                let ghost lb = self@;
                proof {
                    if k < j {
                        lemma_aligned_buddy(f as nat, j as nat, k as nat);
                    }
                }
                self.live = Ghost(self.live@.insert(f as nat, k as nat));
                proof {
                    assert(self@.free == lb.free);
                    assert forall|a: nat, b: nat| #[trigger] self@.live.contains_key(a) && #[trigger] self@.live.contains_key(b) && a != b
                        implies disjoint(a, self@.live[a], b, self@.live[b]) by {
                        if a != f && b != f {
                            assert(lb.live.contains_key(a) && lb.live.contains_key(b));
                        } else if a == f {
                            assert(lb.live.contains_key(b));
                        } else {
                            assert(lb.live.contains_key(a));
                        }
                    }
                    assert forall|a: nat, b: nat| #[trigger] self@.free.contains_key(a) && #[trigger] self@.live.contains_key(b)
                        implies disjoint(a, self@.free[a], b, self@.live[b]) by {
                        if b != f {
                            assert(lb.live.contains_key(b));
                        }
                    }
                }
                proof {
                    assert(f * FRAME_SIZE <= self.frames * FRAME_SIZE) by (nonlinear_arith)
                        requires
                            f <= self.frames,
                    ;
                }
                Some(self.start + f * FRAME_SIZE)
            },
        }
    }
}

impl BuddyAllocator {
    /// Returns the block of `size` bytes at `address`, merging it with its
    /// buddy, and the result with its own buddy, for as long as the buddy is
    /// free with the same order.
    pub fn free(&mut self, address: usize, size: usize)
        requires
            old(self).wf(),
            fits(size as nat, old(self)@.max_order),
            old(self)@.start <= address,
            (address - old(self)@.start) % (FRAME_SIZE as int) == 0,
            forall|k: nat|
                #[trigger] is_order_for(size as nat, k) ==> old(self)@.live.contains_key(
                    ((address - old(self)@.start) / (FRAME_SIZE as int)) as nat,
                ) && old(self)@.live[((address - old(self)@.start) / (FRAME_SIZE as int)) as nat] == k,
        ensures
            final(self).wf(),
            final(self)@.start == old(self)@.start,
            final(self)@.frames == old(self)@.frames,
            final(self)@.max_order == old(self)@.max_order,
            forall|k: nat|
                #[trigger] is_order_for(size as nat, k) ==> final(self)@.free == merge(
                    old(self)@.free,
                    ((address - old(self)@.start) / (FRAME_SIZE as int)) as nat,
                    k,
                    old(self)@.frames,
                    old(self)@.max_order,
                ),
            final(self)@.live == old(self)@.live.remove(((address - old(self)@.start) / (FRAME_SIZE as int)) as nat),
    {
        let k = self.order_for(size).unwrap();
        proof {
            assert forall|k2: nat| #[trigger] is_order_for(size as nat, k2) implies k2 == k by {
                if k2 < k {
                    lemma_fits_mono(size as nat, k2, (k - 1) as nat);
                } else if k2 > k {
                    lemma_fits_mono(size as nat, k as nat, (k2 - 1) as nat);
                }
            }
            assert(is_order_for(size as nat, k as nat));
        }
        let ghost f0 = ((address - self.start) / (FRAME_SIZE as int)) as nat;
        let ghost target = merge(self@.free, f0, k as nat, self@.frames, self@.max_order);
        let mut f: usize = (address - self.start) / FRAME_SIZE;
        let mut m: usize = k;
        proof {
            assert(self@.live.contains_key(f as nat) && self@.live[f as nat] == k);
            assert(k <= self.max_order);
        }
        let mut bsize: usize = pow2_exec(k);
        let ghost lv = self@;
        proof {
            assert(lv.live.contains_key(f as nat));
            assert((f as nat) % pow2(k as nat) == 0);
        }
        self.live = Ghost(self.live@.remove(f as nat));
        proof {
            assert forall|a: nat| #[trigger] self@.free.contains_key(a) implies disjoint(f as nat, k as nat, a, self@.free[a]) by {
                assert(lv.live.contains_key(f as nat));
            }
            assert forall|a: nat| #[trigger] self@.live.contains_key(a) implies disjoint(f as nat, k as nat, a, self@.live[a]) by {
                assert(lv.live.contains_key(f as nat) && lv.live.contains_key(a) && a != f);
            }
        }
        let mut done = false;
        while m < self.max_order && !done
            invariant
                self.wf(),
                self.start == old(self).start,
                self.frames == old(self).frames,
                self.max_order == old(self).max_order,
                self.max_order <= MAX_ORDER,
                m <= self.max_order,
                bsize == pow2(m as nat),
                bsize >= 1,
                f + bsize <= self.frames,
                self@.live == lv.live.remove(f0),
                (f as nat) % pow2(m as nat) == 0,
                done ==> !(buddy_of(f as nat, m as nat) + pow2(m as nat) <= self@.frames && self@.free.contains_key(
                    buddy_of(f as nat, m as nat),
                ) && self@.free[buddy_of(f as nat, m as nat)] == m),
                apart(f as nat, m as nat, self@.free, self@.live),
                !done ==> merge(self@.free, f as nat, m as nat, self@.frames, self@.max_order) == target,
                done ==> self@.free.insert(f as nat, m as nat) == target,
            decreases self.max_order - m, (if done { 0int } else { 1int }),
        {
            let odd = (f / bsize) % 2 == 1;
            proof {
                if odd {
                    assert(f >= bsize) by (nonlinear_arith)
                        requires
                            (f / bsize) % 2 == 1,
                            bsize >= 1,
                    ;
                }
            }
            let b: usize = if odd { f - bsize } else { f + bsize };
            proof {
                assert(b == buddy_of(f as nat, m as nat));
            }
            if b <= self.frames && bsize <= self.frames - b && self.head[b] == Some(m as u8) {
                let ghost before = self@.free;
                self.head.set(b, None);
                proof {
                    assert(before.contains_key(b as nat) && before[b as nat] == m);
                    assert(self@.free =~= before.remove(b as nat));
                    let lo: nat = if b < f { b as nat } else { f as nat };
                    assert(pow2((m + 1) as nat) == 2 * pow2(m as nat));
                    assert(b + bsize == f || b == f + bsize);
                    assert forall|a: nat| #[trigger] self@.free.contains_key(a) implies disjoint(lo, (m + 1) as nat, a, self@.free[a]) by {
                        assert(before.contains_key(a) && a != b);
                        lemma_pow2_pos(before[a]);
                        assert(disjoint(b as nat, m as nat, a, before[a]));
                        assert(disjoint(f as nat, m as nat, a, before[a]));
                    }
                    assert forall|a: nat| #[trigger] self@.live.contains_key(a) implies disjoint(lo, (m + 1) as nat, a, self@.live[a]) by {
                        lemma_pow2_pos(self@.live[a]);
                        assert(disjoint(b as nat, m as nat, a, self@.live[a]));
                        assert(disjoint(f as nat, m as nat, a, self@.live[a]));
                    }
                    lemma_pair_aligned(f as nat, m as nat);
                    assert(lo % pow2((m + 1) as nat) == 0);
                    assert(aligned(self@.free)) by {
                        assert forall|x: nat| #[trigger] self@.free.contains_key(x) implies x % pow2(self@.free[x]) == 0 by {
                            assert(before.contains_key(x));
                        }
                    }
                    assert forall|x: nat| #[trigger] self@.free.contains_key(x) implies ({
                        let kx = self@.free[x];
                        let bx = buddy_of(x, kx);
                        !(kx < self@.max_order && bx + pow2(kx) <= self@.frames && self@.free.contains_key(bx) && self@.free[bx] == kx)
                    }) by {
                        assert(before.contains_key(x));
                        let bx = buddy_of(x, before[x]);
                        if self@.free.contains_key(bx) {
                            assert(before.contains_key(bx));
                        }
                    }
                }
                if b < f {
                    f = b;
                }
                m = m + 1;
                bsize = bsize * 2;
            } else {
                proof {
                    if b + bsize <= self.frames && self@.free.contains_key(b as nat) && self@.free[b as nat] == m {
                        assert(self.head@[b as int] == Some(m as u8));
                    }
                }
                done = true;
            }
        }
        let ghost before = self@.free;
        proof {
            if before.contains_key(f as nat) {
                lemma_pow2_pos(m as nat);
                lemma_pow2_pos(before[f as nat]);
                assert(disjoint(f as nat, m as nat, f as nat, before[f as nat]));
            }
        }
        self.head.set(f, Some(m as u8));
        proof {
            assert(self@.free =~= before.insert(f as nat, m as nat));
            assert forall|a: nat, b: nat| #[trigger] self@.free.contains_key(a) && #[trigger] self@.free.contains_key(b) && a != b
                implies disjoint(a, self@.free[a], b, self@.free[b]) by {
                if a != f && b != f {
                    assert(before.contains_key(a) && before.contains_key(b));
                } else if a == f {
                    assert(before.contains_key(b));
                } else {
                    assert(before.contains_key(a));
                }
            }
            assert forall|a: nat, b: nat| #[trigger] self@.free.contains_key(a) && #[trigger] self@.live.contains_key(b)
                implies disjoint(a, self@.free[a], b, self@.live[b]) by {
                if a != f {
                    assert(before.contains_key(a));
                }
            }
            assert(aligned(self@.free)) by {
                assert forall|x: nat| #[trigger] self@.free.contains_key(x) implies x % pow2(self@.free[x]) == 0 by {
                    if x != f {
                        assert(before.contains_key(x));
                    }
                }
            }
            lemma_pair_aligned(f as nat, m as nat);
            assert forall|x: nat| #[trigger] self@.free.contains_key(x) implies ({
                let kx = self@.free[x];
                let bx = buddy_of(x, kx);
                !(kx < self@.max_order && bx + pow2(kx) <= self@.frames && self@.free.contains_key(bx) && self@.free[bx] == kx)
            }) by {
                if x != f {
                    assert(before.contains_key(x));
                    let kx = before[x];
                    let bx = buddy_of(x, kx);
                    if bx == f && kx == m {
                        lemma_pair_aligned(x, kx);
                        assert(x == buddy_of(f as nat, m as nat));
                    } else if bx != f {
                        assert(self@.free.contains_key(bx) == before.contains_key(bx));
                    }
                }
            }
        }
    }
}

proof fn lemma_buddy_involution(a: nat, k: nat)
    requires
        (a / pow2(k)) % 2 == 1 ==> a >= pow2(k),
    ensures
        buddy_of(buddy_of(a, k), k) == a,
{
    let p = pow2(k);
    lemma_pow2_pos(k);
    if (a / p) % 2 == 0 {
        vstd::arithmetic::div_mod::lemma_div_plus_one(a as int, p as int);
        assert(((p + a) as int) / (p as int) == (a as int) / (p as int) + 1);
    } else {
        let c = (a - p) as nat;
        vstd::arithmetic::div_mod::lemma_div_plus_one(c as int, p as int);
        assert(p + c == a);
    }
}

proof fn lemma_merge_reaches(free: Map<nat, nat>, f: nat, k: nat, frames: nat, max_order: nat)
    ensures
        exists|g: nat| #[trigger] merge(free, f, k, frames, max_order).contains_key(g) && merge(free, f, k, frames, max_order)[g] >= k,
    decreases max_order - k,
{
    let b = buddy_of(f, k);
    let r = merge(free, f, k, frames, max_order);
    if k < max_order && b + pow2(k) <= frames && free.contains_key(b) && free[b] == k {
        let lo = if b < f { b } else { f };
        lemma_merge_reaches(free.remove(b), lo, k + 1, frames, max_order);
        let m = merge(free.remove(b), lo, k + 1, frames, max_order);
        assert(r == m);
        let g = choose|g: nat| #[trigger] m.contains_key(g) && m[g] >= k + 1;
        assert(r.contains_key(g) && r[g] >= k);
    } else {
        assert(r.contains_key(f) && r[f] >= k);
    }
}

/// Buddies merge: when a block of order `k` and its buddy are both handed
/// out (the buddy is not a free block of that order), freeing the one and
/// then the other leaves a free block of order at least `k + 1`, so that an
/// allocation of that order then succeeds.
pub proof fn lemma_buddies_merge(free: Map<nat, nat>, a: nat, k: nat, frames: nat, max_order: nat)
    requires
        k < max_order,
        a + pow2(k) <= frames,
        buddy_of(a, k) + pow2(k) <= frames,
        !(free.contains_key(buddy_of(a, k)) && free[buddy_of(a, k)] == k),
    ensures
        exists|g: nat| #[trigger] merge(merge(free, a, k, frames, max_order), buddy_of(a, k), k, frames, max_order).contains_key(g)
            && merge(merge(free, a, k, frames, max_order), buddy_of(a, k), k, frames, max_order)[g] >= k + 1,
{
    let b = buddy_of(a, k);
    lemma_pow2_pos(k);
    assert((a / pow2(k)) % 2 == 1 ==> a >= pow2(k)) by (nonlinear_arith)
        requires
            pow2(k) >= 1,
    ;
    let m1 = merge(free, a, k, frames, max_order);
    assert(m1 == free.insert(a, k));
    let bb = buddy_of(b, k);
    assert(bb == a) by {
        lemma_buddy_involution(a, k);
    }
    assert(m1.contains_key(bb) && m1[bb] == k);
    let lo = if b < a { b } else { a };
    lemma_merge_reaches(m1.remove(a), lo, k + 1, frames, max_order);
    let m = merge(m1.remove(bb), lo, k + 1, frames, max_order);
    let r = merge(m1, b, k, frames, max_order);
    assert(r == m);
    let g = choose|g: nat| #[trigger] m.contains_key(g) && m[g] >= k + 1;
    assert(r.contains_key(g) && r[g] >= k + 1);
}

impl BuddyAllocator {
    pub fn start_address(&self) -> (r: usize)
        ensures
            r == self@.start,
    {
        self.start
    }

    /// Number of frames managed.
    pub fn frames_count(&self) -> (r: usize)
        ensures
            r == self@.frames,
    {
        self.frames
    }

    /// The largest order of a block.
    pub fn max_order(&self) -> (r: usize)
        ensures
            r == self@.max_order,
    {
        self.max_order
    }

    /// The order of the free block that starts at `address`, if one does.
    pub fn free_block_order(&self, address: usize) -> (r: Option<usize>)
        requires
            self.wf(),
        ensures
            match r {
                Some(k) => address >= self@.start && (address - self@.start) % (FRAME_SIZE as int) == 0
                    && self@.free.contains_key(((address - self@.start) / (FRAME_SIZE as int)) as nat)
                    && self@.free[((address - self@.start) / (FRAME_SIZE as int)) as nat] == k,
                None => !(address >= self@.start && (address - self@.start) % (FRAME_SIZE as int) == 0
                    && self@.free.contains_key(((address - self@.start) / (FRAME_SIZE as int)) as nat)),
            },
    {
        if address < self.start || (address - self.start) % FRAME_SIZE != 0 {
            return None;
        }
        let f = (address - self.start) / FRAME_SIZE;
        if f >= self.frames {
            return None;
        }
        match self.head[f] {
            Some(k) => Some(k as usize),
            None => None,
        }
    }
}

/// Blocks handed out never overlap: no two live blocks share a frame, and no
/// live block shares a frame with a free one.
pub proof fn lemma_live_blocks_disjoint(b: &BuddyAllocator)
    requires
        b.wf(),
    ensures
        forall|x: nat, y: nat|
            #[trigger] b@.live.contains_key(x) && #[trigger] b@.live.contains_key(y) && x != y ==> disjoint(x, b@.live[x], y, b@.live[y]),
        forall|x: nat, y: nat|
            #[trigger] b@.free.contains_key(x) && #[trigger] b@.live.contains_key(y) ==> disjoint(x, b@.free[x], y, b@.live[y]),
        forall|x: nat| #[trigger] b@.live.contains_key(x) ==> x + pow2(b@.live[x]) <= b@.frames,
        all_disjoint(b@.free, b@.live),
{
}

/// The whole managed range fits in the address space, and the largest order
/// fits in the range (or is zero).
pub proof fn lemma_range_fits(b: &BuddyAllocator)
    requires
        b.wf(),
    ensures
        b@.start + b@.frames * FRAME_SIZE <= usize::MAX,
        is_top_order(b@.frames, b@.max_order),
{
}

/// A size that fits in blocks of order `max` has a smallest order, at most
/// `max`, and only one.
pub proof fn lemma_order_exists(size: nat, max: nat)
    requires
        fits(size, max),
    ensures
        exists|k: nat| k <= max && #[trigger] is_order_for(size, k),
        forall|k1: nat, k2: nat| is_order_for(size, k1) && is_order_for(size, k2) ==> k1 == k2,
    decreases max,
{
    if max > 0 && fits(size, (max - 1) as nat) {
        lemma_order_exists(size, (max - 1) as nat);
    } else {
        assert(is_order_for(size, max));
    }
    assert forall|k1: nat, k2: nat| is_order_for(size, k1) && is_order_for(size, k2) implies k1 == k2 by {
        if k1 < k2 {
            lemma_fits_mono(size, k1, (k2 - 1) as nat);
        } else if k2 < k1 {
            lemma_fits_mono(size, k2, (k1 - 1) as nat);
        }
    }
}

/// Every block of `m` starts at a multiple of its size.
pub open spec fn aligned(m: Map<nat, nat>) -> bool {
    forall|f: nat| #[trigger] m.contains_key(f) ==> f % pow2(m[f]) == 0
}

/// No free block could merge with its buddy: the buddy is not free with the
/// same order, or the pair is at the largest order or leaves the range.
pub open spec fn merged(free: Map<nat, nat>, frames: nat, max_order: nat) -> bool {
    forall|f: nat| #[trigger] free.contains_key(f) ==> {
        let k = free[f];
        let b = buddy_of(f, k);
        !(k < max_order && b + pow2(k) <= frames && free.contains_key(b) && free[b] == k)
    }
}

/// `r` with the upper halves added that splitting the block at `f` from
/// order `j` down to order `m` leaves free.
pub open spec fn halves(r: Map<nat, nat>, f: nat, j: nat, m: nat) -> Map<nat, nat>
    decreases j - m,
{
    if m >= j {
        r
    } else {
        halves(r, f, j, m + 1).insert(f + pow2(m), m)
    }
}

proof fn lemma_halves_step(r: Map<nat, nat>, f: nat, j: nat, m: nat)
    requires
        m < j,
    ensures
        halves(r.insert(f + pow2((j - 1) as nat), (j - 1) as nat), f, (j - 1) as nat, m) == halves(r, f, j, m),
    decreases j - m,
{
    let r2 = r.insert(f + pow2((j - 1) as nat), (j - 1) as nat);
    if m + 1 < j {
        lemma_halves_step(r, f, j, m + 1);
        assert(halves(r2, f, (j - 1) as nat, m) == halves(r2, f, (j - 1) as nat, m + 1).insert(f + pow2(m), m));
    } else {
        assert(halves(r, f, j, m + 1) == r);
        assert(halves(r2, f, (j - 1) as nat, m) == r2);
    }
    assert(halves(r, f, j, m) == halves(r, f, j, m + 1).insert(f + pow2(m), m));
}

proof fn lemma_split_halves(r: Map<nat, nat>, f: nat, j: nat, k: nat)
    requires
        k <= j,
    ensures
        split(r, f, j, k) == halves(r, f, j, k),
    decreases j,
{
    if j > k {
        let r2 = r.insert(f + pow2((j - 1) as nat), (j - 1) as nat);
        lemma_split_halves(r2, f, (j - 1) as nat, k);
        lemma_halves_step(r, f, j, k);
    }
}

proof fn lemma_pow2_split(j: nat, m: nat)
    requires
        m <= j,
    ensures
        pow2(j) == pow2(m) * pow2((j - m) as nat),
    decreases j - m,
{
    if m < j {
        lemma_pow2_split(j, m + 1);
        let x = pow2((j - (m + 1)) as nat);
        assert(pow2((j - m) as nat) == 2 * x);
        assert(pow2(m + 1) == 2 * pow2(m));
        assert(pow2(j) == pow2(m) * pow2((j - m) as nat)) by (nonlinear_arith)
            requires
                pow2(j) == pow2(m + 1) * x,
                pow2(m + 1) == 2 * pow2(m),
                pow2((j - m) as nat) == 2 * x,
        ;
    } else {
        assert(pow2(0) == 1);
        assert((j - m) as nat == 0);
    }
}

/// A frame aligned to a larger block is aligned to every smaller one, and
/// its buddy at a smaller order is the block just above it.
proof fn lemma_aligned_buddy(f: nat, j: nat, m: nat)
    requires
        m < j,
        f % pow2(j) == 0,
    ensures
        f % pow2(m) == 0,
        (f + pow2(m)) % pow2(m) == 0,
        buddy_of(f, m) == f + pow2(m),
{
    lemma_pow2_split(j, m);
    lemma_pow2_pos(m);
    lemma_pow2_pos((j - m) as nat);
    let p = pow2(m);
    let q = pow2((j - m) as nat);
    assert(q == 2 * pow2((j - m - 1) as nat));
    let c = f / pow2(j);
    lemma_pow2_pos(j);
    vstd::arithmetic::div_mod::lemma_fundamental_div_mod(f as int, pow2(j) as int);
    assert(f == pow2(j) * c);
    assert(f == p * (q * c)) by (nonlinear_arith)
        requires
            f == pow2(j) * c,
            pow2(j) == p * q,
    ;
    vstd::arithmetic::div_mod::lemma_mod_multiples_basic((q * c) as int, p as int);
    assert(f == (q * c) * p) by (nonlinear_arith)
        requires
            f == p * (q * c),
    ;
    assert(f % p == 0);
    vstd::arithmetic::div_mod::lemma_mod_multiples_basic((q * c + 1) as int, p as int);
    assert(f + p == (q * c + 1) * p) by (nonlinear_arith)
        requires
            f == p * (q * c),
    ;
    vstd::arithmetic::div_mod::lemma_div_multiples_vanish((q * c) as int, p as int);
    assert(f / p == q * c);
    let r = pow2((j - m - 1) as nat);
    assert(q * c == (r * c) * 2) by (nonlinear_arith)
        requires
            q == 2 * r,
    ;
    vstd::arithmetic::div_mod::lemma_mod_multiples_basic((r * c) as int, 2);
}

proof fn lemma_halves_keys(r: Map<nat, nat>, f: nat, j: nat, m: nat, x: nat)
    requires
        halves(r, f, j, m).contains_key(x),
    ensures
        r.contains_key(x) || exists|i: nat| m <= i < j && x == f + pow2(i),
    decreases j - m,
{
    if m < j {
        if x != f + pow2(m) {
            lemma_halves_keys(r, f, j, m + 1, x);
        }
    }
}

proof fn lemma_merge_halves(r: Map<nat, nat>, f: nat, j: nat, m: nat, frames: nat, max_order: nat)
    requires
        m <= j <= max_order,
        f % pow2(j) == 0,
        f + pow2(j) <= frames,
        !r.contains_key(f),
        forall|x: nat| #[trigger] r.contains_key(x) ==> disjoint(x, r[x], f, j),
        ({
            let b = buddy_of(f, j);
            !(j < max_order && b + pow2(j) <= frames && r.contains_key(b) && r[b] == j)
        }),
    ensures
        merge(halves(r, f, j, m), f, m, frames, max_order) == r.insert(f, j),
    decreases j - m,
{
    if m == j {
        assert(halves(r, f, j, m) == r);
    } else {
        lemma_merge_halves(r, f, j, m + 1, frames, max_order);
        lemma_aligned_buddy(f, j, m);
        let b = f + pow2(m);
        let h1 = halves(r, f, j, m + 1);
        let h = halves(r, f, j, m);
        assert(h == h1.insert(b, m));
        lemma_pow2_mono(m + 1, j);
        lemma_pow2_pos(m);
        assert(pow2(m + 1) == 2 * pow2(m));
        assert(!h1.contains_key(b)) by {
            if h1.contains_key(b) {
                lemma_halves_keys(r, f, j, m + 1, b);
                if r.contains_key(b) {
                    lemma_pow2_pos(r[b]);
                    assert(disjoint(b, r[b], f, j));
                } else {
                    let i = choose|i: nat| m + 1 <= i < j && b == f + pow2(i);
                    lemma_pow2_mono(m + 1, i);
                }
            }
        }
        assert(h.remove(b) =~= h1);
        assert(merge(h, f, m, frames, max_order) == merge(h.remove(b), f, m + 1, frames, max_order));
    }
}

/// Round trip: handing out a block and taking it back leaves the free
/// blocks exactly as they were, when every free block is aligned to its size
/// and none could merge with its buddy.
pub proof fn lemma_alloc_free_round_trip(old: BuddyView, mid: BuddyView, k: nat, a: nat)
    requires
        took_block(old, mid, k, a),
        aligned(old.free),
        merged(old.free, old.frames, old.max_order),
        all_disjoint(old.free, old.live),
        forall|f: nat| #[trigger] old.free.contains_key(f) ==> old.free[f] <= old.max_order && f + pow2(old.free[f]) <= old.frames,
    ensures
        a >= old.start,
        merge(mid.free, ((a - old.start) / (FRAME_SIZE as int)) as nat, k, old.frames, old.max_order) == old.free,
{
    let (f, j) = choose|f: nat, j: nat| #[trigger] lowest_fit(old.free, k, f, j)
        && a == old.start + f * FRAME_SIZE
        && mid.free == split(old.free.remove(f), f, j, k)
        && mid.live == old.live.insert(f, k)
        && mid.start == old.start && mid.frames == old.frames && mid.max_order == old.max_order;
    let r = old.free.remove(f);
    lemma_split_halves(r, f, j, k);
    assert forall|x: nat| #[trigger] r.contains_key(x) implies disjoint(x, r[x], f, j) by {
        assert(old.free.contains_key(x) && old.free.contains_key(f) && x != f);
    }
    let b = buddy_of(f, j);
    if b != f {
        assert(r.contains_key(b) == old.free.contains_key(b));
    } else {
        assert(!r.contains_key(b));
    }
    lemma_merge_halves(r, f, j, k, old.frames, old.max_order);
    assert(r.insert(f, j) =~= old.free);
    assert((a - old.start) / (FRAME_SIZE as int) == f) by {
        vstd::arithmetic::div_mod::lemma_div_multiples_vanish(f as int, FRAME_SIZE as int);
        assert(a - old.start == (FRAME_SIZE as int) * f);
    }
}

/// A block aligned to its size has its buddy aligned too, its pair starts at
/// a multiple of twice its size, and the buddy's buddy is the block itself.
proof fn lemma_pair_aligned(f: nat, k: nat)
    requires
        f % pow2(k) == 0,
    ensures
        buddy_of(f, k) % pow2(k) == 0,
        (if buddy_of(f, k) < f { buddy_of(f, k) } else { f }) % pow2(k + 1) == 0,
        buddy_of(buddy_of(f, k), k) == f,
        (f / pow2(k)) % 2 == 1 ==> f >= pow2(k),
{
    let p = pow2(k);
    lemma_pow2_pos(k);
    assert(pow2(k + 1) == 2 * p);
    let c = f / p;
    vstd::arithmetic::div_mod::lemma_fundamental_div_mod(f as int, p as int);
    assert(f == p * c);
    if c % 2 == 0 {
        let t = c / 2;
        assert(c == 2 * t);
        assert(f == (2 * p) * t) by (nonlinear_arith)
            requires
                f == p * c,
                c == 2 * t,
        ;
        vstd::arithmetic::div_mod::lemma_mod_multiples_basic(t as int, (2 * p) as int);
        assert(f == t * (2 * p)) by (nonlinear_arith)
            requires
                f == (2 * p) * t,
        ;
        assert(f + p == (c + 1) * p) by (nonlinear_arith)
            requires
                f == p * c,
        ;
        vstd::arithmetic::div_mod::lemma_mod_multiples_basic((c + 1) as int, p as int);
    } else {
        assert(c >= 1);
        assert(f >= p) by (nonlinear_arith)
            requires
                f == p * c,
                c >= 1,
                p >= 1,
        ;
        let t = (c - 1) / 2;
        assert(c - 1 == 2 * t);
        assert((f - p) as nat == t * (2 * p)) by (nonlinear_arith)
            requires
                f == p * c,
                c - 1 == 2 * t,
        ;
        vstd::arithmetic::div_mod::lemma_mod_multiples_basic(t as int, (2 * p) as int);
        assert((f - p) as nat == (c - 1) * p) by (nonlinear_arith)
            requires
                f == p * c,
                f >= p,
                c >= 1,
        ;
        vstd::arithmetic::div_mod::lemma_mod_multiples_basic((c - 1) as int, p as int);
    }
    lemma_buddy_involution(f, k);
}

/// `largest_from` gives an aligned order, and no smaller one than any order
/// up to `k` at which an aligned block fits.
proof fn lemma_largest_from_max(f: nat, frames: nat, k: nat, m: nat)
    ensures
        f % pow2(largest_from(f, frames, k)) == 0,
        m <= k && f % pow2(m) == 0 && f + pow2(m) <= frames ==> m <= largest_from(f, frames, k),
    decreases k,
{
    if k > 0 {
        lemma_largest_from_max(f, frames, (k - 1) as nat, m);
    } else {
        assert(pow2(0) == 1);
    }
}

/// Blocks that each have the largest order their start allows are aligned
/// and leave no pair to merge.
proof fn lemma_greedy_merged(m: Map<nat, nat>, frames: nat, max_order: nat)
    requires
        forall|g: nat| #[trigger] m.contains_key(g) ==> m[g] == largest_from(g, frames, max_order) && g + pow2(m[g])
            <= frames,
    ensures
        aligned(m),
        merged(m, frames, max_order),
{
    assert forall|g: nat| #[trigger] m.contains_key(g) implies g % pow2(m[g]) == 0 by {
        lemma_largest_from_max(g, frames, max_order, 0);
    }
    assert forall|x: nat| #[trigger] m.contains_key(x) implies ({
        let k = m[x];
        let b = buddy_of(x, k);
        !(k < max_order && b + pow2(k) <= frames && m.contains_key(b) && m[b] == k)
    }) by {
        let k = m[x];
        let b = buddy_of(x, k);
        if k < max_order && b + pow2(k) <= frames && m.contains_key(b) && m[b] == k {
            lemma_pair_aligned(x, k);
            lemma_pow2_pos(k);
            assert(pow2(k + 1) == 2 * pow2(k));
            let y = if b < x { b } else { x };
            assert(y + pow2(k + 1) <= frames);
            lemma_largest_from_max(y, frames, max_order, k + 1);
        }
    }
}

/// Round trip on an allocator: when an allocation of order `k` hands out
/// `a` from `b`, freeing `a` with the same size brings the free blocks back
/// to exactly those of `b`; so freeing blocks in the reverse order of their
/// allocation restores the initial free lists.
pub proof fn lemma_buddy_round_trip(b: &BuddyAllocator, mid: BuddyView, k: nat, a: nat)
    requires
        b.wf(),
        took_block(b@, mid, k, a),
    ensures
        a >= b@.start,
        merge(mid.free, ((a - b@.start) / (FRAME_SIZE as int)) as nat, k, mid.frames, mid.max_order) == b@.free,
{
    lemma_alloc_free_round_trip(b@, mid, k, a);
}

/// Buddies merge into the block taken next: when a block of order `k` at
/// `a` and its buddy are both handed out and nothing free has order above
/// `k`, freeing the two leaves exactly one more free block, their union at
/// order `k + 1`, and it is the block an allocation of order `k + 1` takes.
pub proof fn lemma_merged_block_reused(free: Map<nat, nat>, a: nat, k: nat, frames: nat, max_order: nat)
    requires
        k < max_order,
        a % pow2(k) == 0,
        a + pow2(k) <= frames,
        buddy_of(a, k) + pow2(k) <= frames,
        !free.contains_key(a),
        !free.contains_key(buddy_of(a, k)),
        forall|g: nat| #[trigger] free.contains_key(g) ==> free[g] <= k,
    ensures
        ({
            let b = buddy_of(a, k);
            let lo = if b < a { b } else { a };
            let m = merge(merge(free, a, k, frames, max_order), b, k, frames, max_order);
            &&& m == free.insert(lo, k + 1)
            &&& lowest_fit(m, k + 1, lo, k + 1)
        }),
{
    let b = buddy_of(a, k);
    let lo = if b < a { b } else { a };
    lemma_pair_aligned(a, k);
    let m1 = merge(free, a, k, frames, max_order);
    assert(m1 == free.insert(a, k));
    assert(buddy_of(b, k) == a);
    assert(m1.contains_key(a) && m1[a] == k);
    assert(m1.remove(a) =~= free);
    let m = merge(m1, b, k, frames, max_order);
    assert(m == merge(m1.remove(a), lo, k + 1, frames, max_order));
    let c = buddy_of(lo, k + 1);
    assert(!(k + 1 < max_order && c + pow2(k + 1) <= frames && free.contains_key(c) && free[c] == k + 1));
    assert(merge(free, lo, k + 1, frames, max_order) == free.insert(lo, k + 1));
    assert forall|g: nat| #[trigger] m.contains_key(g) && m[g] >= k + 1 implies m[g] > k + 1 || (m[g] == k + 1 && g >= lo) by {
        if g != lo {
            assert(free.contains_key(g));
        }
    }
}

} // verus!
