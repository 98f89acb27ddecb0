//! Constant-block-size allocator: a bump region for blocks never handed out
//! and a last-in first-out list of freed blocks.
use crate::bump::{BumpAllocator, BumpView};
use vstd::prelude::*;

verus! {

/// Bytes of bookkeeping for one free-list node: the block address and the
/// link to the next node.
pub const FREE_LIST_NODE_SIZE: usize = 16;

/// What a free-list allocator holds.
pub struct FreeListView {
    pub start: nat,
    /// Blocks below `next` have been handed out at least once.
    pub next: nat,
    pub end: nat,
    pub block_size: nat,
    /// Freed blocks; the last one is reused first.
    pub free: Seq<usize>,
    /// Blocks handed out and not yet freed.
    pub live: Set<usize>,
}

impl FreeListView {
    /// Whether `a` is the start of a block of the region below `next`.
    pub open spec fn is_block(self, a: int) -> bool {
        self.start <= a < self.next && (a - self.start) % (self.block_size as int) == 0
    }

    /// Every freed or live block is a block below `next`, none is both, the
    /// free list has no repeats, and the two together account for every
    /// block below `next`.
    pub open spec fn wf(self) -> bool {
        &&& self.block_size > 0
        &&& self.start <= self.next <= self.end <= usize::MAX
        &&& (self.next - self.start) % (self.block_size as int) == 0
        &&& forall|i: int| 0 <= i < self.free.len() ==> self.is_block(#[trigger] self.free[i] as int)
        &&& forall|i: int, j: int| 0 <= i < j < self.free.len() ==> self.free[i] != self.free[j]
        &&& self.live.finite()
        &&& forall|a: usize| #[trigger] self.live.contains(a) ==> self.is_block(a as int) && !self.free.contains(a)
        &&& self.live.len() + self.free.len() == (self.next - self.start) / (self.block_size as int)
        &&& forall|a: usize| self.is_block(a as int) ==> #[trigger] self.live.contains(a) || self.free.contains(a)
    }

    /// The block the next allocation hands out: the last freed one, or else
    /// the next one of the region, if it fits.
    pub open spec fn next_block(self) -> Option<usize> {
        if self.free.len() > 0 {
            Some(self.free.last())
        } else if self.next + self.block_size <= self.end {
            Some(self.next as usize)
        } else {
            None
        }
    }

    /// The state after the next allocation.
    pub open spec fn allocated(self) -> Self {
        if self.free.len() > 0 {
            FreeListView { free: self.free.drop_last(), live: self.live.insert(self.free.last()), ..self }
        } else if self.next + self.block_size <= self.end {
            FreeListView {
                next: self.next + self.block_size,
                live: self.live.insert(self.next as usize),
                ..self
            }
        } else {
            self
        }
    }

    /// The state after freeing block `p`.
    pub open spec fn freed(self, p: usize) -> Self {
        FreeListView { free: self.free.push(p), live: self.live.remove(p), ..self }
    }
}

proof fn lemma_aligned_gap(x: int, y: int, b: int)
    requires
        b > 0,
        x >= 0,
        y >= 0,
        x % b == 0,
        y % b == 0,
        x < y,
    ensures
        x + b <= y,
{
    vstd::arithmetic::div_mod::lemma_fundamental_div_mod(x, b);
    vstd::arithmetic::div_mod::lemma_fundamental_div_mod(y, b);
    let qx = x / b;
    let qy = y / b;
    assert(x == b * qx && y == b * qy);
    assert(qx < qy) by (nonlinear_arith)
        requires
            b > 0,
            b * qx < b * qy,
    ;
    assert(b * qx + b <= b * qy) by (nonlinear_arith)
        requires
            qx + 1 <= qy,
            b > 0,
    ;
}

/// Hands out blocks of one size from a region, reusing freed blocks first.
pub struct FreeListAllocator {
    bump_allocator: BumpAllocator,
    block_size: usize,
    free_blocks: Vec<usize>,
    live_count: usize,
    live: Ghost<Set<usize>>,
}

impl FreeListAllocator {
    pub closed spec fn view(&self) -> FreeListView {
        FreeListView {
            start: self.bump_allocator@.start,
            next: self.bump_allocator@.next,
            end: self.bump_allocator@.end,
            block_size: self.block_size as nat,
            free: self.free_blocks@,
            live: self.live@,
        }
    }

    pub closed spec fn wf(&self) -> bool {
        &&& self.bump_allocator.wf()
        &&& self@.wf()
        &&& self.live_count == self.live@.len()
    }

    /// Bookkeeping bytes for a free list over `size` bytes from `address` in
    /// blocks of `block_size`: one node per block, plus one.
    pub fn aux_data_structures_size_for(address: usize, size: usize, block_size: usize) -> (r: usize)
        requires
            block_size > 0,
            (size / block_size + 1) * FREE_LIST_NODE_SIZE <= usize::MAX,
        ensures
            r == (size / block_size + 1) * FREE_LIST_NODE_SIZE,
    {
        (size / block_size + 1) * FREE_LIST_NODE_SIZE
    }

    fn new(bump_allocator: BumpAllocator, block_size: usize) -> (r: FreeListAllocator)
        requires
            bump_allocator.wf(),
            bump_allocator@.next == bump_allocator@.start,
            block_size > 0,
        ensures
            r.wf(),
            r@ == (FreeListView {
                start: bump_allocator@.start,
                next: bump_allocator@.start,
                end: bump_allocator@.end,
                block_size: block_size as nat,
                free: Seq::empty(),
                live: Set::empty(),
            }),
    {
        let r = FreeListAllocator {
            bump_allocator,
            block_size,
            free_blocks: Vec::new(),
            live_count: 0,
            live: Ghost(Set::empty()),
        };
        assert(r@.free =~= Seq::<usize>::empty());
        assert(0int % (block_size as int) == 0 && 0int / (block_size as int) == 0) by (nonlinear_arith)
            requires
                block_size > 0,
        ;
        r
    }

    /// An allocator over the `size` bytes from `address`.
    pub fn from_size(address: usize, size: usize, block_size: usize) -> (r: FreeListAllocator)
        requires
            address + size <= usize::MAX,
            block_size > 0,
        ensures
            r.wf(),
            r@ == (FreeListView {
                start: address as nat,
                next: address as nat,
                end: (address + size) as nat,
                block_size: block_size as nat,
                free: Seq::empty(),
                live: Set::empty(),
            }),
    {
        FreeListAllocator::new(BumpAllocator::from_size(address, size), block_size)
    }

    /// An allocator over `[address, end_address)`.
    pub fn from_address(address: usize, end_address: usize, block_size: usize) -> (r: FreeListAllocator)
        requires
            address <= end_address,
            block_size > 0,
        ensures
            r.wf(),
            r@ == (FreeListView {
                start: address as nat,
                next: address as nat,
                end: end_address as nat,
                block_size: block_size as nat,
                free: Seq::empty(),
                live: Set::empty(),
            }),
    {
        FreeListAllocator::new(BumpAllocator::from_address(address, end_address), block_size)
    }

    /// Hands out the last freed block if there is one, else the next block of
    /// the region if it fits, else nothing.
    pub fn allocate_size(&mut self) -> (r: Option<usize>)
        requires
            old(self).wf(),
        ensures
            final(self).wf(),
            r == old(self)@.next_block(),
            final(self)@ == old(self)@.allocated(),
            r matches Some(p) ==> !old(self)@.live.contains(p),
    {
        let ghost v = self@;
        match self.free_blocks.pop() {
            Some(value) => {
                proof {
                    assert(v.free[v.free.len() - 1] == value);
                    assert(v.free.contains(value));
                    assert(!v.live.contains(value));
                    assert(self.free_blocks@ == v.free.drop_last());
                    assert forall|a: usize| #[trigger] self@.live.contains(a) implies !self@.free.contains(a) by {
                        if self@.free.contains(a) {
                            let i = self@.free.index_of(a);
                            assert(v.free[i] == a);
                            assert(v.free[i] != v.free[v.free.len() - 1]);
                        }
                    }
                }
                self.live = Ghost(self.live@.insert(value));
                self.live_count = self.live_count + 1;
                proof {
                    assert(self@ == v.allocated());
                    assert forall|a: usize| self@.is_block(a as int) implies #[trigger] self@.live.contains(a) || self@.free.contains(a) by {
                        if v.free.contains(a) && a != value {
                            let i = v.free.index_of(a);
                            assert(i < v.free.len() - 1);
                            assert(self@.free[i] == a);
                        }
                    }
                }
                Some(value)
            },
            None => {
                let b = self.block_size;
                let result = self.bump_allocator.allocate(b, 1);
                match result {
                    Some(p) => {
                        proof {
                            assert(!v.live.contains(p));
                            let x = (v.next - v.start) as int;
                            assert(self@.next - self@.start == b + x);
                            vstd::arithmetic::div_mod::lemma_div_plus_one(x, b as int);
                            vstd::arithmetic::div_mod::lemma_mod_add_multiples_vanish(x, b as int);
                        }
                        self.live = Ghost(self.live@.insert(p));
                        self.live_count = self.live_count + 1;
                        proof {
                            assert(self@ =~= v.allocated());
                            assert forall|a: usize| self@.is_block(a as int) implies #[trigger] self@.live.contains(a) || self@.free.contains(a) by {
                                if a != p {
                                    if a > v.next {
                                        lemma_aligned_gap((v.next - v.start) as int, (a - v.start) as int, b as int);
                                    }
                                    assert(v.is_block(a as int));
                                }
                            }
                        }
                        Some(p)
                    },
                    None => None,
                }
            },
        }
    }

    /// Returns live block `pointer` to the free list.
    pub fn free_size(&mut self, pointer: usize)
        requires
            old(self).wf(),
            old(self)@.live.contains(pointer),
        ensures
            final(self).wf(),
            final(self)@ == old(self)@.freed(pointer),
    {
        let ghost v = self@;
        self.free_blocks.push(pointer);
        self.live = Ghost(self.live@.remove(pointer));
        self.live_count = self.live_count - 1;
        proof {
            assert forall|i: int, j: int| 0 <= i < j < self@.free.len() implies self@.free[i] != self@.free[j] by {
                if j == v.free.len() {
                    assert(v.free[i] == self@.free[i]);
                    assert(v.free.contains(v.free[i]));
                    assert(!v.free.contains(pointer));
                }
            }
            assert forall|a: usize| #[trigger] self@.live.contains(a) implies !self@.free.contains(a) by {
                if self@.free.contains(a) {
                    let i = self@.free.index_of(a);
                    if i < v.free.len() {
                        assert(v.free[i] == a);
                    }
                }
            }
            assert(self@ == v.freed(pointer));
            assert forall|a: usize| self@.is_block(a as int) implies #[trigger] self@.live.contains(a) || self@.free.contains(a) by {
                if a != pointer {
                    assert(v.is_block(a as int));
                    if v.free.contains(a) {
                        let i = v.free.index_of(a);
                        assert(self@.free[i] == a);
                    }
                } else {
                    assert(self@.free[self@.free.len() - 1] == pointer);
                }
            }
        }
    }

    /// Whether `pointer` is a block handed out and not yet freed.
    pub fn owns(&self, pointer: usize) -> (r: bool)
        requires
            self.wf(),
        ensures
            r == self@.live.contains(pointer),
    {
        let start = self.bump_allocator.start_address();
        let next = self.bump_allocator.next_address();
        if pointer < start || pointer >= next || (pointer - start) % self.block_size != 0 {
            return false;
        }
        let mut i: usize = 0;
        while i < self.free_blocks.len()
            invariant
                self.wf(),
                i <= self.free_blocks@.len(),
                forall|j: int| 0 <= j < i ==> self.free_blocks@[j] != pointer,
            decreases self.free_blocks@.len() - i,
        {
            if self.free_blocks[i] == pointer {
                return false;
            }
            i = i + 1;
        }
        proof {
            assert(!self@.free.contains(pointer));
            assert(self@.is_block(pointer as int));
        }
        true
    }

    /// Whether no block is handed out.
    pub fn fully_free(&self) -> (r: bool)
        requires
            self.wf(),
        ensures
            r == (self@.live.len() == 0),
    {
        self.live_count == 0
    }

    /// Whether no further block can be handed out.
    pub fn fully_occupied(&self) -> (r: bool)
        requires
            self.wf(),
        ensures
            r == (self@.next_block() is None),
    {
        self.free_blocks.len() == 0 && self.bump_allocator.remaining() < self.block_size
    }

    /// Extends the region by `size` bytes at its end.
    pub fn increase_size(&mut self, size: usize)
        requires
            old(self).wf(),
            old(self)@.end + size <= usize::MAX,
        ensures
            final(self).wf(),
            final(self)@ == (FreeListView { end: (old(self)@.end + size) as nat, ..old(self)@ }),
    {
        self.bump_allocator.increase_size(size);
    }

    /// Whether `pointer` lies in the region.
    pub fn is_inside_address_space(&self, pointer: usize) -> (r: bool)
        ensures
            r == (self@.start <= pointer < self@.end),
    {
        self.bump_allocator.is_inside_address_space(pointer)
    }

    pub fn start_address(&self) -> (r: usize)
        ensures
            r == self@.start,
    {
        self.bump_allocator.start_address()
    }

    /// One past the last byte of the region.
    pub fn end_address(&self) -> (r: usize)
        ensures
            r == self@.end,
    {
        self.bump_allocator.end_address()
    }

    pub fn block_size(&self) -> (r: usize)
        ensures
            r == self@.block_size,
    {
        self.block_size
    }
}

/// A well-formed allocator has a well-formed view.
pub proof fn lemma_view_wf(a: &FreeListAllocator)
    requires
        a.wf(),
    ensures
        a@.wf(),
{
}

/// Last-in first-out reuse: a block handed out and then freed is the very
/// next block handed out.
pub proof fn lemma_lifo_reuse(v: FreeListView)
    requires
        v.wf(),
        v.next_block() is Some,
    ensures
        v.allocated().freed(v.next_block().unwrap()).next_block() == v.next_block(),
{
}

/// No block is handed out twice without being freed in between: the next
/// block is never a live one, and once handed out it is live.
pub proof fn lemma_no_double_allocation(v: FreeListView)
    requires
        v.wf(),
        v.next_block() is Some,
    ensures
        !v.live.contains(v.next_block().unwrap()),
        v.allocated().live.contains(v.next_block().unwrap()),
{
}

} // verus!
