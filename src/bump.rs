//! Monotone region allocator over `[start, end)` that never frees.
use vstd::prelude::*;

verus! {

/// `x` rounded up to a multiple of `align`.
pub open spec fn align_up(x: nat, align: nat) -> nat
    recommends
        align > 0,
{
    if x % align == 0 {
        x
    } else {
        x + (align - x % align) as nat
    }
}

/// What a bump allocator holds: its region, the next free address, and how
/// many bytes it has handed out and skipped for alignment so far.
pub struct BumpView {
    pub start: nat,
    pub next: nat,
    pub end: nat,
    pub allocated: nat,
    pub padding: nat,
}

impl BumpView {
    /// Bytes still available.
    pub open spec fn remaining(self) -> int {
        self.end - self.next
    }
}

/// Hands out `[next, end)` front to back.
pub struct BumpAllocator {
    start: usize,
    next: usize,
    end: usize,
    allocated: Ghost<nat>,
    padding: Ghost<nat>,
}

impl BumpAllocator {
    pub closed spec fn view(&self) -> BumpView {
        BumpView {
            start: self.start as nat,
            next: self.next as nat,
            end: self.end as nat,
            allocated: self.allocated@,
            padding: self.padding@,
        }
    }

    /// The region is ordered and every byte below `next` was either handed
    /// out or skipped for alignment.
    pub open spec fn wf(&self) -> bool {
        &&& self@.start <= self@.next <= self@.end <= usize::MAX
        &&& self@.next == self@.start + self@.allocated + self@.padding
    }

    /// An allocator over `[start, end)`.
    pub fn from_address(start: usize, end: usize) -> (r: BumpAllocator)
        requires
            start <= end,
        ensures
            r.wf(),
            r@ == (BumpView { start: start as nat, next: start as nat, end: end as nat, allocated: 0, padding: 0 }),
    {
        BumpAllocator { start, next: start, end, allocated: Ghost(0), padding: Ghost(0) }
    }

    /// An allocator over the `size` bytes from `start`.
    pub fn from_size(start: usize, size: usize) -> (r: BumpAllocator)
        requires
            start + size <= usize::MAX,
        ensures
            r.wf(),
            r@ == (BumpView {
                start: start as nat,
                next: start as nat,
                end: (start + size) as nat,
                allocated: 0,
                padding: 0,
            }),
    {
        BumpAllocator::from_address(start, start + size)
    }

    /// Moves `next` up to a multiple of `align`, then past `size` bytes, and
    /// returns the aligned address; `None`, with nothing changed, when that
    /// would pass `end`.
    pub fn allocate(&mut self, size: usize, align: usize) -> (r: Option<usize>)
        requires
            old(self).wf(),
            align > 0,
        ensures
            final(self).wf(),
            ({
                let a = align_up(old(self)@.next, align as nat);
                if a + size <= old(self)@.end {
                    &&& r == Some(a as usize)
                    &&& final(self)@ == (BumpView {
                        next: (a + size) as nat,
                        allocated: (old(self)@.allocated + size) as nat,
                        padding: (old(self)@.padding + (a - old(self)@.next)) as nat,
                        ..old(self)@
                    })
                } else {
                    r is None && final(self)@ == old(self)@
                }
            }),
    {
        let rem = self.next % align;
        let pad: usize = if rem == 0 { 0 } else { align - rem };
        if pad <= self.end - self.next && size <= self.end - self.next - pad {
            let a = self.next + pad;
            self.padding = Ghost(self.padding@ + pad as nat);
            self.allocated = Ghost(self.allocated@ + size as nat);
            self.next = a + size;
            Some(a)
        } else {
            None
        }
    }

    /// Freeing is a no-op: the allocator never reuses memory.
    pub fn free(&mut self, _address: usize)
        ensures
            final(self)@ == old(self)@,
    {
    }

    /// Extends the region by `delta` bytes at its end.
    pub fn increase_size(&mut self, delta: usize)
        requires
            old(self).wf(),
            old(self)@.end + delta <= usize::MAX,
        ensures
            final(self).wf(),
            final(self)@ == (BumpView { end: (old(self)@.end + delta) as nat, ..old(self)@ }),
    {
        self.end = self.end + delta;
    }

    /// Bytes still available.
    pub fn remaining(&self) -> (r: usize)
        requires
            self.wf(),
        ensures
            r == self@.remaining(),
    {
        self.end - self.next
    }

    pub fn start_address(&self) -> (r: usize)
        ensures
            r == self@.start,
    {
        self.start
    }

    /// One past the last byte of the region.
    pub fn end_address(&self) -> (r: usize)
        ensures
            r == self@.end,
    {
        self.end
    }

    /// The next address that would be handed out without padding.
    pub fn next_address(&self) -> (r: usize)
        ensures
            r == self@.next,
    {
        self.next
    }

    /// Whether `pointer` lies in the region.
    pub fn is_inside_address_space(&self, pointer: usize) -> (r: bool)
        ensures
            r == (self@.start <= pointer < self@.end),
    {
        self.start <= pointer && pointer < self.end
    }
}

/// Capacity accounting: every byte of the region is either still available,
/// handed out, or skipped for alignment, so what remains is the region's size
/// less the bytes handed out and the padding.
pub proof fn lemma_bump_capacity(b: BumpAllocator)
    requires
        b.wf(),
    ensures
        b@.remaining() == (b@.end - b@.start) - b@.allocated - b@.padding,
{
}

} // verus!
