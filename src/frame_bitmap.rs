//! One bit per physical frame, most significant bit first within each byte.
use vstd::prelude::*;

verus! {

/// Number of bits in one bitmap byte.
pub const BITMAP_ENTRY_SIZE: usize = 8;

/// Bytes needed to hold one bit for each of `frames_count` frames.
pub open spec fn bitmap_bytes(frames_count: nat) -> nat {
    if frames_count % 8 > 0 { frames_count / 8 + 1 } else { frames_count / 8 }
}

/// Whether bit `k` of `b`, counted from the most significant bit, is set.
pub open spec fn msb_bit(b: u8, k: u8) -> bool {
    b & (1u8 << ((7 - k) as u8)) != 0
}

proof fn lemma_set_bit(b: u8, k: u8, j: u8)
    requires
        k < 8,
        j < 8,
    ensures
        msb_bit(b | (1u8 << ((7 - k) as u8)), j) == (j == k || msb_bit(b, j)),
{
    assert((b | (1u8 << ((7 - k) as u8))) & (1u8 << ((7 - j) as u8)) != 0 <==> (j == k || b & (1u8 << ((7 - j) as u8)) != 0)) by (bit_vector)
        requires
            k < 8,
            j < 8,
    ;
}

proof fn lemma_clear_bit(b: u8, k: u8, j: u8)
    requires
        k < 8,
        j < 8,
    ensures
        msb_bit(b & !(1u8 << ((7 - k) as u8)), j) == (j != k && msb_bit(b, j)),
{
    assert((b & !(1u8 << ((7 - k) as u8))) & (1u8 << ((7 - j) as u8)) != 0 <==> (j != k && b & (1u8 << ((7 - j) as u8)) != 0)) by (bit_vector)
        requires
            k < 8,
            j < 8,
    ;
}

proof fn lemma_zero_bit(k: u8)
    requires
        k < 8,
    ensures
        !msb_bit(0u8, k),
{
    assert(0u8 & (1u8 << ((7 - k) as u8)) == 0) by (bit_vector);
}

/// One byte of the bitmap, covering eight consecutive frames.
struct FrameBitMapEntry {
    value: u8,
}

impl FrameBitMapEntry {
    fn new() -> (r: FrameBitMapEntry)
        ensures
            r.value == 0,
    {
        FrameBitMapEntry { value: 0 }
    }

    fn index_in_byte_field(frame_number: usize) -> (r: usize)
        ensures
            r == frame_number % 8,
    {
        frame_number % BITMAP_ENTRY_SIZE
    }

    fn offset_count(frame_number: usize) -> (r: u8)
        ensures
            r == 7 - frame_number % 8,
    {
        let index_in_byte_field = FrameBitMapEntry::index_in_byte_field(frame_number);
        (BITMAP_ENTRY_SIZE - 1 - index_in_byte_field) as u8
    }

    fn is_in_use(&self, frame_number: usize) -> (r: bool)
        ensures
            r == msb_bit(self.value, (frame_number % 8) as u8),
    {
        let offset_count = FrameBitMapEntry::offset_count(frame_number);
        let bit_mask = 1u8 << offset_count;
        self.value & bit_mask != 0
    }

    fn set_in_use(&mut self, frame_number: usize)
        ensures
            final(self).value == old(self).value | (1u8 << ((7 - frame_number % 8) as u8)),
    {
        let offset_count = FrameBitMapEntry::offset_count(frame_number);
        let bit_mask = 1u8 << offset_count;
        self.value = self.value | bit_mask;
    }

    fn set_free(&mut self, frame_number: usize)
        ensures
            final(self).value == old(self).value & !(1u8 << ((7 - frame_number % 8) as u8)),
    {
        let offset_count = FrameBitMapEntry::offset_count(frame_number);
        let bit_mask = !(1u8 << offset_count);
        self.value = self.value & bit_mask;
    }
}

/// Records for each physical frame whether it is in use.
pub struct FrameBitMap {
    entries: Vec<FrameBitMapEntry>,
    frames_count: usize,
}

impl FrameBitMap {
    /// The bitmap's bytes.
    pub closed spec fn bytes(&self) -> Seq<u8> {
        self.entries@.map_values(|e: FrameBitMapEntry| e.value)
    }

    /// Number of frames covered.
    pub closed spec fn spec_frames_count(&self) -> nat {
        self.frames_count as nat
    }

    /// Frame `n` is bit `n % 8` of byte `n / 8`, counted from the most
    /// significant bit; a set bit means in use.
    pub open spec fn in_use(&self, n: int) -> bool {
        msb_bit(self.bytes()[n / 8], (n % 8) as u8)
    }

    /// The bitmap as one boolean per frame: `true` means in use.
    pub open spec fn view(&self) -> Seq<bool> {
        Seq::new(self.spec_frames_count(), |n: int| self.in_use(n))
    }

    /// There is one byte for every eight frames, rounded up.
    pub open spec fn wf(&self) -> bool {
        self.bytes().len() == bitmap_bytes(self.spec_frames_count())
    }

    /// Bytes needed for a bitmap over `frames_count` frames.
    pub fn mem_size_for(frames_count: usize) -> (r: usize)
        ensures
            r == bitmap_bytes(frames_count as nat),
    {
        let bitmap_size_help = frames_count % BITMAP_ENTRY_SIZE;
        if bitmap_size_help > 0 {
            (frames_count / BITMAP_ENTRY_SIZE) + 1
        } else {
            frames_count / BITMAP_ENTRY_SIZE
        }
    }

    /// A bitmap over `frames_count` frames, all of them free.
    pub fn new(frames_count: usize) -> (r: FrameBitMap)
        ensures
            r.wf(),
            r@.len() == frames_count,
            forall|n: int| 0 <= n < frames_count ==> !#[trigger] r@[n],
            forall|i: int| 0 <= i < r.bytes().len() ==> #[trigger] r.bytes()[i] == 0,
    {
        let bitmap_size = FrameBitMap::mem_size_for(frames_count);
        let mut entries: Vec<FrameBitMapEntry> = Vec::new();
        let mut i: usize = 0;
        while i < bitmap_size
            invariant
                i <= bitmap_size,
                entries@.len() == i,
                forall|j: int| 0 <= j < i ==> (#[trigger] entries@[j]).value == 0,
            decreases bitmap_size - i,
        {
            entries.push(FrameBitMapEntry::new());
            i = i + 1;
        }
        let r = FrameBitMap { entries, frames_count };
        assert forall|n: int| 0 <= n < frames_count implies !#[trigger] r@[n] by {
            lemma_zero_bit((n % 8) as u8);
        }
        r
    }

    /// A bitmap with one bit per `frame_size` bytes of `available_memory`.
    pub fn new_from_available_memory(available_memory: usize, frame_size: usize) -> (r: FrameBitMap)
        requires
            frame_size > 0,
        ensures
            r.wf(),
            r@.len() == available_memory / frame_size,
            forall|n: int| 0 <= n < r@.len() ==> !#[trigger] r@[n],
    {
        let frames_count = available_memory / frame_size;
        FrameBitMap::new(frames_count)
    }

    /// Whether frame `frame_number` is in use.
    pub fn is_in_use(&self, frame_number: usize) -> (r: bool)
        requires
            self.wf(),
            frame_number < self@.len(),
        ensures
            r == self@[frame_number as int],
    {
        self.entries[frame_number / BITMAP_ENTRY_SIZE].is_in_use(frame_number)
    }

    /// Whether frame `frame_number` is free.
    pub fn is_free(&self, frame_number: usize) -> (r: bool)
        requires
            self.wf(),
            frame_number < self@.len(),
        ensures
            r == !self@[frame_number as int],
    {
        !self.is_in_use(frame_number)
    }

    /// Marks frame `frame_number` as in use; no other frame changes.
    pub fn set_in_use(&mut self, frame_number: usize)
        requires
            old(self).wf(),
            frame_number < old(self)@.len(),
        ensures
            final(self).wf(),
            final(self)@ == old(self)@.update(frame_number as int, true),
    {
        let idx = frame_number / BITMAP_ENTRY_SIZE;
        let mut entry = FrameBitMapEntry { value: self.entries[idx].value };
        entry.set_in_use(frame_number);
        self.entries.set(idx, entry);
        proof {
            let k = (frame_number % 8) as u8;
            assert forall|n: int| 0 <= n < self.frames_count implies #[trigger] self@[n] == old(
                self,
            )@.update(frame_number as int, true)[n] by {
                if n / 8 == idx as int {
                    lemma_set_bit(old(self).entries@[idx as int].value, k, (n % 8) as u8);
                }
            }
            assert(self@ =~= old(self)@.update(frame_number as int, true));
        }
    }

    /// Marks frame `frame_number` as free; no other frame changes.
    pub fn set_free(&mut self, frame_number: usize)
        requires
            old(self).wf(),
            frame_number < old(self)@.len(),
        ensures
            final(self).wf(),
            final(self)@ == old(self)@.update(frame_number as int, false),
    {
        let idx = frame_number / BITMAP_ENTRY_SIZE;
        let mut entry = FrameBitMapEntry { value: self.entries[idx].value };
        entry.set_free(frame_number);
        self.entries.set(idx, entry);
        proof {
            let k = (frame_number % 8) as u8;
            assert forall|n: int| 0 <= n < self.frames_count implies #[trigger] self@[n] == old(
                self,
            )@.update(frame_number as int, false)[n] by {
                if n / 8 == idx as int {
                    lemma_clear_bit(old(self).entries@[idx as int].value, k, (n % 8) as u8);
                }
            }
            assert(self@ =~= old(self)@.update(frame_number as int, false));
        }
    }

    /// Size of the bitmap in bytes.
    pub fn size(&self) -> (r: usize)
        requires
            self.wf(),
        ensures
            r == bitmap_bytes(self@.len()),
            r == self.bytes().len(),
    {
        self.entries.len()
    }

    /// Byte `i` of the bitmap.
    pub fn byte(&self, i: usize) -> (r: u8)
        requires
            i < self.bytes().len(),
        ensures
            r == self.bytes()[i as int],
    {
        self.entries[i].value
    }

    /// Number of frames the bitmap covers.
    pub fn frames_count(&self) -> (r: usize)
        ensures
            r == self@.len(),
    {
        self.frames_count
    }
}

} // verus!
