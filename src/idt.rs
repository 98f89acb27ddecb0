//! Interrupt descriptor table: the fields of each descriptor (handler
//! address split in three, code segment selector, options word) and the
//! 256-entry table that holds them, with their little-endian byte image.
use vstd::prelude::*;

verus! {

/// Vector at which the master PIC delivers IRQ 0.
pub const PIC_1_OFFSET: u8 = 32;

/// Vector at which the slave PIC delivers IRQ 8.
pub const PIC_2_OFFSET: u8 = 40;

/// Number of descriptors in the table.
pub const IDT_ENTRIES: usize = 256;

/// Vectors below this one are reserved for CPU exceptions.
pub const FIRST_INTERRUPT_VECTOR: usize = 32;

/// Bit 8: set for a trap gate, clear for an interrupt gate.
pub const DISABLE_INTERRUPT: u16 = 0x0100;

/// Bits 9 to 11, which must always be set.
pub const ALWAYS_PRESENT_BITS: u16 = 0x0E00;

/// Bit 15: the descriptor is present.
pub const IS_PRESENT: u16 = 0x8000;

/// Every bit that an options word may carry.
pub const KNOWN_OPTION_BITS: u16 = 0x8F00;

/// Hardware interrupt lines, numbered from the first PIC vector.
#[derive(Clone, Copy, Debug)]
pub enum HardwareInterrupts {
    Timer,
}

impl HardwareInterrupts {
    /// The IRQ line number.
    pub fn irq(&self) -> (r: u8)
        ensures
            r == 0,
    {
        match self {
            HardwareInterrupts::Timer => 0,
        }
    }

    /// The CPU vector at which this interrupt arrives after the PIC remap.
    pub fn vector(&self) -> (r: usize)
        ensures
            r == 32,
    {
        PIC_1_OFFSET as usize + self.irq() as usize
    }
}

/// The flag bits of an options word.
#[derive(Clone, Copy, Debug, PartialEq, Eq, Structural)]
pub struct InterruptOptionsFlags {
    bits: u16,
}

impl InterruptOptionsFlags {
    pub closed spec fn spec_bits(&self) -> u16 {
        self.bits
    }

    /// Keeps the known flag bits of `bits` and drops the rest.
    pub fn from_bits_truncate(bits: u16) -> (r: InterruptOptionsFlags)
        ensures
            r.spec_bits() == bits & KNOWN_OPTION_BITS,
    {
        InterruptOptionsFlags { bits: bits & KNOWN_OPTION_BITS }
    }

    pub fn bits(&self) -> (r: u16)
        ensures
            r == self.spec_bits(),
    {
        self.bits
    }

    /// Keeps every bit of `bits`.
    pub fn from_bits_retain(bits: u16) -> (r: InterruptOptionsFlags)
        ensures
            r.spec_bits() == bits,
    {
        InterruptOptionsFlags { bits }
    }

    /// Sets every bit of `other`.
    pub fn insert(&mut self, other: u16)
        ensures
            final(self).spec_bits() == old(self).spec_bits() | other,
    {
        self.bits = self.bits | other;
    }

    /// Clears every bit of `other`.
    pub fn remove(&mut self, other: u16)
        ensures
            final(self).spec_bits() == old(self).spec_bits() & !other,
    {
        self.bits = self.bits & !other;
    }

    /// Whether every bit of `other` is set.
    pub fn contains(&self, other: u16) -> (r: bool)
        ensures
            r == (self.spec_bits() & other == other),
    {
        self.bits & other == other
    }
}

/// The 16-bit options word of a gate descriptor.
#[derive(Clone, Copy, Debug, PartialEq, Eq, Structural)]
pub struct InterruptOptions {
    value: u16,
}

impl InterruptOptions {
    pub closed spec fn spec_value(&self) -> u16 {
        self.value
    }

    /// The valid options word with nothing but bits 9 to 11 set.
    pub fn minimal() -> (r: InterruptOptions)
        ensures
            r.spec_value() == ALWAYS_PRESENT_BITS,
    {
        InterruptOptions { value: ALWAYS_PRESENT_BITS }
    }

    /// A present interrupt gate.
    pub fn new() -> (r: InterruptOptions)
        ensures
            r.spec_value() == ALWAYS_PRESENT_BITS | IS_PRESENT,
            r.spec_value() == 0x8E00,
    {
        let mut minimal = InterruptOptions::minimal();
        minimal.set_present();
        
        assert(0x0E00u16 | 0x8000u16 == 0x8E00u16) by (bit_vector);
        minimal
    }

    pub fn value(&self) -> (r: u16)
        ensures
            r == self.spec_value(),
    {
        self.value
    }

    pub fn flags(&self) -> (r: InterruptOptionsFlags)
        ensures
            r.spec_bits() == self.spec_value(),
    {
        InterruptOptionsFlags::from_bits_retain(self.value)
    }

    pub fn set_flags(&mut self, new_flags: InterruptOptionsFlags)
        ensures
            final(self).spec_value() == new_flags.spec_bits(),
    {
        self.value = new_flags.bits();
    }

    /// Clears bit 8, so that the descriptor is an interrupt gate; no other bit changes.
    pub fn disable_interrupt(&mut self)
        ensures
            final(self).spec_value() == old(self).spec_value() & !DISABLE_INTERRUPT,
    {
        let mut flags = self.flags();
        flags.remove(DISABLE_INTERRUPT);
        self.value = flags.bits();
    }

    /// Marks the descriptor present; no other bit changes.
    pub fn set_present(&mut self)
        ensures
            final(self).spec_value() == old(self).spec_value() | IS_PRESENT,
    {
        let mut flags = self.flags();
        flags.insert(IS_PRESENT);
        self.value = flags.bits();
    }

    /// Marks the descriptor not present; no other bit changes.
    pub fn set_unused(&mut self)
        ensures
            final(self).spec_value() == old(self).spec_value() & !IS_PRESENT,
    {
        let mut flags = self.flags();
        flags.remove(IS_PRESENT);
        self.value = flags.bits();
    }
}

/// A code-segment selector.
#[derive(Clone, Copy, Debug, PartialEq, Eq, Structural)]
pub struct GDTSelector {
    value: u16,
}

impl GDTSelector {
    pub closed spec fn spec_value(&self) -> u16 {
        self.value
    }

    /// The selector with the given raw value, usually the current `%cs`.
    pub fn new(value: u16) -> (r: GDTSelector)
        ensures
            r.spec_value() == value,
    {
        GDTSelector { value }
    }

    /// The null selector.
    pub fn empty() -> (r: GDTSelector)
        ensures
            r.spec_value() == 0,
    {
        GDTSelector { value: 0 }
    }

    pub fn value(&self) -> (r: u16)
        ensures
            r == self.spec_value(),
    {
        self.value
    }
}

/// The handler address that the three pointer fields of a descriptor spell.
pub open spec fn joined_address(low: u16, middle: u16, high: u32) -> u64 {
    (low as u64) | ((middle as u64) << 16u64) | ((high as u64) << 32u64)
}

proof fn lemma_split_join(a: u64)
    ensures
        joined_address(a as u16, (a >> 16u64) as u16, (a >> 32u64) as u32) == a,
{
    assert(((a as u16) as u64) | ((((a >> 16u64) as u16) as u64) << 16u64) | ((((a
        >> 32u64) as u32) as u64) << 32u64) == a) by (bit_vector);
}

/// The fields of one gate descriptor, in the order the CPU reads them;
/// `to_bytes` gives its 16-byte image.
#[derive(Clone, Copy, Debug)]
pub struct InterruptTableEntry {
    lower_pointer_bits: u16,
    gdt_selector: GDTSelector,
    options: InterruptOptions,
    middle_pointer_bits: u16,
    remaining_pointer_bits: u32,
    reserved: u32,
}

impl InterruptTableEntry {
    /// The handler address the descriptor points to.
    pub closed spec fn spec_handler_address(&self) -> u64 {
        joined_address(self.lower_pointer_bits, self.middle_pointer_bits, self.remaining_pointer_bits)
    }

    pub closed spec fn spec_options(&self) -> u16 {
        self.options.value
    }

    pub closed spec fn spec_selector(&self) -> u16 {
        self.gdt_selector.value
    }

    pub closed spec fn spec_reserved(&self) -> u32 {
        self.reserved
    }

    /// Whether the descriptor is a present gate whose bits 9 to 11 are set.
    pub open spec fn is_present_gate(&self) -> bool {
        self.spec_options() & IS_PRESENT == IS_PRESENT && self.spec_options() & ALWAYS_PRESENT_BITS
            == ALWAYS_PRESENT_BITS
    }

    fn new(handler_address: u64, selector: u16) -> (r: InterruptTableEntry)
        ensures
            r.spec_handler_address() == handler_address,
            r.spec_selector() == selector,
            r.spec_options() == 0x8E00,
            r.spec_reserved() == 0,
    {
        let lower_pointer_bits = handler_address as u16;
        let middle_pointer_bits = (handler_address >> 16) as u16;
        let remaining_pointer_bits = (handler_address >> 32) as u32;
        let options = InterruptOptions::new();
        let gdt_selector = GDTSelector::new(selector);
        proof {
            lemma_split_join(handler_address);
        }
        InterruptTableEntry {
            lower_pointer_bits,
            gdt_selector,
            options,
            middle_pointer_bits,
            remaining_pointer_bits,
            reserved: 0,
        }
    }

    /// A present interrupt gate for a handler without an error code, at
    /// `handler_address` in the code segment `selector`.
    pub fn create_present_entry(handler_address: u64, selector: u16) -> (r: InterruptTableEntry)
        ensures
            r.spec_handler_address() == handler_address,
            r.spec_selector() == selector,
            r.spec_options() == 0x8E00,
            r.spec_reserved() == 0,
            r.is_present_gate(),
    {
        let mut result = InterruptTableEntry::new(handler_address, selector);
        result.options.set_present();
        assert(0x8E00u16 | 0x8000u16 == 0x8E00u16) by (bit_vector);
        assert(0x8E00u16 & 0x8000u16 == 0x8000u16 && 0x8E00u16 & 0x0E00u16 == 0x0E00u16)
            by (bit_vector);
        result
    }

    /// A present interrupt gate for a handler that also receives an error code.
    pub fn create_present_entry1(handler_address: u64, selector: u16) -> (r: InterruptTableEntry)
        ensures
            r.spec_handler_address() == handler_address,
            r.spec_selector() == selector,
            r.spec_options() == 0x8E00,
            r.spec_reserved() == 0,
            r.is_present_gate(),
    {
        InterruptTableEntry::create_present_entry(handler_address, selector)
    }

    /// A descriptor that is not present.
    pub fn empty() -> (r: InterruptTableEntry)
        ensures
            r.spec_handler_address() == 0,
            r.spec_selector() == 0,
            r.spec_options() == ALWAYS_PRESENT_BITS,
            r.spec_reserved() == 0,
            !r.is_present_gate(),
    {
        let options = InterruptOptions::minimal();
        let gdt_selector = GDTSelector::empty();
        assert(joined_address(0, 0, 0) == 0) by (bit_vector);
        assert(0x0E00u16 & 0x8000u16 != 0x8000u16) by (bit_vector);
        InterruptTableEntry {
            lower_pointer_bits: 0,
            gdt_selector,
            options,
            middle_pointer_bits: 0,
            remaining_pointer_bits: 0,
            reserved: 0,
        }
    }

    pub fn handler_address(&self) -> (r: u64)
        ensures
            r == self.spec_handler_address(),
    {
        (self.lower_pointer_bits as u64) | ((self.middle_pointer_bits as u64) << 16) | ((
        self.remaining_pointer_bits as u64) << 32)
    }

    pub fn options(&self) -> (r: InterruptOptions)
        ensures
            r.spec_value() == self.spec_options(),
    {
        self.options
    }

    pub fn selector(&self) -> (r: u16)
        ensures
            r == self.spec_selector(),
    {
        self.gdt_selector.value
    }
}

/// The full table of 256 descriptors.
pub struct InterruptTable {
    entries: Vec<InterruptTableEntry>,
}

impl InterruptTable {
    pub closed spec fn view(&self) -> Seq<InterruptTableEntry> {
        self.entries@
    }

    /// A table in which no descriptor is present.
    pub fn new() -> (r: InterruptTable)
        ensures
            r@.len() == IDT_ENTRIES,
            forall|i: int|
                0 <= i < IDT_ENTRIES ==> (#[trigger] r@[i]).spec_options() == ALWAYS_PRESENT_BITS
                    && r@[i].spec_handler_address() == 0 && r@[i].spec_selector() == 0
                    && r@[i].spec_reserved() == 0,
    {
        let mut entries: Vec<InterruptTableEntry> = Vec::new();
        let mut i: usize = 0;
        while i < IDT_ENTRIES
            invariant
                i <= IDT_ENTRIES,
                entries@.len() == i,
                forall|j: int|
                    0 <= j < i ==> (#[trigger] entries@[j]).spec_options() == ALWAYS_PRESENT_BITS
                        && entries@[j].spec_handler_address() == 0 && entries@[j].spec_selector()
                        == 0 && entries@[j].spec_reserved() == 0,
            decreases IDT_ENTRIES - i,
        {
            entries.push(InterruptTableEntry::empty());
            i = i + 1;
        }
        InterruptTable { entries }
    }

    /// Installs a present interrupt gate at a hardware or software vector.
    pub fn set_interrupt_handler(&mut self, idx: usize, handler_address: u64, selector: u16)
        requires
            old(self)@.len() == IDT_ENTRIES,
            FIRST_INTERRUPT_VECTOR <= idx < IDT_ENTRIES,
        ensures
            final(self)@.len() == IDT_ENTRIES,
            final(self)@ == old(self)@.update(idx as int, final(self)@[idx as int]),
            final(self)@[idx as int].spec_handler_address() == handler_address,
            final(self)@[idx as int].spec_selector() == selector,
            final(self)@[idx as int].spec_options() == 0x8E00,
            final(self)@[idx as int].spec_reserved() == 0,
            final(self)@[idx as int].is_present_gate(),
    {
        let entry = InterruptTableEntry::create_present_entry(handler_address, selector);
        self.entries.set(idx, entry);
    }

    /// Installs a present gate for one of the CPU exception vectors.
    pub fn set_exception_handler(&mut self, idx: usize, handler_address: u64, selector: u16)
        requires
            old(self)@.len() == IDT_ENTRIES,
            idx < FIRST_INTERRUPT_VECTOR,
        ensures
            final(self)@.len() == IDT_ENTRIES,
            final(self)@ == old(self)@.update(idx as int, final(self)@[idx as int]),
            final(self)@[idx as int].spec_handler_address() == handler_address,
            final(self)@[idx as int].spec_selector() == selector,
            final(self)@[idx as int].spec_options() == 0x8E00,
            final(self)@[idx as int].spec_reserved() == 0,
            final(self)@[idx as int].is_present_gate(),
    {
        let entry = InterruptTableEntry::create_present_entry(handler_address, selector);
        self.entries.set(idx, entry);
    }

    /// The descriptor at vector `idx`.
    pub fn entry(&self, idx: usize) -> (r: InterruptTableEntry)
        requires
            idx < self@.len(),
        ensures
            r == self@[idx as int],
    {
        self.entries[idx]
    }

    /// The `limit` of the pseudo-descriptor that `lidt` loads: the table's
    /// size in bytes, less one.
    pub fn limit(&self) -> (r: u16)
        ensures
            r == 16 * IDT_ENTRIES - 1,
    {
        (16 * IDT_ENTRIES - 1) as u16
    }
}

/// The two bytes of `x`, least significant first.
pub open spec fn le_bytes16(x: u16) -> Seq<u8> {
    seq![x as u8, (x >> 8u16) as u8]
}

/// The four bytes of `x`, least significant first.
pub open spec fn le_bytes32(x: u32) -> Seq<u8> {
    seq![x as u8, (x >> 8u32) as u8, (x >> 16u32) as u8, (x >> 24u32) as u8]
}

/// The eight bytes of `x`, least significant first.
pub open spec fn le_bytes64(x: u64) -> Seq<u8> {
    le_bytes32(x as u32) + le_bytes32((x >> 32u64) as u32)
}

/// The 16 bytes of a descriptor: handler bits 0-15, selector, options,
/// handler bits 16-31, handler bits 32-63, reserved; each little-endian.
pub open spec fn entry_bytes(address: u64, selector: u16, options: u16, reserved: u32) -> Seq<u8> {
    le_bytes16(address as u16) + le_bytes16(selector) + le_bytes16(options) + le_bytes16(
        (address >> 16u64) as u16,
    ) + le_bytes32((address >> 32u64) as u32) + le_bytes32(reserved)
}

/// The bytes of descriptor `e`.
pub open spec fn bytes_of(e: InterruptTableEntry) -> Seq<u8> {
    entry_bytes(e.spec_handler_address(), e.spec_selector(), e.spec_options(), e.spec_reserved())
}

proof fn lemma_join_split(low: u16, middle: u16, high: u32)
    ensures
        joined_address(low, middle, high) as u16 == low,
        (joined_address(low, middle, high) >> 16u64) as u16 == middle,
        (joined_address(low, middle, high) >> 32u64) as u32 == high,
{
    assert(((low as u64) | ((middle as u64) << 16u64) | ((high as u64) << 32u64)) as u16 == low
        && ((((low as u64) | ((middle as u64) << 16u64) | ((high as u64) << 32u64)) >> 16u64) as u16) == middle
        && ((((low as u64) | ((middle as u64) << 16u64) | ((high as u64) << 32u64)) >> 32u64) as u32) == high)
        by (bit_vector);
}

fn push16(v: &mut Vec<u8>, x: u16)
    ensures
        final(v)@ == old(v)@ + le_bytes16(x),
{
    v.push(x as u8);
    v.push((x >> 8) as u8);
    assert(v@ =~= old(v)@ + le_bytes16(x));
}

fn push32(v: &mut Vec<u8>, x: u32)
    ensures
        final(v)@ == old(v)@ + le_bytes32(x),
{
    v.push(x as u8);
    v.push((x >> 8) as u8);
    v.push((x >> 16) as u8);
    v.push((x >> 24) as u8);
    assert(v@ =~= old(v)@ + le_bytes32(x));
}

impl InterruptTableEntry {
    /// The descriptor as the CPU reads it: 16 bytes, little-endian.
    pub fn to_bytes(&self) -> (r: Vec<u8>)
        ensures
            r@ == bytes_of(*self),
            r@.len() == 16,
    {
        let mut v: Vec<u8> = Vec::new();
        push16(&mut v, self.lower_pointer_bits);
        push16(&mut v, self.gdt_selector.value);
        push16(&mut v, self.options.value);
        push16(&mut v, self.middle_pointer_bits);
        push32(&mut v, self.remaining_pointer_bits);
        push32(&mut v, self.reserved);
        proof {
            lemma_join_split(self.lower_pointer_bits, self.middle_pointer_bits, self.remaining_pointer_bits);
            assert(v@ =~= bytes_of(*self));
        }
        v
    }
}

impl InterruptTable {
    /// The whole table as the CPU reads it: 256 descriptors of 16 bytes, in
    /// vector order.
    pub fn encode(&self) -> (r: Vec<u8>)
        requires
            self@.len() == IDT_ENTRIES,
        ensures
            r@.len() == 16 * IDT_ENTRIES,
            forall|i: int, j: int| 0 <= i < IDT_ENTRIES && 0 <= j < 16 ==> #[trigger] r@[16 * i + j] == bytes_of(self@[i])[j],
    {
        let mut r: Vec<u8> = Vec::new();
        let mut i: usize = 0;
        while i < IDT_ENTRIES
            invariant
                self@.len() == IDT_ENTRIES,
                i <= IDT_ENTRIES,
                r@.len() == 16 * i,
                forall|k: int, j: int| 0 <= k < i && 0 <= j < 16 ==> #[trigger] r@[16 * k + j] == bytes_of(self@[k])[j],
            decreases IDT_ENTRIES - i,
        {
            let b = self.entries[i].to_bytes();
            let ghost before = r@;
            let mut j: usize = 0;
            while j < 16
                invariant
                    b@ == bytes_of(self@[i as int]),
                    b@.len() == 16,
                    j <= 16,
                    r@.len() == 16 * i + j,
                    forall|x: int| 0 <= x < 16 * i ==> r@[x] == before[x],
                    forall|x: int| 0 <= x < j ==> #[trigger] r@[16 * i + x] == b@[x],
                decreases 16 - j,
            {
                r.push(b[j]);
                j = j + 1;
            }
            proof {
                assert forall|k: int, jj: int| 0 <= k < i + 1 && 0 <= jj < 16 implies #[trigger] r@[16 * k + jj]
                    == bytes_of(self@[k])[jj] by {
                    if k < i {
                        assert(r@[16 * k + jj] == before[16 * k + jj]);
                    }
                }
            }
            i = i + 1;
        }
        r
    }

    /// The 10-byte operand of `lidt` for this table at address `base`: the
    /// limit, then the base, little-endian.
    pub fn descriptor(&self, base: u64) -> (r: Vec<u8>)
        ensures
            r@ == le_bytes16((16 * IDT_ENTRIES - 1) as u16) + le_bytes64(base),
            r@.len() == 10,
    {
        let mut v: Vec<u8> = Vec::new();
        push16(&mut v, self.limit());
        push32(&mut v, base as u32);
        push32(&mut v, (base >> 32) as u32);
        assert(v@ =~= le_bytes16((16 * IDT_ENTRIES - 1) as u16) + le_bytes64(base));
        v
    }
}

} // verus!
