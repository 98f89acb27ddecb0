//! Four-level x86_64 page tables at 4 KiB granularity. A table below the
//! top one is found, as through the recursive mapping, by the part of the
//! virtual address that leads to it; its parent entry holds its frame.
use crate::buddy::{BuddyAllocator, FRAME_SIZE};
use crate::table_release::{has_present, lemma_drop_table, lemma_path_cleaned, lemma_walk_some, released};
use vstd::prelude::*;

verus! {

/// Entries per table.
pub const ENTRY_COUNT: usize = 512;

pub const PRESENT: u64 = 1;
pub const WRITABLE: u64 = 0x2;
pub const USER_ACCESSIBLE: u64 = 0x4;
pub const WRITE_THROUGH: u64 = 0x8;
pub const NO_CACHE: u64 = 0x10;
pub const ACCESSED: u64 = 0x20;
pub const DIRTY: u64 = 0x40;
pub const HUGE_PAGE: u64 = 0x80;
pub const GLOBAL: u64 = 0x100;
pub const NO_EXECUTE: u64 = 0x8000_0000_0000_0000;

/// Bits 12 to 51 of an entry: the physical address.
pub const ADDRESS_MASK: u64 = 0x000f_ffff_ffff_f000;

/// Number of virtual pages the four levels cover: `2^36`.
pub const PAGE_COUNT: u64 = 0x10_0000_0000;

/// `512^l` for a level `l` from 0 to 4.
pub open spec fn span(l: nat) -> nat {
    if l == 0 {
        1
    } else if l == 1 {
        512
    } else if l == 2 {
        262144
    } else if l == 3 {
        134217728
    } else {
        68719476736
    }
}

/// The virtual page number of address `v`.
pub open spec fn vpn(v: u64) -> nat {
    ((v as nat) / 4096) % (PAGE_COUNT as nat)
}

/// Index into the level-`l` table for page `n` (level 3 is the top table).
pub open spec fn index_at(n: nat, l: nat) -> nat {
    (n / span(l)) % 512
}

/// Key of the level-`l` table that page `n` goes through.
pub open spec fn prefix_at(n: nat, l: nat) -> nat {
    n / span(l + 1)
}

pub open spec fn is_present(e: u64) -> bool {
    e & PRESENT != 0
}

pub open spec fn address_of(e: u64) -> u64 {
    e & ADDRESS_MASK
}

/// One table: its frame and its 512 entries (its level and key are the key
/// it is stored under).
pub struct TableView {
    pub frame: u64,
    pub entries: Seq<u64>,
}

/// The entry that page `n` reads at level `l`, if that table exists.
pub open spec fn entry_at(tables: Map<(nat, nat), TableView>, n: nat, l: nat) -> Option<u64> {
    let key = (l, prefix_at(n, l));
    if tables.contains_key(key) && index_at(n, l) < tables[key].entries.len() {
        Some(tables[key].entries[index_at(n, l) as int])
    } else {
        None
    }
}

/// The walk for page `n` from the level-`l` table down: the leaf entry, if
/// every entry on the way is present.
pub open spec fn walk(tables: Map<(nat, nat), TableView>, n: nat, l: nat) -> Option<u64>
    decreases l,
{
    match entry_at(tables, n, l) {
        Some(e) => if !is_present(e) {
            None
        } else if l == 0 {
            Some(e)
        } else {
            walk(tables, n, (l - 1) as nat)
        },
        None => None,
    }
}

/// The physical frame that virtual page `n` maps to.
pub open spec fn frame_of(tables: Map<(nat, nat), TableView>, n: nat) -> Option<u64> {
    match walk(tables, n, 3) {
        Some(e) => Some(address_of(e)),
        None => None,
    }
}

/// Each lower table hangs from a present entry of its parent, and every
/// present entry above the last level leads to a table.
pub open spec fn links_ok(t: Map<(nat, nat), TableView>) -> bool {
    &&& forall|k: (nat, nat)|
        #[trigger] t.contains_key(k) && k.0 < 3 ==> t.contains_key((k.0 + 1, k.1 / 512)) && is_present(
            t[(k.0 + 1, k.1 / 512)].entries[(k.1 % 512) as int],
        )
    &&& forall|k: (nat, nat), i: int|
        #[trigger] t.contains_key(k) && k.0 > 0 && 0 <= i < 512 && is_present(#[trigger] t[k].entries[i])
            ==> t.contains_key(((k.0 - 1) as nat, (k.1 * 512 + i) as nat))
}

proof fn lemma_span_step(l: nat)
    requires
        l <= 3,
    ensures
        span(l + 1) == 512 * span(l),
        span(l) >= 1,
{
}

/// The key and index a page uses at level `l + 1` are the parts of its key
/// at level `l`.
pub(crate) proof fn lemma_prefix_split(n: nat, l: nat)
    requires
        l <= 2,
    ensures
        prefix_at(n, l + 1) == prefix_at(n, l) / 512,
        index_at(n, l + 1) == prefix_at(n, l) % 512,
{
    lemma_span_step(l + 1);
    vstd::arithmetic::div_mod::lemma_div_denominator(n as int, span(l + 1) as int, 512);
    assert(span(l + 2) == span(l + 1) * 512);
}

/// Walks agree where the entries they read agree.
pub(crate) proof fn lemma_walk_same(t1: Map<(nat, nat), TableView>, t2: Map<(nat, nat), TableView>, n: nat, l: nat)
    requires
        forall|k: nat| k <= l ==> #[trigger] entry_at(t1, n, k) == entry_at(t2, n, k),
    ensures
        walk(t1, n, l) == walk(t2, n, l),
    decreases l,
{
    assert(entry_at(t1, n, l) == entry_at(t2, n, l));
    if l > 0 {
        lemma_walk_same(t1, t2, n, (l - 1) as nat);
    }
}

/// A walk through a missing or not-present entry gives nothing.
pub(crate) proof fn lemma_walk_stops(t: Map<(nat, nat), TableView>, n: nat, l: nat, k: nat)
    requires
        k <= l,
        entry_at(t, n, k) is None || !is_present(entry_at(t, n, k).unwrap()),
    ensures
        walk(t, n, l) is None,
    decreases l,
{
    if l > k {
        lemma_walk_stops(t, n, (l - 1) as nat, k);
    }
}

/// The walk for page `n` reaches a present leaf entry `e` when every entry
/// on the way is present.
proof fn lemma_walk_reaches(t: Map<(nat, nat), TableView>, n: nat, e: u64)
    requires
        forall|j: nat| 1 <= j <= 3 ==> #[trigger] entry_at(t, n, j) is Some && is_present(entry_at(t, n, j).unwrap()),
        entry_at(t, n, 0) == Some(e),
        is_present(e),
    ensures
        walk(t, n, 3) == Some(e),
{
    assert(entry_at(t, n, 1) is Some);
    assert(entry_at(t, n, 2) is Some);
    assert(entry_at(t, n, 3) is Some);
    assert(walk(t, n, 0) == Some(e));
    assert(walk(t, n, 1) == Some(e));
    assert(walk(t, n, 2) == Some(e));
}

proof fn lemma_leaf_entry(phys: u64, flags: u64)
    requires
        phys & !ADDRESS_MASK == 0,
        flags & ADDRESS_MASK == 0,
    ensures
        address_of(phys | flags | PRESENT) == phys,
        is_present(phys | flags | PRESENT),
{
    assert(phys & !0x000f_ffff_ffff_f000u64 == 0 && flags & 0x000f_ffff_ffff_f000u64 == 0 ==> (phys | flags | 1u64)
        & 0x000f_ffff_ffff_f000u64 == phys) by (bit_vector);
    assert((phys | flags | 1u64) & 1u64 != 0) by (bit_vector);
}

/// Adding an empty table under a not-present entry, and making that entry
/// present, keeps the links and changes no translation.
#[verifier::spinoff_prover]
proof fn lemma_new_table(
    t1: Map<(nat, nat), TableView>,
    t2: Map<(nat, nat), TableView>,
    l: nat,
    prefix: nat,
    idx: nat,
    e: u64,
    ne: u64,
    z: TableView,
)
    requires
        1 <= l <= 3,
        idx < 512,
        links_ok(t1),
        t1.contains_key((l, prefix)),
        t1[(l, prefix)].entries.len() == 512,
        t1[(l, prefix)].entries[idx as int] == e,
        !is_present(e),
        is_present(ne),
        !t1.contains_key(((l - 1) as nat, prefix * 512 + idx)),
        z.entries.len() == 512,
        forall|i: int| 0 <= i < 512 ==> #[trigger] z.entries[i] == 0,
        t2 == t1.insert(
            (l, prefix),
            TableView { frame: t1[(l, prefix)].frame, entries: t1[(l, prefix)].entries.update(idx as int, ne) },
        ).insert(((l - 1) as nat, prefix * 512 + idx), z),
    ensures
        links_ok(t2),
        forall|m: nat| #[trigger] frame_of(t2, m) == frame_of(t1, m),
{
    let key = (l, prefix);
    let q = prefix * 512 + idx;
    let ck = ((l - 1) as nat, q);
    assert(q / 512 == prefix && q % 512 == idx) by {
        vstd::arithmetic::div_mod::lemma_fundamental_div_mod(q as int, 512);
        vstd::arithmetic::div_mod::lemma_div_multiples_vanish_fancy(prefix as int, idx as int, 512);
        vstd::arithmetic::div_mod::lemma_mod_multiples_vanish(prefix as int, idx as int, 512);
    }
    assert(0u64 & 1u64 == 0) by (bit_vector);
    assert forall|k: (nat, nat)| #[trigger] t2.contains_key(k) && k.0 < 3 implies t2.contains_key((k.0 + 1, k.1 / 512))
        && is_present(t2[(k.0 + 1, k.1 / 512)].entries[(k.1 % 512) as int]) by {
        if k != ck {
            assert(t1.contains_key(k));
            let pk = (k.0 + 1, k.1 / 512);
            assert(t1.contains_key(pk));
            if pk == key && k.1 % 512 == idx {
            } else if pk == key {
                assert(t2[pk].entries[(k.1 % 512) as int] == t1[pk].entries[(k.1 % 512) as int]);
            } else {
                assert(pk != ck);
            }
        }
    }
    assert forall|k: (nat, nat), i: int|
        #[trigger] t2.contains_key(k) && k.0 > 0 && 0 <= i < 512 && is_present(#[trigger] t2[k].entries[i]) implies
        t2.contains_key(((k.0 - 1) as nat, (k.1 * 512 + i) as nat)) by {
        if k == ck {
            assert(t2[k].entries[i] == 0);
        } else if k == key && i == idx {
        } else {
            assert(t1.contains_key(k));
            assert(t2[k].entries[i] == t1[k].entries[i]);
        }
    }
    assert forall|m: nat| #[trigger] frame_of(t2, m) == frame_of(t1, m) by {
        lemma_prefix_split(m, (l - 1) as nat);
        if prefix_at(m, l) == prefix && index_at(m, l) == idx {
            assert(entry_at(t1, m, l) == Some(e));
            lemma_walk_stops(t1, m, 3, l);
            let pm = prefix_at(m, (l - 1) as nat);
            assert(pm == (pm / 512) * 512 + pm % 512) by {
                vstd::arithmetic::div_mod::lemma_fundamental_div_mod(pm as int, 512);
            }
            assert(pm == q);
            assert(index_at(m, (l - 1) as nat) < 512);
            assert(entry_at(t2, m, (l - 1) as nat) == Some(0u64));
            lemma_walk_stops(t2, m, 3, (l - 1) as nat);
        } else {
            assert forall|j: nat| j <= 3 implies #[trigger] entry_at(t1, m, j) == entry_at(t2, m, j) by {
                if j == (l - 1) as nat {
                    assert(prefix_at(m, j) != q);
                }
            }
            lemma_walk_same(t1, t2, m, 3);
        }
    }
}

/// Two pages with the same last-level table and index are the same page.
proof fn lemma_page_parts(m: nat, n: nat)
    requires
        m != n,
    ensures
        prefix_at(m, 0) != prefix_at(n, 0) || index_at(m, 0) != index_at(n, 0),
{
    assert(span(0) == 1 && span(1) == 512);
    assert(m / 1 == m && n / 1 == n);
    vstd::arithmetic::div_mod::lemma_fundamental_div_mod(m as int, 512);
    vstd::arithmetic::div_mod::lemma_fundamental_div_mod(n as int, 512);
}

/// The table map after writing `leaf` into the last-level entry of page `n`.
pub open spec fn with_leaf(t1: Map<(nat, nat), TableView>, n: nat, leaf: u64) -> Map<(nat, nat), TableView> {
    t1.insert(
        (0, prefix_at(n, 0)),
        TableView {
            frame: t1[(0, prefix_at(n, 0))].frame,
            entries: t1[(0, prefix_at(n, 0))].entries.update(index_at(n, 0) as int, leaf),
        },
    )
}

/// Replacing a last-level table keeps the links: its entries lead nowhere.
#[verifier::spinoff_prover]
proof fn lemma_leaf_links(t1: Map<(nat, nat), TableView>, key: (nat, nat), tv: TableView)
    requires
        links_ok(t1),
        t1.contains_key(key),
        key.0 == 0,
    ensures
        links_ok(t1.insert(key, tv)),
{
    let t2 = t1.insert(key, tv);
    assert(t2.dom() =~= t1.dom());
    assert forall|k: (nat, nat)| k.0 > 0 implies #[trigger] t2[k] == t1[k] by {}
}

/// Writing the last-level entry of page `n` changes the translation of no
/// other page.
proof fn lemma_leaf_frames(t1: Map<(nat, nat), TableView>, n: nat, leaf: u64)
    requires
        t1.contains_key((0, prefix_at(n, 0))),
        t1[(0, prefix_at(n, 0))].entries.len() == 512,
    ensures
        forall|m: nat| m != n ==> #[trigger] frame_of(with_leaf(t1, n, leaf), m) == frame_of(t1, m),
        entry_at(with_leaf(t1, n, leaf), n, 0) == Some(leaf),
        forall|j: nat| 1 <= j <= 3 ==> #[trigger] entry_at(with_leaf(t1, n, leaf), n, j) == entry_at(t1, n, j),
{
    let t2 = with_leaf(t1, n, leaf);
    assert(index_at(n, 0) < 512);
    assert forall|m: nat| m != n implies #[trigger] frame_of(t2, m) == frame_of(t1, m) by {
        lemma_page_parts(m, n);
        assert forall|j: nat| j <= 3 implies #[trigger] entry_at(t1, m, j) == entry_at(t2, m, j) by {}
        lemma_walk_same(t1, t2, m, 3);
    }
}

/// One table in memory.
struct Table {
    level: usize,
    prefix: u64,
    frame: u64,
    entries: Vec<u64>,
}

impl Table {
    spec fn view(&self) -> TableView {
        TableView { frame: self.frame, entries: self.entries@ }
    }
}

/// The four levels of page tables of one address space.
pub struct PageTable {
    tables: Vec<Table>,
}

impl PageTable {
    spec fn key(t: Table) -> (nat, nat) {
        (t.level as nat, t.prefix as nat)
    }

    spec fn has(&self, k: (nat, nat)) -> bool {
        exists|i: int| 0 <= i < self.tables@.len() && Self::key(#[trigger] self.tables@[i]) == k
    }

    spec fn index_of(&self, k: (nat, nat)) -> int {
        choose|i: int| 0 <= i < self.tables@.len() && Self::key(#[trigger] self.tables@[i]) == k
    }

    /// The tables by level and key.
    pub closed spec fn view(&self) -> Map<(nat, nat), TableView> {
        Map::new(|k: (nat, nat)| self.has(k), |k: (nat, nat)| self.tables@[self.index_of(k)].view())
    }

    spec fn keys_unique(&self) -> bool {
        forall|i: int, j: int|
            0 <= i < j < self.tables@.len() ==> Self::key(#[trigger] self.tables@[i]) != Self::key(
                #[trigger] self.tables@[j],
            )
    }

    /// Keys are unique, every table has 512 entries, the top table exists,
    /// each lower table is reached by a present entry of its parent, and
    /// every present entry above the last level leads to a table.
    pub closed spec fn wf(&self) -> bool {
        &&& self.keys_unique()
        &&& forall|i: int|
            0 <= i < self.tables@.len() ==> (#[trigger] self.tables@[i]).entries@.len() == ENTRY_COUNT
                && self.tables@[i].level <= 3 && (self.tables@[i].level == 3 ==> self.tables@[i].prefix == 0)
                && self.tables@[i].prefix < span((3 - self.tables@[i].level) as nat)
        &&& self@.contains_key((3, 0))
        &&& links_ok(self@)
    }
}

/// Why a page could not be mapped.
#[derive(Clone, Copy, Debug, PartialEq, Eq, Structural)]
pub enum PagingError {
    /// The frame allocator had no frame left for an intermediate table.
    OutOfMemory,
}

/// `512^l` as a machine integer.
fn span_exec(l: usize) -> (r: u64)
    requires
        l <= 4,
    ensures
        r == span(l as nat),
{
    if l == 0 {
        1
    } else if l == 1 {
        512
    } else if l == 2 {
        262144
    } else if l == 3 {
        134217728
    } else {
        68719476736
    }
}

impl PageTable {
    proof fn lemma_index_of(&self, i: int)
        requires
            self.keys_unique(),
            0 <= i < self.tables@.len(),
        ensures
            self.has(Self::key(self.tables@[i])),
            self.index_of(Self::key(self.tables@[i])) == i,
            self@.contains_key(Self::key(self.tables@[i])),
            self@[Self::key(self.tables@[i])] == self.tables@[i].view(),
    {
        let k = Self::key(self.tables@[i]);
        assert(self.has(k));
        let j = self.index_of(k);
        if j < i {
            assert(Self::key(self.tables@[j]) != Self::key(self.tables@[i]));
        } else if j > i {
            assert(Self::key(self.tables@[i]) != Self::key(self.tables@[j]));
        }
    }

    /// Position of the table with key `(level, prefix)`, if there is one.
    fn find(&self, level: usize, prefix: u64) -> (r: Option<usize>)
        requires
            self.wf(),
        ensures
            match r {
                Some(i) => i < self.tables@.len() && Self::key(self.tables@[i as int]) == (level as nat, prefix as nat)
                    && self@.contains_key((level as nat, prefix as nat))
                    && self@[(level as nat, prefix as nat)] == self.tables@[i as int].view(),
                None => !self@.contains_key((level as nat, prefix as nat)),
            },
    {
        let mut i: usize = 0;
        while i < self.tables.len()
            invariant
                self.wf(),
                i <= self.tables@.len(),
                forall|j: int| 0 <= j < i ==> Self::key(#[trigger] self.tables@[j]) != (level as nat, prefix as nat),
            decreases self.tables@.len() - i,
        {
            if self.tables[i].level == level && self.tables[i].prefix == prefix {
                proof {
                    self.lemma_index_of(i as int);
                }
                return Some(i);
            }
            i = i + 1;
        }
        None
    }

    /// Page tables with only an empty top table, in frame `frame`.
    pub fn new(frame: u64) -> (r: PageTable)
        ensures
            r.wf(),
            forall|m: nat| frame_of(r@, m) is None,
    {
        let mut entries: Vec<u64> = Vec::new();
        let mut i: usize = 0;
        while i < ENTRY_COUNT
            invariant
                i <= ENTRY_COUNT,
                entries@.len() == i,
                forall|j: int| 0 <= j < i ==> #[trigger] entries@[j] == 0,
            decreases ENTRY_COUNT - i,
        {
            entries.push(0);
            i = i + 1;
        }
        let mut tables: Vec<Table> = Vec::new();
        tables.push(Table { level: 3, prefix: 0, frame, entries });
        let r = PageTable { tables };
        proof {
            assert(Self::key(r.tables@[0]) == (3nat, 0nat));
            assert(r.has((3nat, 0nat)));
            assert(r.index_of((3nat, 0nat)) == 0);
            assert forall|k: (nat, nat)| #[trigger] r@.contains_key(k) implies k == (3nat, 0nat) by {
                let j = r.index_of(k);
                assert(j == 0);
            }
            assert(r@[(3nat, 0nat)].entries == r.tables@[0].entries@);
            assert(0u64 & PRESENT == 0) by (bit_vector);
            assert forall|m: nat| frame_of(r@, m) is None by {
                if prefix_at(m, 3) == 0 {
                    assert(index_at(m, 3) < 512);
                    assert(entry_at(r@, m, 3) == Some(0u64));
                }
                lemma_walk_stops(r@, m, 3, 3);
            }
        }
        r
    }
}

/// The physical address that virtual address `v` translates to under
/// `tables`, if its page is mapped.
pub open spec fn translation(tables: Map<(nat, nat), TableView>, v: u64) -> Option<u64> {
    match frame_of(tables, vpn(v)) {
        Some(f) => Some((f + v % 4096) as u64),
        None => None,
    }
}

proof fn lemma_address_bound(e: u64)
    ensures
        address_of(e) <= ADDRESS_MASK,
        address_of(e) % 4096 == 0,
{
    assert(e & 0x000f_ffff_ffff_f000u64 <= 0x000f_ffff_ffff_f000u64) by (bit_vector);
    assert((e & 0x000f_ffff_ffff_f000u64) % 4096 == 0) by (bit_vector);
}

impl PageTable {
    /// Walks the four levels for virtual address `v` and returns the
    /// physical address it maps to, or `None` when an entry on the way is
    /// not present.
    pub fn translate(&self, v: u64) -> (r: Option<u64>)
        requires
            self.wf(),
        ensures
            r == translation(self@, v),
    {
        let n: u64 = (v / 4096) % PAGE_COUNT;
        let mut l: usize = 3;
        loop
            invariant
                self.wf(),
                l <= 3,
                n == vpn(v),
                walk(self@, n as nat, 3) == walk(self@, n as nat, l as nat),
            decreases l,
        {
            let prefix = n / span_exec(l + 1);
            let idx = ((n / span_exec(l)) % 512) as usize;
            match self.find(l, prefix) {
                None => {
                    proof {
                        lemma_walk_stops(self@, n as nat, l as nat, l as nat);
                    }
                    return None;
                },
                Some(t) => {
                    let e = self.tables[t].entries[idx];
                    proof {
                        assert(entry_at(self@, n as nat, l as nat) == Some(e));
                    }
                    if e & PRESENT == 0 {
                        return None;
                    }
                    if l == 0 {
                        proof {
                            lemma_address_bound(e);
                        }
                        return Some((e & ADDRESS_MASK) + v % 4096);
                    }
                    l = l - 1;
                },
            }
        }
    }
}

/// 512 zero entries.
fn zero_entries() -> (r: Vec<u64>)
    ensures
        r@.len() == ENTRY_COUNT,
        forall|i: int| 0 <= i < ENTRY_COUNT ==> #[trigger] r@[i] == 0,
{
    let mut entries: Vec<u64> = Vec::new();
    let mut i: usize = 0;
    while i < ENTRY_COUNT
        invariant
            i <= ENTRY_COUNT,
            entries@.len() == i,
            forall|j: int| 0 <= j < i ==> #[trigger] entries@[j] == 0,
        decreases ENTRY_COUNT - i,
    {
        entries.push(0);
        i = i + 1;
    }
    entries
}

impl PageTable {
    /// Replacing the entries of one table keeps every other table.
    proof fn lemma_set_entries(a: &PageTable, b: &PageTable, t: int)
        requires
            a.keys_unique(),
            0 <= t < a.tables@.len(),
            b.tables@.len() == a.tables@.len(),
            forall|j: int| 0 <= j < a.tables@.len() && j != t ==> #[trigger] b.tables@[j] == a.tables@[j],
            Self::key(b.tables@[t]) == Self::key(a.tables@[t]),
            b.tables@[t].frame == a.tables@[t].frame,
        ensures
            b@ == a@.insert(Self::key(a.tables@[t]), b.tables@[t].view()),
            forall|k: (nat, nat)| #[trigger] b.has(k) == a.has(k),
            b.keys_unique(),
    {
        assert forall|k: (nat, nat)| #[trigger] b.has(k) == a.has(k) by {
            if a.has(k) {
                let j = a.index_of(k);
                assert(Self::key(b.tables@[j]) == k);
            }
            if b.has(k) {
                let j = b.index_of(k);
                assert(Self::key(a.tables@[j]) == k);
            }
        }
        assert forall|k: (nat, nat)| a.has(k) implies #[trigger] b.index_of(k) == a.index_of(k) by {
            let j = a.index_of(k);
            a.lemma_index_of(j);
            assert(b.has(k));
            let j2 = b.index_of(k);
            if j2 != j {
                assert(Self::key(b.tables@[j2]) == k);
                assert(Self::key(b.tables@[j]) == k);
                if j2 < j {
                    assert(Self::key(a.tables@[j2]) != Self::key(a.tables@[j]));
                } else {
                    assert(Self::key(a.tables@[j]) != Self::key(a.tables@[j2]));
                }
            }
        }
        a.lemma_index_of(t);
        assert(b@ =~= a@.insert(Self::key(a.tables@[t]), b.tables@[t].view()));
    }

    /// Adding a table under a new key adds it to the view.
    proof fn lemma_push(a: &PageTable, b: &PageTable)
        requires
            a.keys_unique(),
            b.tables@.len() == a.tables@.len() + 1,
            forall|j: int| 0 <= j < a.tables@.len() ==> #[trigger] b.tables@[j] == a.tables@[j],
            !a@.contains_key(Self::key(b.tables@[a.tables@.len() as int])),
        ensures
            b@ == a@.insert(Self::key(b.tables@[a.tables@.len() as int]), b.tables@[a.tables@.len() as int].view()),
            b.keys_unique(),
    {
        let n = a.tables@.len() as int;
        let nk = Self::key(b.tables@[n]);
        assert forall|i: int, j: int| 0 <= i < j < b.tables@.len() implies Self::key(#[trigger] b.tables@[i]) != Self::key(
            #[trigger] b.tables@[j],
        ) by {
            if j == n {
                a.lemma_index_of(i);
            }
        }
        assert forall|k: (nat, nat)| #[trigger] b.has(k) == (a.has(k) || k == nk) by {
            if a.has(k) {
                let j = a.index_of(k);
                assert(b.tables@[j] == a.tables@[j]);
            }
            if b.has(k) && k != nk {
                let j = b.index_of(k);
                assert(b.tables@[j] == a.tables@[j]);
            }
            if k == nk {
                assert(Self::key(b.tables@[n]) == k);
            }
        }
        assert forall|k: (nat, nat)| b.has(k) implies #[trigger] b.tables@[b.index_of(k)].view() == (if k == nk {
            b.tables@[n].view()
        } else {
            a.tables@[a.index_of(k)].view()
        }) by {
            let j2 = b.index_of(k);
            if k == nk {
                if j2 != n {
                    assert(b.tables@[j2] == a.tables@[j2]);
                    a.lemma_index_of(j2);
                }
            } else {
                let j = a.index_of(k);
                a.lemma_index_of(j);
                if j2 != j {
                    assert(j2 != n);
                    assert(b.tables@[j2] == a.tables@[j2]);
                    if j2 < j {
                        assert(Self::key(a.tables@[j2]) != Self::key(a.tables@[j]));
                    } else {
                        assert(Self::key(a.tables@[j]) != Self::key(a.tables@[j2]));
                    }
                }
            }
        }
        assert(b@ =~= a@.insert(nk, b.tables@[n].view()));
    }
}

proof fn lemma_prefix_bound(n: nat, l: nat)
    requires
        1 <= l <= 3,
        n < PAGE_COUNT,
    ensures
        prefix_at(n, (l - 1) as nat) < span((3 - (l - 1)) as nat),
        prefix_at(n, (l - 1) as nat) == prefix_at(n, l) * 512 + index_at(n, l),
{
    lemma_prefix_split(n, (l - 1) as nat);
    let x = prefix_at(n, (l - 1) as nat);
    assert(x == (x / 512) * 512 + x % 512);
    assert(span(4) == span(l) * span((4 - l) as nat));
    vstd::arithmetic::div_mod::lemma_multiply_divide_lt(n as int, span(l) as int, span((4 - l) as nat) as int);
}

impl PageTable {
    /// Makes sure the level-`l` entry on page `n`'s way is present, adding
    /// an empty table below it from `frame_allocator` if it is not.
    #[verifier::rlimit(100)]
#[verifier::spinoff_prover]
    fn ensure_next_table(&mut self, n: u64, l: usize, frame_allocator: &mut BuddyAllocator) -> (r: Result<(), PagingError>)
        requires
            old(self).wf(),
            old(frame_allocator).wf(),
            1 <= l <= 3,
            n < PAGE_COUNT,
            old(self)@.contains_key((l as nat, prefix_at(n as nat, l as nat))),
        ensures
            final(self).wf(),
            final(frame_allocator).wf(),
            forall|m: nat| #[trigger] frame_of(final(self)@, m) == frame_of(old(self)@, m),
            forall|j: nat| l < j <= 3 ==> #[trigger] entry_at(final(self)@, n as nat, j) == entry_at(old(self)@, n as nat, j),
            r is Ok ==> entry_at(final(self)@, n as nat, l as nat) is Some && is_present(
                entry_at(final(self)@, n as nat, l as nat).unwrap(),
            ) && final(self)@.contains_key(((l - 1) as nat, prefix_at(n as nat, (l - 1) as nat))),
            r is Err ==> forall|g: nat| !(#[trigger] final(frame_allocator)@.free.contains_key(g)),
    {
        let prefix = n / span_exec(l + 1);
        let idx = ((n / span_exec(l)) % 512) as usize;
        let t = self.find(l, prefix).unwrap();
        let e = self.tables[t].entries[idx];
        let ghost nn = n as nat;
        let ghost q = prefix_at(nn, (l - 1) as nat);
        proof {
            lemma_prefix_bound(nn, l as nat);
            lemma_prefix_split(nn, (l - 1) as nat);
            assert(entry_at(self@, nn, l as nat) == Some(e));
        }
        if e & PRESENT != 0 {
            proof {
                assert(self@[(l as nat, prefix as nat)].entries[idx as int] == e);
                assert(self@.contains_key(((l - 1) as nat, (prefix * 512 + idx) as nat)));
            }
            return Ok(());
        }
        proof {
            crate::buddy::lemma_pow2_pos(0);
            assert(crate::buddy::is_order_for(FRAME_SIZE as nat, 0));
            if self@.contains_key(((l - 1) as nat, q)) {
                assert(is_present(self@[(l as nat, q / 512)].entries[(q % 512) as int]));
            }
        }
        match frame_allocator.allocate(FRAME_SIZE) {
            None => {
                proof {
                    assert forall|g: nat| !(#[trigger] frame_allocator@.free.contains_key(g)) by {
                        if frame_allocator@.free.contains_key(g) {
                            assert(frame_allocator@.free[g] >= 0);
                        }
                    }
                }
                Err(PagingError::OutOfMemory)
            },
            Some(frame) => {
                let ghost a = *self;
                let ghost t1 = self@;
                let ne = ((frame as u64) & ADDRESS_MASK) | PRESENT | WRITABLE;
                proof {
                    let fr = frame as u64;
                    assert(ne & 1u64 != 0) by (bit_vector)
                        requires
                            ne == (fr & 0x000f_ffff_ffff_f000u64) | 1u64 | 2u64,
                    ;
                }
                self.tables[t].entries.set(idx, ne);
                let ghost b = *self;
                proof {
                    Self::lemma_set_entries(&a, &b, t as int);
                }
                let entries = zero_entries();
                self.tables.push(Table { level: l - 1, prefix: n / span_exec(l), frame: frame as u64, entries });
                proof {
                    let key = (l as nat, prefix as nat);
                    let ck = ((l - 1) as nat, q);
                    assert(!b@.contains_key(ck));
                    let c = *self;
                    Self::lemma_push(&b, &c);
                    let nt = self.tables@[a.tables@.len() as int];
                    assert(Self::key(nt) == ck);
                    let t2 = self@;
                    let tv = t1[key];
                    assert(t2 == t1.insert(key, TableView { frame: tv.frame, entries: tv.entries.update(idx as int, ne) }).insert(ck, nt.view()));
                    assert(key != ck);
                    // table shapes
                    assert forall|i: int| 0 <= i < self.tables@.len() implies (#[trigger] self.tables@[i]).entries@.len() == ENTRY_COUNT
                        && self.tables@[i].level <= 3 && (self.tables@[i].level == 3 ==> self.tables@[i].prefix == 0)
                        && self.tables@[i].prefix < span((3 - self.tables@[i].level) as nat) by {
                        if i < a.tables@.len() && i != t {
                            assert(self.tables@[i] == a.tables@[i]);
                        } else if i == t {
                            assert(self.tables@[i].level == a.tables@[i].level);
                        }
                    }
                    lemma_new_table(t1, t2, l as nat, prefix as nat, idx as nat, e, ne, nt.view());
                    assert(self.wf());
                    assert forall|j: nat| l < j <= 3 implies #[trigger] entry_at(t2, nn, j) == entry_at(t1, nn, j) by {}
                    assert(entry_at(t2, nn, l as nat) == Some(ne));
                }
                Ok(())
            },
        }
    }
}

impl PageTable {
    /// Maps the page of virtual address `v` to the frame at `phys` with
    /// `flags` and `PRESENT`, adding missing tables from `frame_allocator`.
    /// Fails, with no translation changed, only when the allocator has no
    /// frame left.
#[verifier::spinoff_prover]
    pub fn map_page(&mut self, v: u64, phys: u64, flags: u64, frame_allocator: &mut BuddyAllocator) -> (r: Result<(), PagingError>)
        requires
            old(self).wf(),
            old(frame_allocator).wf(),
            phys & !ADDRESS_MASK == 0,
            flags & ADDRESS_MASK == 0,
        ensures
            final(self).wf(),
            final(frame_allocator).wf(),
            r is Ok ==> forall|m: nat| #[trigger] frame_of(final(self)@, m) == if m == vpn(v) {
                Some(phys)
            } else {
                frame_of(old(self)@, m)
            },
            r is Ok ==> walk(final(self)@, vpn(v), 3) == Some(phys | flags | PRESENT),
            r is Err ==> forall|m: nat| #[trigger] frame_of(final(self)@, m) == frame_of(old(self)@, m),
            r is Err ==> forall|g: nat| !(#[trigger] final(frame_allocator)@.free.contains_key(g)),
    {
        let n: u64 = (v / 4096) % PAGE_COUNT;
        let mut l: usize = 3;
        proof {
            assert(prefix_at(n as nat, 3) == 0);
        }
        while l > 0
            invariant
                self.wf(),
                frame_allocator.wf(),
                l <= 3,
                n == vpn(v),
                n < PAGE_COUNT,
                forall|m: nat| #[trigger] frame_of(self@, m) == frame_of(old(self)@, m),
                self@.contains_key((l as nat, prefix_at(n as nat, l as nat))),
                forall|j: nat| l < j <= 3 ==> #[trigger] entry_at(self@, n as nat, j) is Some && is_present(
                    entry_at(self@, n as nat, j).unwrap(),
                ),
            decreases l,
        {
            match self.ensure_next_table(n, l, frame_allocator) {
                Err(err) => {
                    return Err(err);
                },
                Ok(()) => {},
            }
            l = l - 1;
        }
        let t = self.find(0, n / 512).unwrap();
        let idx = (n % 512) as usize;
        let leaf = phys | flags | PRESENT;
        let ghost a = *self;
        let ghost t1 = self@;
        self.tables[t].entries.set(idx, leaf);
        proof {
            let b = *self;
            Self::lemma_set_entries(&a, &b, t as int);
            assert(self@ == with_leaf(t1, n as nat, leaf));
            lemma_leaf_links(t1, (0, prefix_at(n as nat, 0)), self@[(0, prefix_at(n as nat, 0))]);
            lemma_leaf_frames(t1, n as nat, leaf);
            assert forall|i: int| 0 <= i < self.tables@.len() implies (#[trigger] self.tables@[i]).entries@.len() == ENTRY_COUNT
                && self.tables@[i].level <= 3 && (self.tables@[i].level == 3 ==> self.tables@[i].prefix == 0)
                && self.tables@[i].prefix < span((3 - self.tables@[i].level) as nat) by {
                if i != t {
                    assert(self.tables@[i] == a.tables@[i]);
                }
            }
            lemma_leaf_entry(phys, flags);
            lemma_walk_reaches(self@, n as nat, leaf);
        }
        Ok(())
    }

    /// Removes the mapping of the page of virtual address `v`, if it has one.
    pub fn unmap_page(&mut self, v: u64)
        requires
            old(self).wf(),
        ensures
            final(self).wf(),
            forall|m: nat| #[trigger] frame_of(final(self)@, m) == if m == vpn(v) {
                None
            } else {
                frame_of(old(self)@, m)
            },
            frame_of(old(self)@, vpn(v)) is Some ==> forall|l: nat|
                l < 3 && #[trigger] final(self)@.contains_key((l, prefix_at(vpn(v), l))) ==> has_present(
                    final(self)@,
                    (l, prefix_at(vpn(v), l)),
                ),
    {
        let n: u64 = (v / 4096) % PAGE_COUNT;
        let mut l: usize = 3;
        while l > 0
            invariant
                self.wf(),
                *self == *old(self),
                l <= 3,
                n == vpn(v),
                walk(self@, n as nat, 3) == walk(self@, n as nat, l as nat),
            decreases l,
        {
            let prefix = n / span_exec(l + 1);
            let idx = ((n / span_exec(l)) % 512) as usize;
            match self.find(l, prefix) {
                None => {
                    proof {
                        lemma_walk_stops(self@, n as nat, 3, l as nat);
                    }
                    return;
                },
                Some(t) => {
                    let e = self.tables[t].entries[idx];
                    proof {
                        assert(entry_at(self@, n as nat, l as nat) == Some(e));
                    }
                    if e & PRESENT == 0 {
                        proof {
                            lemma_walk_stops(self@, n as nat, 3, l as nat);
                        }
                        return;
                    }
                },
            }
            l = l - 1;
        }
        match self.find(0, n / 512) {
            None => {
                proof {
                    lemma_walk_stops(self@, n as nat, 3, 0);
                }
            },
            Some(t) => {
                let idx = (n % 512) as usize;
                let ghost a = *self;
                let ghost t1 = self@;
                self.tables[t].entries.set(idx, 0);
                proof {
                    let b = *self;
                    Self::lemma_set_entries(&a, &b, t as int);
                    assert(n as nat / 1 == n as nat);
                    assert(prefix_at(n as nat, 0) == n / 512);
                    assert(index_at(n as nat, 0) == n % 512);
                    assert(self@ == with_leaf(t1, n as nat, 0));
                    lemma_leaf_links(t1, (0, prefix_at(n as nat, 0)), self@[(0, prefix_at(n as nat, 0))]);
                    lemma_leaf_frames(t1, n as nat, 0);
                    assert forall|i: int| 0 <= i < self.tables@.len() implies (#[trigger] self.tables@[i]).entries@.len() == ENTRY_COUNT
                        && self.tables@[i].level <= 3 && (self.tables@[i].level == 3 ==> self.tables@[i].prefix == 0)
                        && self.tables@[i].prefix < span((3 - self.tables@[i].level) as nat) by {
                        if i != t {
                            assert(self.tables@[i] == a.tables@[i]);
                        }
                    }
                    assert(0u64 & 1u64 == 0) by (bit_vector);
                    lemma_walk_stops(self@, n as nat, 3, 0);
                }
                let ghost s1 = self@;
                let r0 = self.release_table(n, 0);
                let ghost s2 = self@;
                let mut r1 = false;
                if r0 {
                    r1 = self.release_table(n, 1);
                }
                let ghost s3 = self@;
                let mut r2 = false;
                if r0 && r1 {
                    r2 = self.release_table(n, 2);
                }
                proof {
                    if frame_of(t1, n as nat) is Some {
                        lemma_walk_some(t1, n as nat, 3);
                        assert forall|j: nat| 1 <= j <= 3 implies #[trigger] entry_at(s1, n as nat, j) is Some
                            && is_present(entry_at(s1, n as nat, j).unwrap()) by {
                            assert(entry_at(s1, n as nat, j) == entry_at(t1, n as nat, j));
                        }
                        lemma_path_cleaned(s1, s2, s3, self@, n as nat, r0, r1, r2);
                    }
                }
            },
        }
    }
}

/// Map then unmap: once the page of `v` is mapped to `phys`, `v`
/// translates to `phys` plus its offset in the page; once it is unmapped, to
/// nothing; and every other page keeps the translation it had before both.
pub proof fn lemma_map_unmap(
    t0: Map<(nat, nat), TableView>,
    t1: Map<(nat, nat), TableView>,
    t2: Map<(nat, nat), TableView>,
    v: u64,
    phys: u64,
)
    requires
        phys <= ADDRESS_MASK,
        forall|m: nat| #[trigger] frame_of(t1, m) == if m == vpn(v) {
            Some(phys)
        } else {
            frame_of(t0, m)
        },
        forall|m: nat| #[trigger] frame_of(t2, m) == if m == vpn(v) {
            None
        } else {
            frame_of(t1, m)
        },
    ensures
        translation(t1, v) == Some((phys + v % 4096) as u64),
        translation(t2, v) is None,
        forall|m: nat| m != vpn(v) ==> #[trigger] frame_of(t2, m) == frame_of(t0, m),
{
    assert(frame_of(t1, vpn(v)) == Some(phys));
    assert(frame_of(t2, vpn(v)) is None);
}

impl PageTable {
    /// Removing a table removes its key and keeps every other lookup.
    #[verifier::spinoff_prover]
    proof fn lemma_remove_table(a: &PageTable, b: &PageTable, t: int)
        requires
            a.keys_unique(),
            0 <= t < a.tables@.len(),
            b.tables@ == a.tables@.remove(t),
        ensures
            b.keys_unique(),
            b@ == a@.remove(Self::key(a.tables@[t])),
    {
        let k0 = Self::key(a.tables@[t]);
        assert forall|i: int, j: int| 0 <= i < j < b.tables@.len() implies Self::key(#[trigger] b.tables@[i]) != Self::key(
            #[trigger] b.tables@[j],
        ) by {
            let ai = if i < t { i } else { i + 1 };
            let aj = if j < t { j } else { j + 1 };
            assert(b.tables@[i] == a.tables@[ai] && b.tables@[j] == a.tables@[aj]);
        }
        assert forall|k: (nat, nat)| #[trigger] b.has(k) == (a.has(k) && k != k0) by {
            if a.has(k) && k != k0 {
                let j = a.index_of(k);
                a.lemma_index_of(j);
                let bj = if j < t { j } else { j - 1 };
                assert(j != t);
                assert(b.tables@[bj] == a.tables@[j]);
            }
            if b.has(k) {
                let j = b.index_of(k);
                let aj = if j < t { j } else { j + 1 };
                assert(b.tables@[j] == a.tables@[aj]);
                a.lemma_index_of(t);
                a.lemma_index_of(aj);
            }
        }
        assert forall|k: (nat, nat)| b.has(k) implies #[trigger] b.tables@[b.index_of(k)].view() == a.tables@[a.index_of(k)].view() by {
            let j = b.index_of(k);
            b.lemma_index_of(j);
            let aj = if j < t { j } else { j + 1 };
            assert(b.tables@[j] == a.tables@[aj]);
            a.lemma_index_of(aj);
        }
        assert(b@ =~= a@.remove(k0));
    }

    /// Drops the level-`l` table on page `n`'s way when none of its entries
    /// is present, clearing the parent entry that led to it, and says
    /// whether it did.
    #[verifier::spinoff_prover]
    fn release_table(&mut self, n: u64, l: usize) -> (r: bool)
        requires
            old(self).wf(),
            l <= 2,
            n < PAGE_COUNT,
        ensures
            final(self).wf(),
            forall|m: nat| #[trigger] frame_of(final(self)@, m) == frame_of(old(self)@, m),
            released(old(self)@, final(self)@, n as nat, l as nat, r),
    {
        let p = n / span_exec(l + 1);
        let t = match self.find(l, p) {
            None => {
                return false;
            },
            Some(t) => t,
        };
        let mut i: usize = 0;
        while i < ENTRY_COUNT && self.tables[t].entries[i] & PRESENT == 0
            invariant
                self.wf(),
                t < self.tables@.len(),
                self@[(l as nat, p as nat)] == self.tables@[t as int].view(),
                self.tables@[t as int].entries@.len() == ENTRY_COUNT,
                i <= ENTRY_COUNT,
                forall|j: int| 0 <= j < i ==> !is_present(#[trigger] self.tables@[t as int].entries@[j]),
            decreases ENTRY_COUNT - i,
        {
            i = i + 1;
        }
        if i < ENTRY_COUNT {
            proof {
                assert(is_present(self@[(l as nat, p as nat)].entries[i as int]));
            }
            return false;
        }
        let ghost nn = n as nat;
        proof {
            lemma_prefix_split(nn, l as nat);
            lemma_span_step((l + 1) as nat);
            assert(p as nat == prefix_at(nn, l as nat));
            assert(self@.contains_key(((l + 1) as nat, (p / 512) as nat)));
        }
        let pp = p / 512;
        let pi = (p % 512) as usize;
        let pt0 = self.find(l + 1, pp).unwrap();
        let ghost t1 = self@;
        let ghost a = *self;
        self.tables.remove(t);
        let ghost b = *self;
        proof {
            Self::lemma_remove_table(&a, &b, t as int);
        }
        let pt = if pt0 > t { pt0 - 1 } else { pt0 };
        proof {
            assert(pt0 != t);
            assert(self.tables@[pt as int] == a.tables@[pt0 as int]);
        }
        self.tables[pt].entries.set(pi, 0);
        proof {
            let c = *self;
            Self::lemma_set_entries(&b, &c, pt as int);
            let key = (l as nat, p as nat);
            assert(!has_present(t1, key));
            lemma_drop_table(t1, self@, l as nat, p as nat);
            assert forall|j: int| 0 <= j < self.tables@.len() implies (#[trigger] self.tables@[j]).entries@.len() == ENTRY_COUNT
                && self.tables@[j].level <= 3 && (self.tables@[j].level == 3 ==> self.tables@[j].prefix == 0)
                && self.tables@[j].prefix < span((3 - self.tables@[j].level) as nat) by {
                let aj = if j < t { j } else { j + 1 };
                assert(b.tables@[j] == a.tables@[aj]);
                if j != pt {
                    assert(self.tables@[j] == b.tables@[j]);
                }
            }
            assert(self@.contains_key((3, 0)));
        }
        true
    }
}

impl PageTable {
    /// Whether the level-`level` table with key `prefix` exists.
    pub fn has_table(&self, level: usize, prefix: u64) -> (r: bool)
        requires
            self.wf(),
        ensures
            r == self@.contains_key((level as nat, prefix as nat)),
    {
        self.find(level, prefix).is_some()
    }

    /// Maps the page at physical address `frame_address` to itself, as
    /// `map_page` does.
    pub fn map_page_1_to_1(&mut self, frame_address: u64, flags: u64, frame_allocator: &mut BuddyAllocator) -> (r: Result<(), PagingError>)
        requires
            old(self).wf(),
            old(frame_allocator).wf(),
            frame_address & !ADDRESS_MASK == 0,
            flags & ADDRESS_MASK == 0,
        ensures
            final(self).wf(),
            final(frame_allocator).wf(),
            r is Ok ==> forall|m: nat| #[trigger] frame_of(final(self)@, m) == if m == vpn(frame_address) {
                Some(frame_address)
            } else {
                frame_of(old(self)@, m)
            },
            r is Err ==> forall|m: nat| #[trigger] frame_of(final(self)@, m) == frame_of(old(self)@, m),
            r is Err ==> forall|g: nat| !(#[trigger] final(frame_allocator)@.free.contains_key(g)),
    {
        self.map_page(frame_address, frame_address, flags, frame_allocator)
    }
}

} // verus!
