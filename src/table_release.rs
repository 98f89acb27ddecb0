//! Dropping page tables that no longer hold a present entry.
use crate::paging::{
    entry_at, frame_of, index_at, is_present, links_ok, prefix_at, walk, TableView,
    lemma_prefix_split, lemma_walk_same, lemma_walk_stops,
};
use vstd::prelude::*;

verus! {

/// Whether table `k` of `t` has a present entry.
pub open spec fn has_present(t: Map<(nat, nat), TableView>, k: (nat, nat)) -> bool {
    exists|i: int| 0 <= i < 512 && #[trigger] is_present(t[k].entries[i])
}

/// Dropping a table with no present entry and clearing the parent entry
/// that led to it keeps the links and changes no translation.
pub proof fn lemma_drop_table(t1: Map<(nat, nat), TableView>, t2: Map<(nat, nat), TableView>, l: nat, p: nat)
    requires
        l <= 2,
        links_ok(t1),
        t1.contains_key((l, p)),
        !has_present(t1, (l, p)),
        t1.contains_key((l + 1, p / 512)),
        t1[(l + 1, p / 512)].entries.len() == 512,
        t2 == t1.remove((l, p)).insert(
            (l + 1, p / 512),
            TableView {
                frame: t1[(l + 1, p / 512)].frame,
                entries: t1[(l + 1, p / 512)].entries.update((p % 512) as int, 0),
            },
        ),
    ensures
        links_ok(t2),
        forall|m: nat| #[trigger] frame_of(t2, m) == frame_of(t1, m),
{
    let key = (l, p);
    let pk = (l + 1, p / 512);
    let i = p % 512;
    assert(0u64 & 1u64 == 0) by (bit_vector);
    assert(p == (p / 512) * 512 + p % 512) by {
        vstd::arithmetic::div_mod::lemma_fundamental_div_mod(p as int, 512);
    }
    assert forall|k: (nat, nat)| #[trigger] t2.contains_key(k) && k.0 < 3 implies t2.contains_key((k.0 + 1, k.1 / 512))
        && is_present(t2[(k.0 + 1, k.1 / 512)].entries[(k.1 % 512) as int]) by {
        assert(k != key);
        assert(t1.contains_key(k));
        let kp = (k.0 + 1, k.1 / 512);
        assert(t1.contains_key(kp) && is_present(t1[kp].entries[(k.1 % 512) as int]));
        if kp == key {
            assert(0 <= (k.1 % 512) < 512);
            assert(!has_present(t1, key));
        }
        if kp == pk && k.1 % 512 == i {
            assert(k.1 == (k.1 / 512) * 512 + k.1 % 512) by {
                vstd::arithmetic::div_mod::lemma_fundamental_div_mod(k.1 as int, 512);
            }
        }
    }
    assert forall|k: (nat, nat), j: int|
        #[trigger] t2.contains_key(k) && k.0 > 0 && 0 <= j < 512 && is_present(#[trigger] t2[k].entries[j]) implies
        t2.contains_key(((k.0 - 1) as nat, (k.1 * 512 + j) as nat)) by {
        assert(k != key);
        assert(t1.contains_key(k));
        if k == pk && j == i {
        } else {
            assert(t2[k].entries[j] == t1[k].entries[j]);
            let ck = ((k.0 - 1) as nat, (k.1 * 512 + j) as nat);
            assert(t1.contains_key(ck));
            if ck == key {
                assert(k.1 * 512 + j == p);
                vstd::arithmetic::div_mod::lemma_div_multiples_vanish_fancy(k.1 as int, j as int, 512);
                vstd::arithmetic::div_mod::lemma_mod_multiples_vanish(k.1 as int, j as int, 512);
            }
        }
    }
    assert forall|m: nat| #[trigger] frame_of(t2, m) == frame_of(t1, m) by {
        lemma_prefix_split(m, l);
        let pm = prefix_at(m, l);
        assert(pm == (pm / 512) * 512 + pm % 512) by {
            vstd::arithmetic::div_mod::lemma_fundamental_div_mod(pm as int, 512);
        }
        if pm == p {
            assert(index_at(m, l) < 512);
            assert(!is_present(t1[key].entries[index_at(m, l) as int]));
            lemma_walk_stops(t1, m, 3, l);
            assert(entry_at(t2, m, l + 1) == Some(0u64));
            lemma_walk_stops(t2, m, 3, l + 1);
        } else {
            assert forall|j: nat| j <= 3 implies #[trigger] entry_at(t1, m, j) == entry_at(t2, m, j) by {
                if j == l + 1 && prefix_at(m, j) == p / 512 {
                    assert(index_at(m, j) != i);
                }
            }
            lemma_walk_same(t1, t2, m, 3);
        }
    }
}

/// A walk that gives an entry passes only present entries.
pub proof fn lemma_walk_some(t: Map<(nat, nat), TableView>, n: nat, l: nat)
    requires
        walk(t, n, l) is Some,
    ensures
        forall|j: nat| j <= l ==> #[trigger] entry_at(t, n, j) is Some && is_present(entry_at(t, n, j).unwrap()),
    decreases l,
{
    if l > 0 {
        lemma_walk_some(t, n, (l - 1) as nat);
    }
}

/// Whether `t2` is `t1` after looking at the level-`l` table on page `n`'s
/// way: when it exists and holds no present entry, it is gone and the parent
/// entry that led to it is cleared (`r`); otherwise nothing changed.
pub open spec fn released(t1: Map<(nat, nat), TableView>, t2: Map<(nat, nat), TableView>, n: nat, l: nat, r: bool) -> bool {
    let k = (l, prefix_at(n, l));
    let pk = (l + 1, prefix_at(n, l + 1));
    if t1.contains_key(k) && !has_present(t1, k) {
        r && t2 == t1.remove(k).insert(
            pk,
            TableView { frame: t1[pk].frame, entries: t1[pk].entries.update(index_at(n, l + 1) as int, 0) },
        )
    } else {
        !r && t2 == t1
    }
}

/// After the last-level entry of a mapped page is cleared and the tables on
/// its way are released from the bottom up while they come out empty, no
/// table left on that way is empty.
pub proof fn lemma_path_cleaned(
    s1: Map<(nat, nat), TableView>,
    s2: Map<(nat, nat), TableView>,
    s3: Map<(nat, nat), TableView>,
    s4: Map<(nat, nat), TableView>,
    n: nat,
    r0: bool,
    r1: bool,
    r2: bool,
)
    requires
        forall|j: nat| 1 <= j <= 3 ==> #[trigger] entry_at(s1, n, j) is Some && is_present(entry_at(s1, n, j).unwrap()),
        released(s1, s2, n, 0, r0),
        r0 ==> released(s2, s3, n, 1, r1),
        !r0 ==> s3 == s2 && !r1,
        r0 && r1 ==> released(s3, s4, n, 2, r2),
        !(r0 && r1) ==> s4 == s3,
    ensures
        forall|l: nat| l < 3 && #[trigger] s4.contains_key((l, prefix_at(n, l))) ==> has_present(s4, (l, prefix_at(n, l))),
{
    let k0 = (0nat, prefix_at(n, 0));
    let k1 = (1nat, prefix_at(n, 1));
    let k2 = (2nat, prefix_at(n, 2));
    assert(index_at(n, 1) < 512 && index_at(n, 2) < 512 && index_at(n, 3) < 512);
    assert(entry_at(s1, n, 1) is Some);
    assert(entry_at(s1, n, 2) is Some);
    assert(is_present(s1[k1].entries[index_at(n, 1) as int]));
    assert(is_present(s1[k2].entries[index_at(n, 2) as int]));
    assert(has_present(s1, k1));
    assert(has_present(s1, k2));
    if r0 {
        assert(s2[k2] == s1[k2]);
        assert(has_present(s2, k2));
        assert(!s2.contains_key(k0));
        if r1 {
            assert(!s3.contains_key(k0));
            assert(!s3.contains_key(k1));
        } else {
            assert(has_present(s3, k1));
            assert(has_present(s3, k2));
        }
    }
    assert forall|l: nat| l < 3 && #[trigger] s4.contains_key((l, prefix_at(n, l))) implies has_present(s4, (l, prefix_at(n, l))) by {
        if l == 0 {
        } else if l == 1 {
        } else {
        }
    }
}

} // verus!
