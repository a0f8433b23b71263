//! The probing table: a flat slot array with open addressing and quadratic
//! probing.
//!
//! Each slot is `Empty` (never used, ends an unsuccessful search),
//! `Occupied` (a live entry with its cached digest), or `Tombstone`
//! (previously occupied; a search walks past it, so probe chains of other
//! keys stay intact).
//!
//! The table's view is the mathematical map from each live key to its value.

use vstd::prelude::*;

use crate::hashing::fnv1a;
use crate::hashing::hash_of;
use vstd::arithmetic::div_mod::lemma_small_mod;

verus! {

/// One array cell of the table.
pub enum Slot<V> {
    /// Never occupied; terminates an unsuccessful probe search.
    Empty,
    /// A live entry.  `cached` is the digest of `key`, kept so that growth
    /// and comparisons need not hash the key again.
    Occupied { key: Vec<u8>, value: V, cached: u64 },
    /// Previously occupied, now removed.  Does not terminate a probe search.
    Tombstone,
}

/// The key held by an occupied slot (the empty sequence otherwise).
pub open spec fn slot_key<V>(s: Slot<V>) -> Seq<u8> {
    match s {
        Slot::Occupied { key, .. } => key@,
        _ => Seq::empty(),
    }
}

/// The value held by an occupied slot.
pub open spec fn slot_val<V>(s: Slot<V>) -> V
    recommends
        s is Occupied,
{
    match s {
        Slot::Occupied { value, .. } => value,
        _ => arbitrary(),
    }
}

/// The i-th index of the probe sequence for digest `h` in a table of `n`
/// slots: `(h + i*i) mod n`.
pub open spec fn probe(h: u64, i: nat, n: nat) -> nat
    recommends
        n > 0,
{
    (h as nat + i * i) % n
}

/// No index among the first `i` probes for `h` holds an `Empty` slot.
pub open spec fn chain_no_empty<V>(s: Seq<Slot<V>>, h: u64, i: nat) -> bool {
    forall|i2: nat| #![trigger probe(h, i2, s.len())]
        i2 < i ==> !(s[probe(h, i2, s.len()) as int] is Empty)
}

/// The occupied slot `j` is reached by its own key's probe sequence before
/// that sequence reaches any `Empty` slot.
pub open spec fn chain_reaches<V>(s: Seq<Slot<V>>, j: int) -> bool
    recommends
        0 <= j < s.len(),
        s[j] is Occupied,
{
    exists|i: nat| #![trigger probe(hash_of(slot_key(s[j])), i, s.len())]
        i < s.len()
        && probe(hash_of(slot_key(s[j])), i, s.len()) == j
        && chain_no_empty(s, hash_of(slot_key(s[j])), i)
}

/// Every probe index for `k`'s digest holds a live entry with another key:
/// the pathological state in which the probe sequence can neither find `k`
/// nor a slot to put it in.
pub open spec fn chain_blocked<V>(s: Seq<Slot<V>>, k: Seq<u8>) -> bool {
    forall|i: nat| #![trigger probe(hash_of(k), i, s.len())]
        i < s.len() ==> {
            s[probe(hash_of(k), i, s.len()) as int] is Occupied
            && slot_key(s[probe(hash_of(k), i, s.len()) as int]) != k
        }
}

/// Every occupied slot caches the digest of its own key.
pub open spec fn hashes_ok<V>(s: Seq<Slot<V>>) -> bool {
    forall|j: int| #![trigger s[j]]
        0 <= j < s.len() && s[j] is Occupied ==> s[j]->cached == hash_of(slot_key(s[j]))
}

/// No key appears in more than one occupied slot.
pub open spec fn keys_unique<V>(s: Seq<Slot<V>>) -> bool {
    forall|j1: int, j2: int| #![trigger s[j1], s[j2]]
        0 <= j1 < s.len() && 0 <= j2 < s.len() && j1 != j2
        && s[j1] is Occupied && s[j2] is Occupied
        ==> slot_key(s[j1]) != slot_key(s[j2])
}

/// Every occupied slot is reachable along its key's probe chain.
pub open spec fn chains_ok<V>(s: Seq<Slot<V>>) -> bool {
    forall|j: int| #![trigger s[j]]
        0 <= j < s.len() && s[j] is Occupied ==> chain_reaches(s, j)
}

/// The slot array's internal invariant.
pub open spec fn slots_wf<V>(s: Seq<Slot<V>>) -> bool {
    hashes_ok(s) && keys_unique(s) && chains_ok(s)
}

/// Some occupied slot holds key `k`.
pub open spec fn has_key<V>(s: Seq<Slot<V>>, k: Seq<u8>) -> bool {
    exists|j: int| #![trigger s[j]] 0 <= j < s.len() && s[j] is Occupied && slot_key(s[j]) == k
}

/// The index of the occupied slot holding `k` (unique when `keys_unique`).
pub open spec fn key_index<V>(s: Seq<Slot<V>>, k: Seq<u8>) -> int {
    choose|j: int| #![trigger s[j]] 0 <= j < s.len() && s[j] is Occupied && slot_key(s[j]) == k
}

/// The map from each live key to its value.
pub open spec fn as_map<V>(s: Seq<Slot<V>>) -> Map<Seq<u8>, V> {
    Map::new(|k: Seq<u8>| has_key(s, k), |k: Seq<u8>| slot_val(s[key_index(s, k)]))
}

/// The number of occupied slots.
pub open spec fn occ_count<V>(s: Seq<Slot<V>>) -> nat
    decreases s.len(),
{
    if s.len() == 0 {
        0
    } else {
        occ_count(s.drop_last()) + if s.last() is Occupied { 1nat } else { 0nat }
    }
}

proof fn lemma_occ_count_le<V>(s: Seq<Slot<V>>)
    ensures
        occ_count(s) <= s.len(),
    decreases s.len(),
{
    if s.len() > 0 {
        lemma_occ_count_le(s.drop_last());
    }
}

proof fn lemma_occ_count_lt<V>(s: Seq<Slot<V>>, j: int)
    requires
        0 <= j < s.len(),
        !(s[j] is Occupied),
    ensures
        occ_count(s) < s.len(),
    decreases s.len(),
{
    if j == s.len() - 1 {
        lemma_occ_count_le(s.drop_last());
    } else {
        lemma_occ_count_lt(s.drop_last(), j);
    }
}

proof fn lemma_occ_count_pos<V>(s: Seq<Slot<V>>, j: int)
    requires
        0 <= j < s.len(),
        s[j] is Occupied,
    ensures
        occ_count(s) >= 1,
    decreases s.len(),
{
    if j < s.len() - 1 {
        lemma_occ_count_pos(s.drop_last(), j);
    }
}

proof fn lemma_occ_count_update<V>(s: Seq<Slot<V>>, j: int, sl: Slot<V>)
    requires
        0 <= j < s.len(),
    ensures
        occ_count(s.update(j, sl)) as int == occ_count(s) as int
            + (if sl is Occupied { 1int } else { 0int })
            - (if s[j] is Occupied { 1int } else { 0int }),
    decreases s.len(),
{
    let s2 = s.update(j, sl);
    if j == s.len() - 1 {
        assert(s2.drop_last() =~= s.drop_last());
    } else {
        lemma_occ_count_update(s.drop_last(), j, sl);
        assert(s2.drop_last() =~= s.drop_last().update(j, sl));
    }
}

proof fn lemma_no_occupied<V>(s: Seq<Slot<V>>)
    requires
        forall|j: int| #![trigger s[j]] 0 <= j < s.len() ==> !(s[j] is Occupied),
    ensures
        occ_count(s) == 0,
        as_map(s) == Map::<Seq<u8>, V>::empty(),
    decreases s.len(),
{
    if s.len() > 0 {
        lemma_no_occupied(s.drop_last());
    }
    assert(as_map(s) =~= Map::<Seq<u8>, V>::empty());
}

/// With unique keys, a slot seen to hold `k` determines the map's entry.
proof fn lemma_found_value<V>(s: Seq<Slot<V>>, k: Seq<u8>, j: int)
    requires
        keys_unique(s),
        0 <= j < s.len(),
        s[j] is Occupied,
        slot_key(s[j]) == k,
    ensures
        has_key(s, k),
        key_index(s, k) == j,
        as_map(s).dom().contains(k),
        as_map(s)[k] == slot_val(s[j]),
{
    assert(has_key(s, k));
    let j2 = key_index::<V>(s, k);
    assert(0 <= j2 < s.len() && s[j2] is Occupied && slot_key(s[j2]) == k);
    assert(j2 == j);
}

/// A search that walked a whole probe chain without meeting `k`, and either
/// hit an `Empty` slot or ran through every probe index, shows `k` is absent.
proof fn lemma_absent<V>(s: Seq<Slot<V>>, k: Seq<u8>, i: nat)
    requires
        keys_unique(s),
        chains_ok(s),
        i <= s.len(),
        chain_no_empty(s, hash_of(k), i),
        forall|i2: nat| #![trigger probe(hash_of(k), i2, s.len())]
            i2 < i ==> !(s[probe(hash_of(k), i2, s.len()) as int] is Occupied
                && slot_key(s[probe(hash_of(k), i2, s.len()) as int]) == k),
        i < s.len() ==> s[probe(hash_of(k), i, s.len()) as int] is Empty,
    ensures
        !has_key(s, k),
        !as_map(s).dom().contains(k),
{
    if has_key(s, k) {
        let j = choose|j: int| #![trigger s[j]]
            0 <= j < s.len() && s[j] is Occupied && slot_key(s[j]) == k;
        assert(chain_reaches(s, j));
        let iw = choose|iw: nat| #![trigger probe(hash_of(slot_key(s[j])), iw, s.len())]
            iw < s.len()
            && probe(hash_of(slot_key(s[j])), iw, s.len()) == j
            && chain_no_empty(s, hash_of(slot_key(s[j])), iw);
        if iw < i {
            assert(!(s[probe(hash_of(k), iw, s.len()) as int] is Occupied
                && slot_key(s[probe(hash_of(k), iw, s.len()) as int]) == k));
            assert(false);
        } else {
            assert(i < s.len());
            assert(!(s[probe(hash_of(k), i, s.len()) as int] is Empty)) by {
                if i < iw {
                    assert(chain_no_empty(s, hash_of(k), iw));
                } else {
                    assert(probe(hash_of(k), i, s.len()) == j);
                }
            }
            assert(false);
        }
    }
}

proof fn lemma_two_occupied<V>(s: Seq<Slot<V>>, j1: int, j2: int)
    requires
        0 <= j1 < s.len(),
        0 <= j2 < s.len(),
        j1 != j2,
        s[j1] is Occupied,
        s[j2] is Occupied,
    ensures
        occ_count(s) >= 2,
    decreases s.len(),
{
    if j1 == s.len() - 1 {
        lemma_occ_count_pos(s.drop_last(), j2);
    } else if j2 == s.len() - 1 {
        lemma_occ_count_pos(s.drop_last(), j1);
    } else {
        lemma_two_occupied(s.drop_last(), j1, j2);
    }
}

proof fn lemma_three_occupied<V>(s: Seq<Slot<V>>, j1: int, j2: int, j3: int)
    requires
        0 <= j1 < s.len(),
        0 <= j2 < s.len(),
        0 <= j3 < s.len(),
        j1 != j2,
        j1 != j3,
        j2 != j3,
        s[j1] is Occupied,
        s[j2] is Occupied,
        s[j3] is Occupied,
    ensures
        occ_count(s) >= 3,
    decreases s.len(),
{
    if j1 == s.len() - 1 {
        lemma_two_occupied(s.drop_last(), j2, j3);
    } else if j2 == s.len() - 1 {
        lemma_two_occupied(s.drop_last(), j1, j3);
    } else if j3 == s.len() - 1 {
        lemma_two_occupied(s.drop_last(), j1, j2);
    } else {
        lemma_three_occupied(s.drop_last(), j1, j2, j3);
    }
}

proof fn lemma_occ_take_le<V>(s: Seq<Slot<V>>, x: int)
    requires
        0 <= x <= s.len(),
    ensures
        occ_count(s.take(x)) <= occ_count(s),
    decreases s.len() - x,
{
    if x == s.len() {
        assert(s.take(x) =~= s);
    } else {
        assert(s.take(x + 1).drop_last() =~= s.take(x));
        lemma_occ_take_le(s, x + 1);
    }
}

proof fn lemma_four_occupied<V>(s: Seq<Slot<V>>, j1: int, j2: int, j3: int, j4: int)
    requires
        0 <= j1 < s.len(),
        0 <= j2 < s.len(),
        0 <= j3 < s.len(),
        0 <= j4 < s.len(),
        j1 != j2,
        j1 != j3,
        j1 != j4,
        j2 != j3,
        j2 != j4,
        j3 != j4,
        s[j1] is Occupied,
        s[j2] is Occupied,
        s[j3] is Occupied,
        s[j4] is Occupied,
    ensures
        occ_count(s) >= 4,
    decreases s.len(),
{
    if j1 == s.len() - 1 {
        lemma_three_occupied(s.drop_last(), j2, j3, j4);
    } else if j2 == s.len() - 1 {
        lemma_three_occupied(s.drop_last(), j1, j3, j4);
    } else if j3 == s.len() - 1 {
        lemma_three_occupied(s.drop_last(), j1, j2, j4);
    } else if j4 == s.len() - 1 {
        lemma_three_occupied(s.drop_last(), j1, j2, j3);
    } else {
        lemma_four_occupied(s.drop_last(), j1, j2, j3, j4);
    }
}

/// Two probe steps whose square offsets differ by less than the slot count
/// land on different indices.
proof fn lemma_probe_distinct(h: u64, i1: nat, i2: nat, n: nat)
    requires
        n > 0,
        i1 * i1 < i2 * i2,
        i2 * i2 - i1 * i1 < n,
    ensures
        probe(h, i1, n) != probe(h, i2, n),
{
    let a = h as nat + i1 * i1;
    let b = h as nat + i2 * i2;
    if probe(h, i1, n) == probe(h, i2, n) {
        vstd::arithmetic::div_mod::lemma_mod_equivalence(b as int, a as int, n as int);
        lemma_small_mod((i2 * i2 - i1 * i1) as nat, n);
        assert(false);
    }
}

/// Replacing a slot with a non-`Empty` one keeps every other occupied
/// slot reachable: probe chains only require earlier slots not to be `Empty`.
proof fn lemma_chains_after_update<V>(s: Seq<Slot<V>>, j: int, sl: Slot<V>)
    requires
        chains_ok(s),
        0 <= j < s.len(),
        !(sl is Empty),
    ensures
        forall|j2: int| #![trigger s.update(j, sl)[j2]]
            0 <= j2 < s.len() && j2 != j && s.update(j, sl)[j2] is Occupied
            ==> chain_reaches(s.update(j, sl), j2),
{
    let s2 = s.update(j, sl);
    assert forall|j2: int|
        0 <= j2 < s.len() && j2 != j && s2[j2] is Occupied implies chain_reaches(s2, j2) by {
        assert(s2[j2] == s[j2]);
        assert(chain_reaches(s, j2));
        let h2 = hash_of(slot_key(s[j2]));
        let iw = choose|iw: nat| #![trigger probe(h2, iw, s.len())]
            iw < s.len() && probe(h2, iw, s.len()) == j2 && chain_no_empty(s, h2, iw);
        assert(chain_no_empty(s2, h2, iw)) by {
            assert forall|i2: nat| #![trigger probe(h2, i2, s2.len())]
                i2 < iw implies !(s2[probe(h2, i2, s2.len()) as int] is Empty) by {
                assert(!(s[probe(h2, i2, s.len()) as int] is Empty));
            };
        };
        assert(probe(h2, iw, s2.len()) == j2);
    };
}

/// Writing a new key into a free (non-occupied) slot found by its own probe
/// chain adds exactly that entry to the map.
proof fn lemma_place<V>(s: Seq<Slot<V>>, j: int, sl: Slot<V>)
    requires
        slots_wf(s),
        0 <= j < s.len(),
        !(s[j] is Occupied),
        sl is Occupied,
        sl->cached == hash_of(slot_key(sl)),
        !has_key(s, slot_key(sl)),
        exists|i: nat| #![trigger probe(hash_of(slot_key(sl)), i, s.len())]
            i < s.len() && probe(hash_of(slot_key(sl)), i, s.len()) == j
            && chain_no_empty(s, hash_of(slot_key(sl)), i),
    ensures
        slots_wf(s.update(j, sl)),
        as_map(s.update(j, sl)) == as_map(s).insert(slot_key(sl), slot_val(sl)),
        occ_count(s.update(j, sl)) == occ_count(s) + 1,
{
    let s2 = s.update(j, sl);
    let k = slot_key(sl);
    let h = hash_of(k);
    lemma_occ_count_update(s, j, sl);
    assert(keys_unique(s2)) by {
        assert forall|j1: int, j2: int|
            0 <= j1 < s2.len() && 0 <= j2 < s2.len() && j1 != j2
            && s2[j1] is Occupied && s2[j2] is Occupied
            implies slot_key(s2[j1]) != slot_key(s2[j2]) by {
            if j1 == j {
                assert(s2[j2] == s[j2]);
                if slot_key(s[j2]) == k {
                    assert(has_key(s, k));
                }
            } else if j2 == j {
                assert(s2[j1] == s[j1]);
                if slot_key(s[j1]) == k {
                    assert(has_key(s, k));
                }
            } else {
                assert(s2[j1] == s[j1] && s2[j2] == s[j2]);
            }
        };
    };
    assert(hashes_ok(s2)) by {
        assert forall|j2: int|
            0 <= j2 < s2.len() && s2[j2] is Occupied
            implies s2[j2]->cached == hash_of(slot_key(s2[j2])) by {
            if j2 != j {
                assert(s2[j2] == s[j2]);
            }
        };
    };
    lemma_chains_after_update(s, j, sl);
    assert(chain_reaches(s2, j)) by {
        let i = choose|i: nat| #![trigger probe(h, i, s.len())]
            i < s.len() && probe(h, i, s.len()) == j && chain_no_empty(s, h, i);
        assert(slot_key(s2[j]) == k);
        assert(chain_no_empty(s2, h, i)) by {
            assert forall|i2: nat| #![trigger probe(h, i2, s2.len())]
                i2 < i implies !(s2[probe(h, i2, s2.len()) as int] is Empty) by {
                assert(!(s[probe(h, i2, s.len()) as int] is Empty));
            };
        };
        assert(probe(h, i, s2.len()) == j);
    };
    assert(chains_ok(s2)) by {
        assert forall|j2: int|
            0 <= j2 < s2.len() && s2[j2] is Occupied implies chain_reaches(s2, j2) by {
            if j2 != j {
                assert(s.update(j, sl)[j2] is Occupied);
            }
        };
    };
    let m1 = as_map(s2);
    let m2 = as_map(s).insert(k, slot_val(sl));
    assert forall|k2: Seq<u8>| m1.dom().contains(k2) implies m2.dom().contains(k2) by {
        let j2 = choose|j2: int| #![trigger s2[j2]]
            0 <= j2 < s2.len() && s2[j2] is Occupied && slot_key(s2[j2]) == k2;
        if j2 != j {
            assert(s[j2] == s2[j2]);
            assert(has_key(s, k2));
        }
    };
    assert forall|k2: Seq<u8>| m2.dom().contains(k2) implies m1.dom().contains(k2) by {
        if k2 == k {
            assert(s2[j] is Occupied && slot_key(s2[j]) == k);
            assert(has_key(s2, k));
        } else {
            let j2 = choose|j2: int| #![trigger s[j2]]
                0 <= j2 < s.len() && s[j2] is Occupied && slot_key(s[j2]) == k2;
            assert(j2 != j);
            assert(s2[j2] == s[j2]);
            assert(has_key(s2, k2));
        }
    };
    assert forall|k2: Seq<u8>| m1.dom().contains(k2) implies m1[k2] == m2[k2] by {
        if k2 == k {
            lemma_found_value(s2, k, j);
        } else {
            assert(m2.dom().contains(k2));
            let j2 = choose|j2: int| #![trigger s[j2]]
                0 <= j2 < s.len() && s[j2] is Occupied && slot_key(s[j2]) == k2;
            lemma_found_value(s, k2, j2);
            assert(s2[j2] == s[j2]);
            lemma_found_value(s2, k2, j2);
        }
    };
    assert(m1 =~= m2);
}

/// Overwriting the slot that already holds a key (with the same key and a
/// new value) updates exactly that entry of the map.
proof fn lemma_overwrite<V>(s: Seq<Slot<V>>, j: int, sl: Slot<V>)
    requires
        slots_wf(s),
        0 <= j < s.len(),
        s[j] is Occupied,
        sl is Occupied,
        slot_key(sl) == slot_key(s[j]),
        sl->cached == hash_of(slot_key(sl)),
    ensures
        slots_wf(s.update(j, sl)),
        as_map(s.update(j, sl)) == as_map(s).insert(slot_key(sl), slot_val(sl)),
        occ_count(s.update(j, sl)) == occ_count(s),
{
    let s2 = s.update(j, sl);
    let k = slot_key(sl);
    lemma_occ_count_update(s, j, sl);
    assert(keys_unique(s2)) by {
        assert forall|j1: int, j2: int|
            0 <= j1 < s2.len() && 0 <= j2 < s2.len() && j1 != j2
            && s2[j1] is Occupied && s2[j2] is Occupied
            implies slot_key(s2[j1]) != slot_key(s2[j2]) by {
            if j1 == j {
                assert(s2[j2] == s[j2]);
                assert(slot_key(s[j]) != slot_key(s[j2]));
            } else if j2 == j {
                assert(s2[j1] == s[j1]);
                assert(slot_key(s[j1]) != slot_key(s[j]));
            } else {
                assert(s2[j1] == s[j1] && s2[j2] == s[j2]);
            }
        };
    };
    assert(hashes_ok(s2)) by {
        assert forall|j2: int|
            0 <= j2 < s2.len() && s2[j2] is Occupied
            implies s2[j2]->cached == hash_of(slot_key(s2[j2])) by {
            if j2 != j {
                assert(s2[j2] == s[j2]);
            }
        };
    };
    lemma_chains_after_update(s, j, sl);
    assert(chain_reaches(s2, j)) by {
        let h = hash_of(k);
        assert(chain_reaches(s, j));
        let iw = choose|iw: nat| #![trigger probe(h, iw, s.len())]
            iw < s.len() && probe(h, iw, s.len()) == j && chain_no_empty(s, h, iw);
        assert(slot_key(s2[j]) == k);
        assert(chain_no_empty(s2, h, iw)) by {
            assert forall|i2: nat| #![trigger probe(h, i2, s2.len())]
                i2 < iw implies !(s2[probe(h, i2, s2.len()) as int] is Empty) by {
                assert(!(s[probe(h, i2, s.len()) as int] is Empty));
            };
        };
        assert(probe(h, iw, s2.len()) == j);
    };
    assert(chains_ok(s2)) by {
        assert forall|j2: int|
            0 <= j2 < s2.len() && s2[j2] is Occupied implies chain_reaches(s2, j2) by {
            if j2 != j {
                assert(s.update(j, sl)[j2] is Occupied);
            }
        };
    };
    let m1 = as_map(s2);
    let m2 = as_map(s).insert(k, slot_val(sl));
    assert forall|k2: Seq<u8>| m1.dom().contains(k2) implies m2.dom().contains(k2) by {
        let j2 = choose|j2: int| #![trigger s2[j2]]
            0 <= j2 < s2.len() && s2[j2] is Occupied && slot_key(s2[j2]) == k2;
        if j2 != j {
            assert(s[j2] == s2[j2]);
            assert(has_key(s, k2));
        }
    };
    assert forall|k2: Seq<u8>| m2.dom().contains(k2) implies m1.dom().contains(k2) by {
        if k2 == k {
            assert(s2[j] is Occupied && slot_key(s2[j]) == k);
            assert(has_key(s2, k));
        } else {
            let j2 = choose|j2: int| #![trigger s[j2]]
                0 <= j2 < s.len() && s[j2] is Occupied && slot_key(s[j2]) == k2;
            assert(j2 != j);
            assert(s2[j2] == s[j2]);
            assert(has_key(s2, k2));
        }
    };
    assert forall|k2: Seq<u8>| m1.dom().contains(k2) implies m1[k2] == m2[k2] by {
        if k2 == k {
            lemma_found_value(s2, k, j);
        } else {
            assert(m2.dom().contains(k2));
            let j2 = choose|j2: int| #![trigger s[j2]]
                0 <= j2 < s.len() && s[j2] is Occupied && slot_key(s[j2]) == k2;
            assert(j2 != j);
            lemma_found_value(s, k2, j2);
            assert(s2[j2] == s[j2]);
            lemma_found_value(s2, k2, j2);
        }
    };
    assert(m1 =~= m2);
}

/// Demoting an occupied slot to a tombstone removes exactly its entry from
/// the map, and severs no other key's probe chain.
proof fn lemma_tombstone<V>(s: Seq<Slot<V>>, j: int)
    requires
        slots_wf(s),
        0 <= j < s.len(),
        s[j] is Occupied,
    ensures
        slots_wf(s.update(j, Slot::Tombstone)),
        as_map(s.update(j, Slot::Tombstone)) == as_map(s).remove(slot_key(s[j])),
        occ_count(s.update(j, Slot::Tombstone)) == occ_count(s) - 1,
{
    let s2 = s.update(j, Slot::<V>::Tombstone);
    let k = slot_key(s[j]);
    lemma_occ_count_update(s, j, Slot::<V>::Tombstone);
    lemma_occ_count_pos(s, j);
    assert(keys_unique(s2)) by {
        assert forall|j1: int, j2: int|
            0 <= j1 < s2.len() && 0 <= j2 < s2.len() && j1 != j2
            && s2[j1] is Occupied && s2[j2] is Occupied
            implies slot_key(s2[j1]) != slot_key(s2[j2]) by {
            assert(j1 != j && j2 != j);
            assert(s2[j1] == s[j1] && s2[j2] == s[j2]);
        };
    };
    assert(hashes_ok(s2)) by {
        assert forall|j2: int|
            0 <= j2 < s2.len() && s2[j2] is Occupied
            implies s2[j2]->cached == hash_of(slot_key(s2[j2])) by {
            assert(s2[j2] == s[j2]);
        };
    };
    lemma_chains_after_update(s, j, Slot::<V>::Tombstone);
    assert(chains_ok(s2)) by {
        assert forall|j2: int|
            0 <= j2 < s2.len() && s2[j2] is Occupied implies chain_reaches(s2, j2) by {
            assert(j2 != j);
            assert(s.update(j, Slot::<V>::Tombstone)[j2] is Occupied);
        };
    };
    let m1 = as_map(s2);
    let m2 = as_map(s).remove(k);
    assert forall|k2: Seq<u8>| m1.dom().contains(k2) implies m2.dom().contains(k2) by {
        let j2 = choose|j2: int| #![trigger s2[j2]]
            0 <= j2 < s2.len() && s2[j2] is Occupied && slot_key(s2[j2]) == k2;
        assert(j2 != j);
        assert(s[j2] == s2[j2]);
        assert(has_key(s, k2));
        assert(k2 != k);
    };
    assert forall|k2: Seq<u8>| m2.dom().contains(k2) implies m1.dom().contains(k2) by {
        let j2 = choose|j2: int| #![trigger s[j2]]
            0 <= j2 < s.len() && s[j2] is Occupied && slot_key(s[j2]) == k2;
        assert(j2 != j);
        assert(s2[j2] == s[j2]);
        assert(has_key(s2, k2));
    };
    assert forall|k2: Seq<u8>| m1.dom().contains(k2) implies m1[k2] == m2[k2] by {
        assert(m2.dom().contains(k2));
        let j2 = choose|j2: int| #![trigger s[j2]]
            0 <= j2 < s.len() && s[j2] is Occupied && slot_key(s[j2]) == k2;
        assert(j2 != j);
        lemma_found_value(s, k2, j2);
        assert(s2[j2] == s[j2]);
        lemma_found_value(s2, k2, j2);
    };
    assert(m1 =~= m2);
}

/// One step of walking a slot array: extending the processed prefix by one
/// slot extends its map by that slot's entry, if any.
proof fn lemma_take_step<V>(s: Seq<Slot<V>>, j: int)
    requires
        keys_unique(s),
        0 <= j < s.len(),
    ensures
        occ_count(s.take(j + 1)) as int == occ_count(s.take(j)) as int
            + (if s[j] is Occupied { 1int } else { 0int }),
        s[j] is Occupied ==> !has_key(s.take(j), slot_key(s[j]))
            && as_map(s.take(j + 1)) == as_map(s.take(j)).insert(slot_key(s[j]), slot_val(s[j])),
        !(s[j] is Occupied) ==> as_map(s.take(j + 1)) == as_map(s.take(j)),
{
    let a = s.take(j);
    let b = s.take(j + 1);
    assert(b.drop_last() =~= a);
    assert(b.last() == s[j]);
    assert(occ_count(b) as int == occ_count(a) as int
        + (if s[j] is Occupied { 1int } else { 0int }));
    if s[j] is Occupied {
        let k = slot_key(s[j]);
        assert(!has_key(a, k)) by {
            if has_key(a, k) {
                let j2 = choose|j2: int| #![trigger a[j2]]
                    0 <= j2 < a.len() && a[j2] is Occupied && slot_key(a[j2]) == k;
                assert(a[j2] == s[j2]);
                assert(slot_key(s[j2]) != slot_key(s[j]));
                assert(false);
            }
        };
        assert(keys_unique(b)) by {
            assert forall|j1: int, j2: int|
                0 <= j1 < b.len() && 0 <= j2 < b.len() && j1 != j2
                && b[j1] is Occupied && b[j2] is Occupied
                implies slot_key(b[j1]) != slot_key(b[j2]) by {
                assert(b[j1] == s[j1] && b[j2] == s[j2]);
            };
        };
        let m1 = as_map(b);
        let m2 = as_map(a).insert(k, slot_val(s[j]));
        assert forall|k2: Seq<u8>| m1.dom().contains(k2) implies m2.dom().contains(k2) by {
            let j2 = choose|j2: int| #![trigger b[j2]]
                0 <= j2 < b.len() && b[j2] is Occupied && slot_key(b[j2]) == k2;
            if j2 != j {
                assert(a[j2] == b[j2]);
                assert(has_key(a, k2));
            }
        };
        assert forall|k2: Seq<u8>| m2.dom().contains(k2) implies m1.dom().contains(k2) by {
            if k2 == k {
                assert(b[j] is Occupied && slot_key(b[j]) == k);
                assert(has_key(b, k));
            } else {
                let j2 = choose|j2: int| #![trigger a[j2]]
                    0 <= j2 < a.len() && a[j2] is Occupied && slot_key(a[j2]) == k2;
                assert(b[j2] == a[j2]);
                assert(has_key(b, k2));
            }
        };
        assert forall|k2: Seq<u8>| m1.dom().contains(k2) implies m1[k2] == m2[k2] by {
            if k2 == k {
                lemma_found_value(b, k, j);
            } else {
                assert(m2.dom().contains(k2));
                let j2 = choose|j2: int| #![trigger a[j2]]
                    0 <= j2 < a.len() && a[j2] is Occupied && slot_key(a[j2]) == k2;
                assert(keys_unique(a)) by {
                    assert forall|x1: int, x2: int|
                        0 <= x1 < a.len() && 0 <= x2 < a.len() && x1 != x2
                        && a[x1] is Occupied && a[x2] is Occupied
                        implies slot_key(a[x1]) != slot_key(a[x2]) by {
                        assert(a[x1] == s[x1] && a[x2] == s[x2]);
                    };
                };
                lemma_found_value(a, k2, j2);
                assert(b[j2] == a[j2]);
                lemma_found_value(b, k2, j2);
            }
        };
        assert(m1 =~= m2);
    } else {
        let m1 = as_map(b);
        let m2 = as_map(a);
        assert forall|k2: Seq<u8>| m1.dom().contains(k2) implies m2.dom().contains(k2) by {
            let j2 = choose|j2: int| #![trigger b[j2]]
                0 <= j2 < b.len() && b[j2] is Occupied && slot_key(b[j2]) == k2;
            assert(j2 != j);
            assert(a[j2] == b[j2]);
            assert(has_key(a, k2));
        };
        assert forall|k2: Seq<u8>| m2.dom().contains(k2) implies m1.dom().contains(k2) by {
            let j2 = choose|j2: int| #![trigger a[j2]]
                0 <= j2 < a.len() && a[j2] is Occupied && slot_key(a[j2]) == k2;
            assert(b[j2] == a[j2]);
            assert(has_key(b, k2));
        };
        assert forall|k2: Seq<u8>| m1.dom().contains(k2) implies m1[k2] == m2[k2] by {
            assert(keys_unique(b)) by {
                assert forall|x1: int, x2: int|
                    0 <= x1 < b.len() && 0 <= x2 < b.len() && x1 != x2
                    && b[x1] is Occupied && b[x2] is Occupied
                    implies slot_key(b[x1]) != slot_key(b[x2]) by {
                    assert(b[x1] == s[x1] && b[x2] == s[x2]);
                };
            };
            assert(keys_unique(a)) by {
                assert forall|x1: int, x2: int|
                    0 <= x1 < a.len() && 0 <= x2 < a.len() && x1 != x2
                    && a[x1] is Occupied && a[x2] is Occupied
                    implies slot_key(a[x1]) != slot_key(a[x2]) by {
                    assert(a[x1] == s[x1] && a[x2] == s[x2]);
                };
            };
            let j2 = choose|j2: int| #![trigger b[j2]]
                0 <= j2 < b.len() && b[j2] is Occupied && slot_key(b[j2]) == k2;
            assert(j2 != j);
            lemma_found_value(b, k2, j2);
            assert(a[j2] == b[j2]);
            lemma_found_value(a, k2, j2);
        };
        assert(m1 =~= m2);
    }
}

/// The table: a flat slot array, its slot count, and its live-entry count.
pub struct HashMap<V> {
    slots: Vec<Slot<V>>,
    capacity: usize,
    len: usize,
}

impl<V> View for HashMap<V> {
    type V = Map<Seq<u8>, V>;

    closed spec fn view(&self) -> Map<Seq<u8>, V> {
        as_map(self.slots@)
    }
}

impl<V> HashMap<V> {
    /// The number of live entries, as a mathematical number.
    pub closed spec fn spec_len(self) -> nat {
        self.len as nat
    }

    /// The slot count, as a mathematical number.
    pub closed spec fn spec_cap(self) -> nat {
        self.capacity as nat
    }

    /// Every probe index for `k` holds a live entry with another key, so a
    /// probe search for `k` can neither find it nor place it.
    pub closed spec fn blocked(self, k: Seq<u8>) -> bool {
        chain_blocked(self.slots@, k)
    }

    /// No slot is a tombstone (true of a fresh or freshly grown table).
    pub closed spec fn tombstone_free(self) -> bool {
        forall|j: int| #![trigger self.slots@[j]]
            0 <= j < self.slots@.len() ==> !(self.slots@[j] is Tombstone)
    }

    /// The table's invariant: bookkeeping matches the slot array, and the
    /// slot array satisfies the probing invariants.
    pub closed spec fn wf(self) -> bool {
        &&& self.slots@.len() == self.capacity
        &&& self.capacity >= 8
        &&& self.capacity % 4 == 0
        &&& self.len == occ_count(self.slots@)
        &&& self.len <= self.capacity
        &&& 4 * self.len <= 3 * self.capacity
        &&& slots_wf(self.slots@)
    }
}

/// A blocked probe chain takes at least three live entries: the first three
/// probe indices (square offsets 0, 1 and 4) are pairwise distinct in any
/// table of at least 8 slots, and all of them must hold other live keys.
/// So inserting into a table with fewer than three live entries always
/// succeeds.
pub proof fn lemma_blocked_needs_three<V>(t: HashMap<V>, k: Seq<u8>)
    requires
        t.wf(),
        t.blocked(k),
    ensures
        t.spec_len() >= 3,
{
    lemma_chain_blocked_three(t.slots@, k);
}

proof fn lemma_chain_blocked_three<V>(s: Seq<Slot<V>>, k: Seq<u8>)
    requires
        s.len() >= 8,
        chain_blocked(s, k),
    ensures
        occ_count(s) >= 3,
{
    let n = s.len();
    let h = hash_of(k);
    let p0 = probe(h, 0, n);
    let p1 = probe(h, 1, n);
    let p2 = probe(h, 2, n);
    assert(s[p0 as int] is Occupied);
    assert(s[p1 as int] is Occupied);
    assert(s[p2 as int] is Occupied);
    lemma_probe_distinct(h, 0, 1, n);
    lemma_probe_distinct(h, 0, 2, n);
    lemma_probe_distinct(h, 1, 2, n);
    lemma_three_occupied(s, p0 as int, p1 as int, p2 as int);
}

/// In a table of at least 16 slots, a blocked chain needs a fourth live
/// entry: the square offsets 0, 1, 4 and 9 are pairwise distinct mod any
/// such slot count.
pub proof fn lemma_blocked_needs_four<V>(t: HashMap<V>, k: Seq<u8>)
    requires
        t.wf(),
        t.blocked(k),
        t.spec_cap() >= 16,
    ensures
        t.spec_len() >= 4,
{
    lemma_chain_blocked_four(t.slots@, k);
}

proof fn lemma_chain_blocked_four<V>(s: Seq<Slot<V>>, k: Seq<u8>)
    requires
        s.len() >= 16,
        chain_blocked(s, k),
    ensures
        occ_count(s) >= 4,
{
    let n = s.len();
    let h = hash_of(k);
    let p0 = probe(h, 0, n);
    let p1 = probe(h, 1, n);
    let p2 = probe(h, 2, n);
    let p3 = probe(h, 3, n);
    assert(s[p0 as int] is Occupied);
    assert(s[p1 as int] is Occupied);
    assert(s[p2 as int] is Occupied);
    assert(s[p3 as int] is Occupied);
    lemma_probe_distinct(h, 0, 1, n);
    lemma_probe_distinct(h, 0, 2, n);
    lemma_probe_distinct(h, 0, 3, n);
    lemma_probe_distinct(h, 1, 2, n);
    lemma_probe_distinct(h, 1, 3, n);
    lemma_probe_distinct(h, 2, 3, n);
    lemma_four_occupied(s, p0 as int, p1 as int, p2 as int, p3 as int);
}

/// A fresh all-`Empty` slot array of `n` cells.
fn empty_slots<V>(n: usize) -> (r: Vec<Slot<V>>)
    ensures
        r@.len() == n,
        forall|j: int| #![trigger r@[j]] 0 <= j < n ==> r@[j] is Empty,
{
    let mut slots: Vec<Slot<V>> = Vec::new();
    let mut i: usize = 0;
    while i < n
        invariant
            i <= n,
            slots@.len() == i,
            forall|j: int| #![trigger slots@[j]] 0 <= j < i ==> slots@[j] is Empty,
        decreases n - i,
    {
        slots.push(Slot::Empty);
        i = i + 1;
    }
    slots
}

/// Byte-wise equality of two keys.
fn bytes_eq(a: &Vec<u8>, b: &Vec<u8>) -> (r: bool)
    ensures
        r == (a@ == b@),
{
    if a.len() != b.len() {
        return false;
    }
    let mut i: usize = 0;
    while i < a.len()
        invariant
            i <= a.len(),
            a@.len() == b@.len(),
            forall|j: int| #![trigger a@[j]] 0 <= j < i ==> a@[j] == b@[j],
        decreases a.len() - i,
    {
        if a[i] != b[i] {
            return false;
        }
        i = i + 1;
    }
    proof {
        assert(a@ =~= b@);
    }
    true
}

/// A byte-wise copy of a key.
fn copy_key(v: &Vec<u8>) -> (r: Vec<u8>)
    ensures
        r@ == v@,
{
    let mut out: Vec<u8> = Vec::new();
    let mut i: usize = 0;
    while i < v.len()
        invariant
            i <= v.len(),
            out@ =~= v@.take(i as int),
        decreases v.len() - i,
    {
        out.push(v[i]);
        i = i + 1;
        proof {
            assert(out@ =~= v@.take(i as int));
        }
    }
    proof {
        assert(v@.take(v@.len() as int) =~= v@);
    }
    out
}

/// The i-th probe index for digest `h` in a table of `n` slots.
fn probe_at(h: u64, i: usize, n: usize) -> (r: usize)
    requires
        n > 0,
    ensures
        r == probe(h, i as nat, n as nat),
        r < n,
{
    proof {
        assert((i as u128) * (i as u128) <= 0xffff_ffff_ffff_ffffu128 * 0xffff_ffff_ffff_ffffu128)
            by (nonlinear_arith)
            requires i as u128 <= 0xffff_ffff_ffff_ffffu128;
    }
    let r = (((h as u128) + (i as u128) * (i as u128)) % (n as u128)) as usize;
    r
}

/// What a probe search found.
enum FindResult {
    /// The key is live in this slot.
    Found { idx: usize },
    /// The key is absent; this slot (the first tombstone met, else the
    /// `Empty` slot that ended the search) can take it.
    Free { idx: usize },
    /// The key is absent and every probe index holds another live key.
    Blocked,
}

/// Walks the probe sequence for `key` (digest `h`), for at most one whole
/// round of the slot array.
fn find_slot<V>(slots: &Vec<Slot<V>>, key: &Vec<u8>, h: u64) -> (r: FindResult)
    requires
        slots_wf(slots@),
        slots@.len() >= 1,
        h == hash_of(key@),
    ensures
        match r {
            FindResult::Found { idx } => {
                &&& idx < slots@.len()
                &&& slots@[idx as int] is Occupied
                &&& slot_key(slots@[idx as int]) == key@
            },
            FindResult::Free { idx } => {
                &&& idx < slots@.len()
                &&& !(slots@[idx as int] is Occupied)
                &&& !has_key(slots@, key@)
                &&& !as_map(slots@).dom().contains(key@)
                &&& exists|i: nat| #![trigger probe(h, i, slots@.len())]
                    i < slots@.len()
                    && probe(h, i, slots@.len()) == idx
                    && chain_no_empty(slots@, h, i)
            },
            FindResult::Blocked => {
                &&& chain_blocked(slots@, key@)
                &&& !has_key(slots@, key@)
                &&& !as_map(slots@).dom().contains(key@)
            },
        },
{
    let n = slots.len();
    let mut i: usize = 0;
    let mut first_free: Option<usize> = None;
    while i < n
        invariant
            slots_wf(slots@),
            n == slots@.len(),
            n >= 1,
            h == hash_of(key@),
            i <= n,
            chain_no_empty(slots@, h, i as nat),
            forall|i2: nat| #![trigger probe(h, i2, slots@.len())]
                i2 < i ==> !(slots@[probe(h, i2, slots@.len()) as int] is Occupied
                    && slot_key(slots@[probe(h, i2, slots@.len()) as int]) == key@),
            first_free is None ==> forall|i2: nat| #![trigger probe(h, i2, slots@.len())]
                i2 < i ==> slots@[probe(h, i2, slots@.len()) as int] is Occupied,
            first_free matches Some(t) ==> t < n
                && !(slots@[t as int] is Occupied)
                && exists|it: nat| #![trigger probe(h, it, slots@.len())]
                    it < i && probe(h, it, slots@.len()) == t,
        decreases n - i,
    {
        let idx = probe_at(h, i, n);
        match &slots[idx] {
            Slot::Occupied { key: k2, cached, .. } => {
                if *cached == h && bytes_eq(k2, key) {
                    return FindResult::Found { idx };
                }
                proof {
                    // Unequal digests mean unequal keys, since the cached
                    // digest is the digest of the stored key.
                    assert(slot_key(slots@[idx as int]) == k2@);
                    if k2@ == key@ {
                        assert(slots@[idx as int]->cached == hash_of(k2@));
                        assert(false);
                    }
                }
            },
            Slot::Empty => {
                match first_free {
                    Some(t) => {
                        proof {
                            lemma_absent(slots@, key@, i as nat);
                            let it = choose|it: nat| #![trigger probe(h, it, slots@.len())]
                                it < i && probe(h, it, slots@.len()) == t;
                            assert(it < slots@.len()
                                && probe(h, it, slots@.len()) == t
                                && chain_no_empty(slots@, h, it));
                        }
                        return FindResult::Free { idx: t };
                    },
                    None => {
                        proof {
                            lemma_absent(slots@, key@, i as nat);
                        }
                        return FindResult::Free { idx };
                    },
                }
            },
            Slot::Tombstone => {
                if first_free.is_none() {
                    first_free = Some(idx);
                }
            },
        }
        i = i + 1;
    }
    proof {
        lemma_absent(slots@, key@, n as nat);
    }
    match first_free {
        Some(t) => {
            proof {
                let it = choose|it: nat| #![trigger probe(h, it, slots@.len())]
                    it < n && probe(h, it, slots@.len()) == t;
                assert(it < slots@.len()
                    && probe(h, it, slots@.len()) == t
                    && chain_no_empty(slots@, h, it));
            }
            FindResult::Free { idx: t }
        },
        None => FindResult::Blocked,
    }
}

/// Re-inserts every live entry of `slots` into a fresh all-`Empty` array of
/// `new_cap` cells, recomputing probe placement from each entry's cached
/// digest.  Gives nothing back if some entry's whole probe chain in the new
/// array is occupied (possible for pathological digest clusterings, since a
/// quadratic probe sequence need not visit every slot).
fn rebuild<V: Copy>(slots: &Vec<Slot<V>>, new_cap: usize) -> (r: Option<Vec<Slot<V>>>)
    requires
        slots_wf(slots@),
        new_cap >= 16,
    ensures
        match r {
            Some(nv) => {
                &&& nv@.len() == new_cap
                &&& slots_wf(nv@)
                &&& as_map(nv@) == as_map(slots@)
                &&& occ_count(nv@) == occ_count(slots@)
                &&& forall|x: int| #![trigger nv@[x]] 0 <= x < nv@.len() ==> !(nv@[x] is Tombstone)
            },
            None => occ_count(slots@) > 4,
        },
{
    let mut nv: Vec<Slot<V>> = empty_slots(new_cap);
    proof {
        lemma_no_occupied(nv@);
        assert(slots@.take(0) =~= Seq::<Slot<V>>::empty());
        lemma_no_occupied(slots@.take(0));
    }
    let n = slots.len();
    let mut j: usize = 0;
    while j < n
        invariant
            slots_wf(slots@),
            n == slots@.len(),
            new_cap >= 16,
            j <= n,
            nv@.len() == new_cap,
            slots_wf(nv@),
            forall|x: int| #![trigger nv@[x]] 0 <= x < nv@.len() ==> !(nv@[x] is Tombstone),
            as_map(nv@) == as_map(slots@.take(j as int)),
            occ_count(nv@) == occ_count(slots@.take(j as int)),
        decreases n - j,
    {
        proof {
            lemma_take_step(slots@, j as int);
        }
        match &slots[j] {
            Slot::Occupied { key, value, cached } => {
                proof {
                    assert(slot_key(slots@[j as int]) == key@);
                    assert(slots@[j as int]->cached == hash_of(key@));
                    assert(!has_key(nv@, key@)) by {
                        if has_key(nv@, key@) {
                            assert(as_map(nv@).dom().contains(key@));
                            assert(has_key(slots@.take(j as int), key@));
                            assert(false);
                        }
                    };
                }
                let h = *cached;
                match find_slot(&nv, key, h) {
                    FindResult::Free { idx } => {
                        let k2 = copy_key(key);
                        let ghost nv0 = nv@;
                        let v2 = *value;
                        nv.set(idx, Slot::Occupied { key: k2, value: v2, cached: h });
                        proof {
                            let sl = nv@[idx as int];
                            assert(slot_key(sl) == key@);
                            assert(slot_val(sl) == slots@[j as int]->value);
                            assert(nv@ == nv0.update(idx as int, sl));
                            lemma_place(nv0, idx as int, sl);
                        }
                    },
                    FindResult::Found { .. } => {
                        // Impossible: the key was just shown absent from `nv`.
                        proof {
                            assert(false);
                        }
                        return None;
                    },
                    FindResult::Blocked => {
                        proof {
                            // A blocked chain in an array of at least 16
                            // slots needs four live entries, and slot `j`
                            // itself is a fifth not yet placed.
                            lemma_chain_blocked_four(nv@, key@);
                            lemma_occ_take_le(slots@, j + 1);
                        }
                        return None;
                    },
                }
            },
            _ => {},
        }
        j = j + 1;
    }
    proof {
        assert(slots@.take(n as int) =~= slots@);
    }
    Some(nv)
}

impl<V: Copy> HashMap<V> {
    /// A fresh table of 8 `Empty` slots and no entries.
    pub fn new() -> (r: Self)
        ensures
            r.wf(),
            r@ == Map::<Seq<u8>, V>::empty(),
            r.spec_len() == 0,
            r.spec_cap() == 8,
            r.tombstone_free(),
    {
        let slots = empty_slots(8);
        proof {
            lemma_no_occupied(slots@);
        }
        HashMap { slots, capacity: 8, len: 0 }
    }

    /// The digest the table uses for `key`: deterministic, so the same key
    /// always yields the same digest.
    pub fn hash(&self, key: &Vec<u8>) -> (r: u64)
        ensures
            r == hash_of(key@),
    {
        fnv1a(key)
    }

    /// The number of live entries.
    pub fn len(&self) -> (r: usize)
        ensures
            r == self.spec_len(),
    {
        self.len
    }

    /// The total slot count.
    pub fn capacity(&self) -> (r: usize)
        ensures
            r == self.spec_cap(),
    {
        self.capacity
    }

    /// Looks `key` up: the value it was last inserted with, or nothing if it
    /// is absent (never inserted, or removed since).
    pub fn get(&self, key: &Vec<u8>) -> (r: Option<&V>)
        requires
            self.wf(),
        ensures
            match r {
                Some(v) => self@.dom().contains(key@) && *v == self@[key@],
                None => !self@.dom().contains(key@),
            },
    {
        let h = fnv1a(key);
        match find_slot(&self.slots, key, h) {
            FindResult::Found { idx } => {
                proof {
                    lemma_found_value(self.slots@, key@, idx as int);
                }
                match &self.slots[idx] {
                    Slot::Occupied { value, .. } => Some(value),
                    _ => unreached(),
                }
            },
            _ => None,
        }
    }

    /// Doubles the slot array and re-inserts every live entry, purging all
    /// tombstones; the map of live entries and their count are preserved
    /// exactly.  The table is left bit-for-bit unchanged when the doubled
    /// array cannot be addressed, or in the pathological case in which some
    /// entry's whole probe chain in the doubled array is already occupied by
    /// the entries placed before it (possible only with at least five live
    /// entries, since a blocked chain in an array of 16 or more slots needs
    /// four distinct occupied probe indices).
    pub fn resize(&mut self)
        requires
            old(self).wf(),
        ensures
            final(self).wf(),
            final(self)@ == old(self)@,
            final(self).spec_len() == old(self).spec_len(),
            final(self).spec_cap() == old(self).spec_cap()
                || final(self).spec_cap() == 2 * old(self).spec_cap(),
            final(self).spec_cap() == 2 * old(self).spec_cap() ==> final(self).tombstone_free(),
            final(self).spec_cap() == old(self).spec_cap() ==> *final(self) == *old(self),
            old(self).spec_len() <= 4 && old(self).spec_cap() <= usize::MAX / 2
                ==> final(self).spec_cap() == 2 * old(self).spec_cap(),
    {
        if self.capacity > usize::MAX / 2 {
            return;
        }
        let new_cap = self.capacity * 2;
        match rebuild(&self.slots, new_cap) {
            Some(nv) => {
                proof {
                    lemma_occ_count_le(nv@);
                }
                self.slots = nv;
                self.capacity = new_cap;
            },
            None => {},
        }
    }

    /// Inserts `key` with `value`.  An existing entry for the key is always
    /// overwritten in place.  A new key is written into the first free slot
    /// of its probe chain; the table grows first whenever the insertion
    /// could push the live count above 3/4 of the slot count, and grows and
    /// retries once more when the key's whole probe chain is occupied.  The
    /// live count never exceeds 3/4 of the slot count.
    ///
    /// In every non-pathological state the result is exactly
    /// `old(self)@.insert(key@, value)`; with at most three live entries
    /// (and a doublable capacity) that is promised outright.  The two
    /// pathological failures, both leaving the table unchanged, are named in
    /// the contract: the key's probe chain is occupied by other live keys
    /// even after the growth attempt (`blocked`), or growth was needed to
    /// keep the load bound and the growth attempt itself failed.
    pub fn insert(&mut self, key: Vec<u8>, value: V)
        requires
            old(self).wf(),
        ensures
            final(self).wf(),
            final(self).spec_cap() == old(self).spec_cap()
                || final(self).spec_cap() == 2 * old(self).spec_cap()
                || final(self).spec_cap() == 4 * old(self).spec_cap(),
            final(self)@ == old(self)@.insert(key@, value)
                || (final(self)@ == old(self)@ && final(self).spec_len() == old(self).spec_len()
                    && (final(self).blocked(key@)
                        || (4 * (old(self).spec_len() + 1) > 3 * old(self).spec_cap()
                            && final(self).spec_cap() == old(self).spec_cap()))),
            old(self)@.dom().contains(key@) ==> final(self)@ == old(self)@.insert(key@, value),
            old(self).spec_len() <= 2 ==> final(self)@ == old(self)@.insert(key@, value),
            old(self).spec_len() <= 3 && old(self).spec_cap() <= usize::MAX / 2
                ==> final(self)@ == old(self)@.insert(key@, value),
            final(self)@ == old(self)@.insert(key@, value)
                ==> final(self).spec_len() as int == old(self).spec_len() as int
                    + (if old(self)@.dom().contains(key@) { 0int } else { 1int }),
            4 * final(self).spec_len() <= 3 * final(self).spec_cap(),
    {
        proof {
            assert(old(self).capacity == 4 * (old(self).capacity / 4));
        }
        let mut grow_failed = false;
        if self.len >= self.capacity - self.capacity / 4 {
            let cap0 = self.capacity;
            self.resize();
            grow_failed = self.capacity == cap0;
        }
        let ghost mid = *self;
        proof {
            // Unless a needed growth failed, one more live entry keeps the
            // load bound.
            if !grow_failed {
                assert(4 * (self.len + 1) <= 3 * self.capacity);
            }
        }
        let h = fnv1a(&key);
        let ghost kv = key@;
        match find_slot(&self.slots, &key, h) {
            FindResult::Found { idx } => {
                proof {
                    lemma_found_value(self.slots@, key@, idx as int);
                }
                let ghost s0 = self.slots@;
                self.slots.set(idx, Slot::Occupied { key, value, cached: h });
                proof {
                    let sl = self.slots@[idx as int];
                    assert(slot_key(sl) == kv);
                    assert(slot_val(sl) == value);
                    lemma_overwrite(s0, idx as int, sl);
                    assert(self@ == mid@.insert(kv, value));
                    assert(mid@.dom().contains(kv));
                }
            },
            FindResult::Free { idx } => {
                if grow_failed {
                    // Placing a new entry would break the load bound, and the
                    // growth that was needed did not happen: refuse.
                    return;
                }
                proof {
                    lemma_occ_count_lt(self.slots@, idx as int);
                }
                let ghost s0 = self.slots@;
                self.slots.set(idx, Slot::Occupied { key, value, cached: h });
                self.len = self.len + 1;
                proof {
                    let sl = self.slots@[idx as int];
                    assert(slot_key(sl) == kv);
                    assert(slot_val(sl) == value);
                    lemma_place(s0, idx as int, sl);
                    assert(self@ == mid@.insert(kv, value));
                    assert(!mid@.dom().contains(kv));
                }
            },
            FindResult::Blocked => {
                proof {
                    if old(self).spec_len() <= 2 {
                        lemma_blocked_needs_three(*self, kv);
                        assert(false);
                    }
                }
                if grow_failed {
                    return;
                }
                // The whole probe chain is occupied: treat the table as
                // effectively full, grow, and probe once more.
                self.resize();
                match find_slot(&self.slots, &key, h) {
                    FindResult::Found { idx } => {
                        proof {
                            // Impossible: the first search showed the key
                            // absent, and growth preserves the map.
                            assert(self.slots@[idx as int] is Occupied
                                && slot_key(self.slots@[idx as int]) == kv);
                            assert(has_key(self.slots@, kv));
                            assert(self@.dom().contains(kv));
                            assert(false);
                        }
                    },
                    FindResult::Free { idx } => {
                        proof {
                            lemma_occ_count_lt(self.slots@, idx as int);
                        }
                        let ghost s0 = self.slots@;
                        self.slots.set(idx, Slot::Occupied { key, value, cached: h });
                        self.len = self.len + 1;
                        proof {
                            let sl = self.slots@[idx as int];
                            assert(slot_key(sl) == kv);
                            assert(slot_val(sl) == value);
                            lemma_place(s0, idx as int, sl);
                            assert(self@ == mid@.insert(kv, value));
                            assert(!mid@.dom().contains(kv));
                        }
                    },
                    FindResult::Blocked => {
                        proof {
                            if old(self).spec_len() <= 3
                                && old(self).spec_cap() <= usize::MAX / 2 {
                                // Growth was guaranteed here, and a blocked
                                // chain in the doubled array needs four live
                                // entries.
                                lemma_blocked_needs_four(*self, kv);
                                assert(false);
                            }
                        }
                    },
                }
            },
        }
    }

    /// Removes `key` if it is live: its slot becomes a tombstone (never
    /// `Empty`, so other keys' probe chains stay intact) and the live count
    /// drops by one.  Removing an absent key changes nothing.
    pub fn remove(&mut self, key: &Vec<u8>) -> (r: bool)
        requires
            old(self).wf(),
        ensures
            final(self).wf(),
            r == old(self)@.dom().contains(key@),
            final(self)@ == old(self)@.remove(key@),
            final(self).spec_cap() == old(self).spec_cap(),
            final(self).spec_len() as int == old(self).spec_len() as int
                - (if r { 1int } else { 0int }),
    {
        let h = fnv1a(key);
        match find_slot(&self.slots, key, h) {
            FindResult::Found { idx } => {
                proof {
                    lemma_found_value(self.slots@, key@, idx as int);
                    lemma_tombstone(self.slots@, idx as int);
                }
                self.slots.set(idx, Slot::Tombstone);
                self.len = self.len - 1;
                true
            },
            _ => {
                proof {
                    assert(self@.remove(key@) =~= self@);
                }
                false
            },
        }
    }
}

} // verus!
