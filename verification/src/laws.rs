//! General laws of the table, stated over its view (the map from live keys
//! to values) and proved once and for all.
//!
//! The operations' own contracts tie each call to a `Map` operation on the
//! view (`insert`, `remove`), so these laws, together with those contracts,
//! cover whole sequences of calls.

use vstd::prelude::*;

verus! {

/// The view after a sequence of insertions, applied left to right.
pub open spec fn apply_inserts<V>(m: Map<Seq<u8>, V>, ops: Seq<(Seq<u8>, V)>) -> Map<Seq<u8>, V>
    decreases ops.len(),
{
    if ops.len() == 0 {
        m
    } else {
        apply_inserts(m, ops.drop_last()).insert(ops.last().0, ops.last().1)
    }
}

/// After any sequence of insertions, a key that is never written again after
/// position `i` is live and holds the value written at position `i` — its
/// last-written value.  With unique keys this covers every insertion.
pub proof fn law_last_write_wins<V>(m: Map<Seq<u8>, V>, ops: Seq<(Seq<u8>, V)>, i: int)
    requires
        0 <= i < ops.len(),
        forall|j: int| #![trigger ops[j]] i < j < ops.len() ==> ops[j].0 != ops[i].0,
    ensures
        apply_inserts(m, ops).dom().contains(ops[i].0),
        apply_inserts(m, ops)[ops[i].0] == ops[i].1,
    decreases ops.len(),
{
    if i < ops.len() - 1 {
        law_last_write_wins(m, ops.drop_last(), i);
        assert(ops.drop_last()[i] == ops[i]);
    }
}

/// Inserting a key twice leaves the second value and adds no second entry:
/// the view, and so the set of live keys, is as if only the second insertion
/// of that key had happened.
pub proof fn law_update_in_place<V>(m: Map<Seq<u8>, V>, k: Seq<u8>, v1: V, v2: V)
    ensures
        m.insert(k, v1).insert(k, v2) == m.insert(k, v2),
        m.insert(k, v1).insert(k, v2)[k] == v2,
        m.insert(k, v1).insert(k, v2).dom() == m.insert(k, v1).dom(),
{
    assert(m.insert(k, v1).insert(k, v2) =~= m.insert(k, v2));
    assert(m.insert(k, v2).dom() =~= m.insert(k, v1).dom());
}

/// After a removal the removed key is gone, while every other live key still
/// resolves to its value.
pub proof fn law_remove_then_get<V>(m: Map<Seq<u8>, V>, k: Seq<u8>, k2: Seq<u8>)
    requires
        k2 != k,
    ensures
        !m.remove(k).dom().contains(k),
        m.dom().contains(k2) ==> m.remove(k).dom().contains(k2) && m.remove(k)[k2] == m[k2],
{
}

/// Removing an absent key changes nothing: the view keeps every entry.
pub proof fn law_remove_absent<V>(m: Map<Seq<u8>, V>, k: Seq<u8>)
    requires
        !m.dom().contains(k),
    ensures
        m.remove(k) == m,
{
    assert(m.remove(k) =~= m);
}

} // verus!
