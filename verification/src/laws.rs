//! Round-trip laws of the container, stated over the contents view that the
//! operations' contracts use.

use crate::handle::Elem;
use vstd::prelude::*;

verus! {

/// After a successful insertion of an element, the contents hold its key with
/// its metadata: a lookup that observes the insertion reports it present.
pub proof fn lemma_insert_then_contains(pre: Map<u64, u64>, e: Elem)
    ensures
        pre.insert(e.key, e.meta).dom().contains(e.key),
        pre.insert(e.key, e.meta)[e.key] == e.meta,
{
}

/// After a successful removal of a key, the contents no longer hold it: a
/// lookup that observes the removal reports the key absent.
pub proof fn lemma_remove_then_absent(pre: Map<u64, u64>, key: u64)
    ensures
        !pre.remove(key).dom().contains(key),
{
}

/// Inserting an absent element and then removing its key leaves the contents
/// unchanged from the caller's view.
pub proof fn lemma_insert_remove_round_trip(pre: Map<u64, u64>, e: Elem)
    requires
        !pre.dom().contains(e.key),
    ensures
        pre.insert(e.key, e.meta).remove(e.key) == pre,
{
    assert(pre.insert(e.key, e.meta).remove(e.key) =~= pre);
}

/// Removing a present key and reinserting the detached element is a no-op
/// with respect to the contents: after the removal the key is absent, so the
/// reinsertion succeeds and restores exactly the record that was detached.
pub proof fn lemma_remove_reinsert_round_trip(pre: Map<u64, u64>, key: u64)
    requires
        pre.dom().contains(key),
    ensures
        !pre.remove(key).dom().contains(key),
        pre.remove(key).insert(key, pre[key]) == pre,
{
    assert(pre.remove(key).insert(key, pre[key]) =~= pre);
}

} // verus!
