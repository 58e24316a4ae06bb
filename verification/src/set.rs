//! The set façade over the trie.
//!
//! All operations descend the trie on the element key's fingerprint. The
//! caller-visible contents are a map from key to metadata; membership is
//! decided by the key alone. Acceptance policies are caller closures consulted
//! with the candidate element and the stored colliding element, if any.

use crate::bits::lemma_low_zero;
use crate::handle::Elem;
use crate::handle::Insertion;
use crate::handle::Removed;
use crate::node::node_map;
use crate::node::node_seq;
use crate::node::node_wf;
use crate::node::node_elems;
use crate::node::node_get;
use crate::node::node_optimize;
use crate::node::node_remove;
use crate::node::node_upsert;
use crate::node::lemma_seq_map;
use crate::node::Node;
use vstd::prelude::*;

verus! {

/// The stored element a candidate key collides with, if any.
pub open spec fn stored_of(m: Map<u64, u64>, key: u64) -> Option<Elem> {
    if m.dom().contains(key) {
        Some(Elem { key, meta: m[key] })
    } else {
        None
    }
}

/// A builder of key fingerprints. The container requires of a fingerprint
/// only that equal keys map to equal fingerprints; this builder uses the key
/// itself, which in addition never lets two distinct keys share a fingerprint.
pub struct HashBuilder {}

impl HashBuilder {
    /// Builds the fingerprint builder.
    pub fn new() -> (b: HashBuilder)
        ensures
            b == (HashBuilder {}),
    {
        HashBuilder {}
    }

    /// The fingerprint of a key.
    pub fn fingerprint(&self, key: u64) -> (h: u64)
        ensures
            h == key,
    {
        key
    }
}

/// A set of elements keyed by a 64-bit key, carrying one metadata word each,
/// stored as a trie ordered by the key's fingerprint.
pub struct LockFreeSet {
    pub(crate) root: Node,
    pub(crate) builder: HashBuilder,
}

impl View for LockFreeSet {
    type V = Map<u64, u64>;

    /// The caller-visible contents: each member key with its metadata.
    closed spec fn view(&self) -> Map<u64, u64> {
        node_map(self.root)
    }
}

/// A scoped reader handle pinned to one record. While the guard is alive the
/// set cannot be mutated, so the record it exposes cannot be reclaimed.
pub struct ReadGuard<'a> {
    #[allow(dead_code)]
    origin: &'a LockFreeSet,
    elem: Elem,
}

impl<'a> View for ReadGuard<'a> {
    type V = Elem;

    closed spec fn view(&self) -> Elem {
        self.elem
    }
}

impl<'a> ReadGuard<'a> {
    /// The pinned element's key.
    pub fn key(&self) -> (k: u64)
        ensures
            k == self@.key,
    {
        self.elem.key
    }

    /// The pinned element's metadata.
    pub fn meta(&self) -> (m: u64)
        ensures
            m == self@.meta,
    {
        self.elem.meta
    }

    /// The pinned element.
    pub fn elem(&self) -> (e: Elem)
        ensures
            e == self@,
    {
        self.elem
    }
}

impl LockFreeSet {
    /// Well-formedness: every record sits on the descent path that its key's
    /// fingerprint spells from the root.
    pub closed spec fn wf(&self) -> bool {
        node_wf(self.root, 0, 0)
    }

    /// The records reachable by descent, in depth-first order.
    pub closed spec fn records(&self) -> Seq<(u64, u64)> {
        node_seq(self.root)
    }

    /// Creates an empty set with the default fingerprint builder.
    pub fn new() -> (s: Self)
        ensures
            s.wf(),
            s@ == Map::<u64, u64>::empty(),
    {
        let s = LockFreeSet { root: Node::Empty, builder: HashBuilder {} };
        proof {
            lemma_low_zero(0);
            assert(s@ =~= Map::<u64, u64>::empty());
        }
        s
    }

    /// Creates an empty set with the given fingerprint builder.
    pub fn with_hasher(builder: HashBuilder) -> (s: Self)
        ensures
            s.wf(),
            s@ == Map::<u64, u64>::empty(),
    {
        let s = LockFreeSet { root: Node::Empty, builder };
        proof {
            lemma_low_zero(0);
            assert(s@ =~= Map::<u64, u64>::empty());
        }
        s
    }

    /// The fingerprint builder this set descends with.
    pub fn hasher(&self) -> (b: &HashBuilder)
        ensures
            *b == (HashBuilder {}),
    {
        &self.builder
    }

    /// Publishes an element under its key unconditionally, handing back the
    /// metadata of the record it replaced, if any.
    fn upsert_root(&mut self, elem: Elem) -> (old_m: Option<u64>)
        requires
            old(self).wf(),
        ensures
            final(self).wf(),
            final(self)@ == old(self)@.insert(elem.key, elem.meta),
            match old_m {
                Some(m0) => old(self)@.dom().contains(elem.key) && old(self)@[elem.key] == m0,
                None => !old(self)@.dom().contains(elem.key),
            },
    {
        proof {
            lemma_low_zero(elem.key);
        }
        let mut root = Node::Empty;
        core::mem::swap(&mut self.root, &mut root);
        let (nroot, old_m) = node_upsert(root, elem.key, elem.meta, 0);
        self.root = nroot;
        old_m
    }

    /// Detaches the record under a key, handing back its metadata, if any.
    fn remove_root(&mut self, key: u64) -> (old_m: Option<u64>)
        requires
            old(self).wf(),
        ensures
            final(self).wf(),
            final(self)@ == old(self)@.remove(key),
            match old_m {
                Some(m0) => old(self)@.dom().contains(key) && old(self)@[key] == m0,
                None => !old(self)@.dom().contains(key),
            },
    {
        proof {
            lemma_low_zero(key);
        }
        let mut root = Node::Empty;
        core::mem::swap(&mut self.root, &mut root);
        let (nroot, old_m) = node_remove(root, key, 0);
        self.root = nroot;
        old_m
    }

    /// Tests whether an element with the given key is present.
    pub fn contains(&self, key: u64) -> (b: bool)
        requires
            self.wf(),
        ensures
            b == self@.dom().contains(key),
    {
        proof {
            lemma_low_zero(key);
        }
        node_get(&self.root, key, 0).is_some()
    }

    /// Looks the element with the given key up and pins it behind a reader
    /// guard, so that it cannot be reclaimed while the guard is alive.
    pub fn get(&self, key: u64) -> (r: Option<ReadGuard<'_>>)
        requires
            self.wf(),
        ensures
            r matches Some(g) ==> self@.dom().contains(key) && g@ == (Elem {
                key,
                meta: self@[key],
            }),
            r is None ==> !self@.dom().contains(key),
    {
        proof {
            lemma_low_zero(key);
        }
        match node_get(&self.root, key, 0) {
            Some(m) => Some(ReadGuard { origin: self, elem: Elem { key, meta: m } }),
            None => None,
        }
    }

    /// Inserts an element. Fails exactly when an element with the same key is
    /// already present, handing the rejected element back.
    pub fn insert(&mut self, elem: Elem) -> (r: Result<(), Elem>)
        requires
            old(self).wf(),
        ensures
            final(self).wf(),
            old(self)@.dom().contains(elem.key) ==> r == Err::<(), Elem>(elem) && final(self)@
                == old(self)@,
            !old(self)@.dom().contains(elem.key) ==> r == Ok::<(), Elem>(()) && final(self)@ == old(self)@.insert(elem.key, elem.meta),
    {
        if self.contains(elem.key) {
            Err(elem)
        } else {
            self.upsert_root(elem);
            Ok(())
        }
    }

    /// Inserts an element interactively: the acceptance closure is consulted
    /// with the element and the stored colliding element, if any, and decides
    /// whether to proceed. A declined insertion performs nothing and hands the
    /// element back; an accepted one creates the element or replaces the
    /// collider, handing the replaced record back detached. With a policy
    /// that always accepts, a present key is always updated and an absent key
    /// is always created.
    pub fn insert_with<F: Fn(Elem, Option<Elem>) -> bool>(&mut self, elem: Elem, accept: F) -> (r:
        Insertion<Elem>)
        requires
            old(self).wf(),
            call_requires(accept, (elem, stored_of(old(self)@, elem.key))),
        ensures
            final(self).wf(),
            r is Created ==> !old(self)@.dom().contains(elem.key) && final(self)@ == old(self)@.insert(elem.key, elem.meta) && call_ensures(
                accept,
                (elem, stored_of(old(self)@, elem.key)),
                true,
            ),
            r matches Insertion::Updated(prior) ==> old(self)@.dom().contains(elem.key) && prior@
                == (Elem { key: elem.key, meta: old(self)@[elem.key] }) && final(self)@ == old(self)@.insert(elem.key, elem.meta) && call_ensures(
                accept,
                (elem, stored_of(old(self)@, elem.key)),
                true,
            ),
            r matches Insertion::Failed(e) ==> e == elem && final(self)@ == old(self)@
                && call_ensures(accept, (elem, stored_of(old(self)@, elem.key)), false),
            old(self)@.dom().contains(elem.key) ==> !(r is Created),
            !old(self)@.dom().contains(elem.key) ==> !(r is Updated),
            (forall|x: Elem, s: Option<Elem>, b: bool| call_ensures(accept, (x, s), b) ==> b) ==> (
            if old(self)@.dom().contains(elem.key) {
                r is Updated
            } else {
                r is Created
            }),
    {
        proof {
            lemma_low_zero(elem.key);
        }
        let stored: Option<Elem> = match node_get(&self.root, elem.key, 0) {
            Some(m) => Some(Elem { key: elem.key, meta: m }),
            None => None,
        };
        if accept(elem, stored) {
            match self.upsert_root(elem) {
                None => Insertion::Created,
                Some(m0) => Insertion::Updated(Removed::make(Elem { key: elem.key, meta: m0 })),
            }
        } else {
            Insertion::Failed(elem)
        }
    }

    /// Removes the element with the given key unconditionally, handing it
    /// back detached, or nothing where the key is absent.
    pub fn remove(&mut self, key: u64) -> (r: Option<Removed>)
        requires
            old(self).wf(),
        ensures
            final(self).wf(),
            r matches Some(x) ==> old(self)@.dom().contains(key) && x@ == (Elem {
                key,
                meta: old(self)@[key],
            }) && final(self)@ == old(self)@.remove(key),
            r is None ==> !old(self)@.dom().contains(key) && final(self)@ == old(self)@,
            (r is Some) == old(self)@.dom().contains(key),
    {
        proof {
            if !old(self)@.dom().contains(key) {
                assert(old(self)@.remove(key) =~= old(self)@);
            }
        }
        match self.remove_root(key) {
            Some(m0) => Some(Removed::make(Elem { key, meta: m0 })),
            None => None,
        }
    }

    /// Removes interactively: the acceptance closure is consulted with the
    /// stored element and decides whether the removal happens. Hands back
    /// nothing where the key is absent or the closure declined.
    pub fn remove_with<F: Fn(Elem) -> bool>(&mut self, key: u64, accept: F) -> (r: Option<Removed>)
        requires
            old(self).wf(),
            old(self)@.dom().contains(key) ==> call_requires(
                accept,
                ((Elem { key, meta: old(self)@[key] }),),
            ),
        ensures
            final(self).wf(),
            r matches Some(x) ==> old(self)@.dom().contains(key) && x@ == (Elem {
                key,
                meta: old(self)@[key],
            }) && final(self)@ == old(self)@.remove(key) && call_ensures(accept, (x@,), true),
            r is None ==> final(self)@ == old(self)@ && (!old(self)@.dom().contains(key)
                || call_ensures(accept, ((Elem { key, meta: old(self)@[key] }),), false)),
    {
        proof {
            lemma_low_zero(key);
        }
        let stored_m = match node_get(&self.root, key, 0) {
            Some(m) => m,
            None => {
                return None;
            },
        };
        if accept(Elem { key, meta: stored_m }) {
            match self.remove_root(key) {
                Some(m0) => Some(Removed::make(Elem { key, meta: m0 })),
                None => None,
            }
        } else {
            None
        }
    }

    /// Reinserts a previously removed element, preserving its record. Fails
    /// exactly when an element with the same key is already present, handing
    /// the detached element back intact.
    pub fn reinsert(&mut self, removed: Removed) -> (r: Result<(), Removed>)
        requires
            old(self).wf(),
        ensures
            final(self).wf(),
            old(self)@.dom().contains(removed@.key) ==> (r matches Err(x) && x == removed && final(self)@ == old(self)@),
            !old(self)@.dom().contains(removed@.key) ==> r is Ok && final(self)@ == old(self)@.insert(removed@.key, removed@.meta),
    {
        if self.contains(removed.key()) {
            Err(removed)
        } else {
            self.upsert_root(removed.elem());
            Ok(())
        }
    }

    /// Reinserts a previously removed element interactively: the acceptance
    /// closure is consulted with the detached element and the stored
    /// colliding element, if any. A declined reinsertion hands the detached
    /// element back intact; an accepted one republishes it, handing back the
    /// record it replaced, if any.
    pub fn reinsert_with<F: Fn(Elem, Option<Elem>) -> bool>(
        &mut self,
        removed: Removed,
        accept: F,
    ) -> (r: Insertion<Removed>)
        requires
            old(self).wf(),
            call_requires(accept, (removed@, stored_of(old(self)@, removed@.key))),
        ensures
            final(self).wf(),
            r is Created ==> !old(self)@.dom().contains(removed@.key) && final(self)@ == old(self)@.insert(removed@.key, removed@.meta) && call_ensures(
                accept,
                (removed@, stored_of(old(self)@, removed@.key)),
                true,
            ),
            r matches Insertion::Updated(prior) ==> old(self)@.dom().contains(removed@.key)
                && prior@ == (Elem { key: removed@.key, meta: old(self)@[removed@.key] }) && final(self)@ == old(self)@.insert(removed@.key, removed@.meta) && call_ensures(
                accept,
                (removed@, stored_of(old(self)@, removed@.key)),
                true,
            ),
            r matches Insertion::Failed(x) ==> x == removed && final(self)@ == old(self)@
                && call_ensures(accept, (removed@, stored_of(old(self)@, removed@.key)), false),
            old(self)@.dom().contains(removed@.key) ==> !(r is Created),
            !old(self)@.dom().contains(removed@.key) ==> !(r is Updated),
    {
        proof {
            lemma_low_zero(removed@.key);
        }
        let elem = removed.elem();
        let stored: Option<Elem> = match node_get(&self.root, elem.key, 0) {
            Some(m) => Some(Elem { key: elem.key, meta: m }),
            None => None,
        };
        if accept(elem, stored) {
            match self.upsert_root(elem) {
                None => Insertion::Created,
                Some(m0) => Insertion::Updated(Removed::make(Elem { key: elem.key, meta: m0 })),
            }
        } else {
            Insertion::Failed(removed)
        }
    }

    /// Collapses interior tables whose reachable records fit at shallower
    /// depth. Requires exclusive access; no reachable element is lost or
    /// changed.
    pub fn optimize_space(&mut self)
        requires
            old(self).wf(),
        ensures
            final(self).wf(),
            final(self)@ == old(self)@,
    {
        let mut root = Node::Empty;
        core::mem::swap(&mut self.root, &mut root);
        let nroot = node_optimize(root, Ghost(0), Ghost(0));
        self.root = nroot;
    }

    /// Removes all elements. Requires exclusive access.
    pub fn clear(&mut self)
        requires
            old(self).wf(),
        ensures
            final(self).wf(),
            final(self)@ == Map::<u64, u64>::empty(),
    {
        self.root = Node::Empty;
        proof {
            lemma_low_zero(0);
            assert(self@ =~= Map::<u64, u64>::empty());
        }
    }

    /// Creates an iterator over the elements, yielding a reader guard for
    /// each record. One pass yields every record present for the whole pass
    /// exactly once.
    pub fn iter(&self) -> (it: Iter<'_>)
        requires
            self.wf(),
        ensures
            it.wf(),
            it.remaining() == self.records(),
            it.contents() == self@,
    {
        let elems = node_elems(&self.root);
        Iter { origin: self, elems, pos: 0 }
    }
}

/// A depth-first iterator over the elements of a set, yielding reader guards.
pub struct Iter<'a> {
    origin: &'a LockFreeSet,
    elems: Vec<(u64, u64)>,
    pos: usize,
}

impl<'a> Iter<'a> {
    /// The records not yet yielded, in the order they will come out.
    pub closed spec fn remaining(&self) -> Seq<(u64, u64)> {
        self.elems@.skip(self.pos as int)
    }

    /// The contents of the set the iterator walks.
    pub closed spec fn contents(&self) -> Map<u64, u64> {
        node_map(self.origin.root)
    }

    /// The iterator walks the records of a well-formed set in depth-first
    /// order, never past the end.
    pub closed spec fn wf(&self) -> bool {
        &&& self.pos <= self.elems@.len()
        &&& self.elems@ == node_seq(self.origin.root)
        &&& node_wf(self.origin.root, 0, 0)
    }

    /// Yields a guard for the next record, or nothing when the pass is done.
    /// Each yielded record leaves the remaining sequence, so no record is
    /// yielded twice within one pass.
    pub fn next(&mut self) -> (r: Option<ReadGuard<'a>>)
        requires
            old(self).wf(),
        ensures
            final(self).wf(),
            final(self).contents() == old(self).contents(),
            old(self).remaining().len() > 0 ==> (r matches Some(g) && g@ == (Elem {
                key: old(self).remaining()[0].0,
                meta: old(self).remaining()[0].1,
            }) && final(self).remaining() == old(self).remaining().skip(1)),
            old(self).remaining().len() == 0 ==> r is None && final(self).remaining() == old(self).remaining(),
    {
        if self.pos < self.elems.len() {
            let e = self.elems[self.pos];
            self.pos = self.pos + 1;
            proof {
                assert(self.elems@.skip(self.pos as int) =~= old(self).remaining().skip(1));
            }
            Some(ReadGuard { origin: self.origin, elem: Elem { key: e.0, meta: e.1 } })
        } else {
            None
        }
    }
}

/// No two records with equal keys are simultaneously reachable by descent: in
/// a well-formed set the reachable records carry pairwise distinct keys, each
/// record is a member of the contents under its key, and every member is
/// reachable.
pub proof fn lemma_records_distinct(s: &LockFreeSet)
    requires
        s.wf(),
    ensures
        forall|i: int, j: int|
            0 <= i < j < s.records().len() ==> (#[trigger] s.records()[i]).0 != (
            #[trigger] s.records()[j]).0,
        forall|i: int|
            0 <= i < s.records().len() ==> s@.dom().contains((#[trigger] s.records()[i]).0)
                && s@[s.records()[i].0] == s.records()[i].1,
        forall|k: u64| #[trigger] s@.dom().contains(k) ==> s.records().contains((k, s@[k])),
{
    lemma_seq_map(s.root, 0, 0);
}

/// No element is yielded twice within one iterator pass: the records a pass
/// has yet to yield carry pairwise distinct keys, and each yield takes its
/// record out of the remaining sequence.
pub proof fn lemma_pass_distinct<'a>(it: &Iter<'a>)
    requires
        it.wf(),
    ensures
        forall|i: int, j: int|
            0 <= i < j < it.remaining().len() ==> (#[trigger] it.remaining()[i]).0 != (
            #[trigger] it.remaining()[j]).0,
        forall|i: int|
            0 <= i < it.remaining().len() ==> it.contents().dom().contains(
                (#[trigger] it.remaining()[i]).0,
            ) && it.contents()[it.remaining()[i].0] == it.remaining()[i].1,
{
    lemma_seq_map(it.origin.root, 0, 0);
    let s = it.elems@;
    let p = it.pos as int;
    assert forall|i: int, j: int| 0 <= i < j < it.remaining().len() implies (
    #[trigger] it.remaining()[i]).0 != (#[trigger] it.remaining()[j]).0 by {
        assert(it.remaining()[i] == s[p + i]);
        assert(it.remaining()[j] == s[p + j]);
    }
    assert forall|i: int| 0 <= i < it.remaining().len() implies it.contents().dom().contains(
        (#[trigger] it.remaining()[i]).0,
    ) && it.contents()[it.remaining()[i].0] == it.remaining()[i].1 by {
        assert(it.remaining()[i] == s[p + i]);
    }
}

impl Default for LockFreeSet {
    /// An empty set with the default fingerprint builder.
    fn default() -> (s: Self)
        ensures
            s.wf(),
            s@ == Map::<u64, u64>::empty(),
    {
        LockFreeSet::new()
    }
}

} // verus!
