//! The hash-ordered trie.
//!
//! A node is either an empty slot, a leaf holding one element record, or an
//! interior point with two children. Descent at level `d` consumes bit `d` of
//! the element key's fingerprint, so every record sits on the path its
//! fingerprint spells, and records with equal keys can never be reachable
//! twice. The trie grows locally where two records collide and is collapsed
//! only by the exclusive space optimisation.

use crate::bits::bit_at;
use crate::bits::lemma_bit_cases;
use crate::bits::lemma_child_paths;
use crate::bits::lemma_fits_step;
use crate::bits::lemma_low_all;
use crate::bits::lemma_mask_nest;
use crate::bits::lemma_path_left;
use crate::bits::lemma_path_right;
use crate::bits::low;
use crate::bits::mask;
use vstd::prelude::*;

verus! {

/// One slot of the trie: empty, one element record (key and metadata word),
/// or a deeper interior point.
pub enum Node {
    Empty,
    Leaf(u64, u64),
    Branch(Box<Node>, Box<Node>),
}

/// The records reachable below a node, as a map from key to metadata.
pub open spec fn node_map(n: Node) -> Map<u64, u64>
    decreases n,
{
    match n {
        Node::Empty => Map::empty(),
        Node::Leaf(k, m) => Map::empty().insert(k, m),
        Node::Branch(l, r) => node_map(*l).union_prefer_right(node_map(*r)),
    }
}

/// The records reachable below a node, in depth-first order.
pub open spec fn node_seq(n: Node) -> Seq<(u64, u64)>
    decreases n,
{
    match n {
        Node::Empty => Seq::empty(),
        Node::Leaf(k, m) => seq![(k, m)],
        Node::Branch(l, r) => node_seq(*l) + node_seq(*r),
    }
}

/// Well-formedness of a subtree rooted at depth `d` under path `p`: the path
/// fits in `d` bits, every leaf's fingerprint extends the path, and the two
/// children of an interior point extend it by a zero and a one bit.
pub open spec fn node_wf(n: Node, d: nat, p: u64) -> bool
    decreases n,
{
    &&& p & mask(d) == p
    &&& match n {
        Node::Empty => true,
        Node::Leaf(k, m) => d <= 64 && low(k, d) == p,
        Node::Branch(l, r) => {
            &&& d < 64
            &&& node_wf(*l, d + 1, p)
            &&& node_wf(*r, d + 1, p | (1u64 << d as u64))
        },
    }
}

/// Every record below a well-formed subtree carries the subtree's path.
pub proof fn lemma_wf_keys(n: Node, d: nat, p: u64)
    requires
        node_wf(n, d, p),
    ensures
        forall|k: u64| #[trigger] node_map(n).dom().contains(k) ==> low(k, d) == p,
    decreases n,
{
    match n {
        Node::Empty => {},
        Node::Leaf(k0, m0) => {},
        Node::Branch(l, r) => {
            let q = p | (1u64 << d as u64);
            lemma_wf_keys(*l, d + 1, p);
            lemma_wf_keys(*r, d + 1, q);
            lemma_child_paths(p, d);
            assert forall|k: u64| #[trigger] node_map(n).dom().contains(k) implies low(k, d)
                == p by {
                lemma_mask_nest(k, d);
                if node_map(*l).dom().contains(k) {
                } else {
                    assert(node_map(*r).dom().contains(k));
                }
            }
        },
    }
}

/// The two subtrees below an interior point hold no key in common.
pub proof fn lemma_children_disjoint(l: Node, r: Node, d: nat, p: u64)
    requires
        d < 64,
        node_wf(l, d + 1, p),
        node_wf(r, d + 1, p | (1u64 << d as u64)),
        p & mask(d) == p,
    ensures
        forall|k: u64| #[trigger] node_map(l).dom().contains(k) ==> !node_map(r).dom().contains(k),
{
    lemma_wf_keys(l, d + 1, p);
    lemma_wf_keys(r, d + 1, p | (1u64 << d as u64));
    lemma_child_paths(p, d);
}

/// The depth-first record listing of a well-formed subtree carries exactly
/// the reachable records, each key once.
pub proof fn lemma_seq_map(n: Node, d: nat, p: u64)
    requires
        node_wf(n, d, p),
    ensures
        forall|i: int|
            0 <= i < node_seq(n).len() ==> node_map(n).dom().contains(#[trigger] node_seq(n)[i].0)
                && node_map(n)[node_seq(n)[i].0] == node_seq(n)[i].1,
        forall|k: u64| #[trigger]
            node_map(n).dom().contains(k) ==> node_seq(n).contains((k, node_map(n)[k])),
        forall|i: int, j: int|
            0 <= i < j < node_seq(n).len() ==> (#[trigger] node_seq(n)[i]).0 != (#[trigger] node_seq(
                n,
            )[j]).0,
    decreases n,
{
    match n {
        Node::Empty => {},
        Node::Leaf(k0, m0) => {
            assert(node_seq(n)[0] == (k0, m0));
            assert forall|k: u64| #[trigger] node_map(n).dom().contains(k) implies node_seq(
                n,
            ).contains((k, node_map(n)[k])) by {
                assert(k == k0);
                assert(node_seq(n)[0] == (k, node_map(n)[k]));
            }
        },
        Node::Branch(l, r) => {
            let q = p | (1u64 << d as u64);
            lemma_seq_map(*l, d + 1, p);
            lemma_seq_map(*r, d + 1, q);
            lemma_children_disjoint(*l, *r, d, p);
            let sl = node_seq(*l);
            let sr = node_seq(*r);
            let s = node_seq(n);
            assert forall|i: int|
                0 <= i < s.len() implies node_map(n).dom().contains(#[trigger] s[i].0) && node_map(
                n,
            )[s[i].0] == s[i].1 by {
                if i < sl.len() {
                    assert(s[i] == sl[i]);
                } else {
                    assert(s[i] == sr[i - sl.len()]);
                }
            }
            assert forall|k: u64| #[trigger] node_map(n).dom().contains(k) implies s.contains(
                (k, node_map(n)[k]),
            ) by {
                if node_map(*r).dom().contains(k) {
                    let e = (k, node_map(*r)[k]);
                    let j = choose|j: int| 0 <= j < sr.len() && sr[j] == e;
                    assert(s[sl.len() + j] == e);
                } else {
                    assert(node_map(*l).dom().contains(k));
                    let e = (k, node_map(*l)[k]);
                    let j = choose|j: int| 0 <= j < sl.len() && sl[j] == e;
                    assert(s[j] == e);
                }
            }
            assert forall|i: int, j: int| 0 <= i < j < s.len() implies (#[trigger] s[i]).0 != (
            #[trigger] s[j]).0 by {
                if i < sl.len() && j >= sl.len() {
                    assert(s[i] == sl[i]);
                    assert(s[j] == sr[j - sl.len()]);
                    assert(node_map(*l).dom().contains(s[i].0));
                    assert(node_map(*r).dom().contains(s[j].0));
                } else if i >= sl.len() {
                    assert(s[i] == sr[i - sl.len()]);
                    assert(s[j] == sr[j - sl.len()]);
                } else {
                    assert(s[i] == sl[i]);
                    assert(s[j] == sl[j]);
                }
            }
        },
    }
}

/// Looks a key up by descending the trie along its fingerprint.
pub fn node_get(n: &Node, k: u64, d: usize) -> (r: Option<u64>)
    requires
        d <= 64,
        node_wf(*n, d as nat, low(k, d as nat)),
    ensures
        match r {
            Some(m) => node_map(*n).dom().contains(k) && node_map(*n)[k] == m,
            None => !node_map(*n).dom().contains(k),
        },
    decreases *n,
{
    match n {
        Node::Empty => None,
        Node::Leaf(k0, m0) => {
            if *k0 == k {
                Some(*m0)
            } else {
                None
            }
        },
        Node::Branch(l, r) => {
            let ghost dn = d as nat;
            let ghost p = low(k, dn);
            let ghost lv = **l;
            let ghost rv = **r;
            proof {
                assert(node_map(*n) == node_map(lv).union_prefer_right(node_map(rv)));
                lemma_bit_cases(k, dn);
                lemma_child_paths(p, dn);
                lemma_wf_keys(lv, dn + 1, p);
                lemma_wf_keys(rv, dn + 1, p | (1u64 << d as u64));
                if bit_at(k, dn) == 0 {
                    lemma_path_left(k, dn);
                } else {
                    lemma_path_right(k, dn);
                }
            }
            let b = (k >> (d as u64)) & 1;
            if b == 0 {
                let res = node_get(&**l, k, d + 1);
                proof {
                    if node_map(rv).dom().contains(k) {
                        assert(low(k, dn + 1) == p | (1u64 << d as u64));
                    }
                }
                res
            } else {
                let res = node_get(&**r, k, d + 1);
                proof {
                    if node_map(lv).dom().contains(k) {
                        assert(low(k, dn + 1) == p);
                    }
                }
                res
            }
        },
    }
}

/// Builds the smallest subtree that holds two records whose fingerprints
/// agree on the path down to level `d`.
fn make_split(k0: u64, m0: u64, k: u64, m: u64, d: usize) -> (n: Node)
    requires
        d <= 64,
        k0 != k,
        low(k0, d as nat) == low(k, d as nat),
        low(k, d as nat) & mask(d as nat) == low(k, d as nat),
    ensures
        node_wf(n, d as nat, low(k, d as nat)),
        node_map(n) == Map::<u64, u64>::empty().insert(k0, m0).insert(k, m),
    decreases 64 - d,
{
    let ghost dn = d as nat;
    let ghost p = low(k, dn);
    proof {
        if d == 64 {
            lemma_low_all(k0);
            lemma_low_all(k);
        }
        lemma_bit_cases(k0, dn);
        lemma_bit_cases(k, dn);
        lemma_child_paths(p, dn);
        lemma_fits_step(p, dn);
        if bit_at(k0, dn) == 0 {
            lemma_path_left(k0, dn);
        } else {
            lemma_path_right(k0, dn);
        }
        if bit_at(k, dn) == 0 {
            lemma_path_left(k, dn);
        } else {
            lemma_path_right(k, dn);
        }
    }
    let b0 = (k0 >> (d as u64)) & 1;
    let b = (k >> (d as u64)) & 1;
    if b0 != b {
        let n = if b == 1 {
            Node::Branch(Box::new(Node::Leaf(k0, m0)), Box::new(Node::Leaf(k, m)))
        } else {
            Node::Branch(Box::new(Node::Leaf(k, m)), Box::new(Node::Leaf(k0, m0)))
        };
        proof {
            reveal_with_fuel(node_map, 3);
            reveal_with_fuel(node_wf, 3);
            assert(node_map(n) =~= Map::<u64, u64>::empty().insert(k0, m0).insert(k, m));
        }
        n
    } else {
        let child = make_split(k0, m0, k, m, d + 1);
        let n = if b == 1 {
            Node::Branch(Box::new(Node::Empty), Box::new(child))
        } else {
            Node::Branch(Box::new(child), Box::new(Node::Empty))
        };
        proof {
            reveal_with_fuel(node_map, 3);
            reveal_with_fuel(node_wf, 3);
            assert(node_map(n) =~= Map::<u64, u64>::empty().insert(k0, m0).insert(k, m));
        }
        n
    }
}

/// Publishes a record under its key, replacing the record already under the
/// key if there is one, and hands its metadata back.
pub fn node_upsert(n: Node, k: u64, m: u64, d: usize) -> (res: (Node, Option<u64>))
    requires
        d <= 64,
        node_wf(n, d as nat, low(k, d as nat)),
    ensures
        node_wf(res.0, d as nat, low(k, d as nat)),
        node_map(res.0) == node_map(n).insert(k, m),
        match res.1 {
            Some(old_m) => node_map(n).dom().contains(k) && node_map(n)[k] == old_m,
            None => !node_map(n).dom().contains(k),
        },
    decreases n,
{
    let ghost dn = d as nat;
    let ghost p = low(k, dn);
    match n {
        Node::Empty => {
            let leaf = Node::Leaf(k, m);
            proof {
                assert(node_map(leaf) =~= node_map(Node::Empty).insert(k, m));
            }
            (leaf, None)
        },
        Node::Leaf(k0, m0) => {
            if k0 == k {
                let leaf = Node::Leaf(k, m);
                proof {
                    assert(node_map(leaf) =~= node_map(Node::Leaf(k0, m0)).insert(k, m));
                    assert(node_map(Node::Leaf(k0, m0))[k] == m0);
                }
                (leaf, Some(m0))
            } else {
                let split = make_split(k0, m0, k, m, d);
                proof {
                    assert(node_map(split) =~= node_map(Node::Leaf(k0, m0)).insert(k, m));
                }
                (split, None)
            }
        },
        Node::Branch(l, r) => {
            let ghost q = p | (1u64 << d as u64);
            let ghost lv = *l;
            let ghost rv = *r;
            proof {
                assert(node_map(n) == node_map(lv).union_prefer_right(node_map(rv)));
                lemma_bit_cases(k, dn);
                lemma_wf_keys(lv, dn + 1, p);
                lemma_wf_keys(rv, dn + 1, q);
                lemma_child_paths(p, dn);
                if bit_at(k, dn) == 0 {
                    lemma_path_left(k, dn);
                } else {
                    lemma_path_right(k, dn);
                }
            }
            let b = (k >> (d as u64)) & 1;
            if b == 0 {
                let (nl, old_m) = node_upsert(*l, k, m, d + 1);
                let out = Node::Branch(Box::new(nl), r);
                proof {
                    if node_map(rv).dom().contains(k) {
                        assert(low(k, dn + 1) == q);
                    }
                    assert(node_map(out) == node_map(nl).union_prefer_right(node_map(rv)));
                    assert(node_map(out) =~= node_map(n).insert(k, m));
                    assert(node_wf(out, dn, p));
                }
                (out, old_m)
            } else {
                let (nr, old_m) = node_upsert(*r, k, m, d + 1);
                let out = Node::Branch(l, Box::new(nr));
                proof {
                    if node_map(lv).dom().contains(k) {
                        assert(low(k, dn + 1) == p);
                    }
                    assert(node_map(out) == node_map(lv).union_prefer_right(node_map(nr)));
                    assert(node_map(out) =~= node_map(n).insert(k, m));
                    assert(node_wf(out, dn, p));
                }
                (out, old_m)
            }
        },
    }
}

/// Detaches the record under a key, if any, and hands its metadata back.
/// Interior points are never collapsed here.
pub fn node_remove(n: Node, k: u64, d: usize) -> (res: (Node, Option<u64>))
    requires
        d <= 64,
        node_wf(n, d as nat, low(k, d as nat)),
    ensures
        node_wf(res.0, d as nat, low(k, d as nat)),
        node_map(res.0) == node_map(n).remove(k),
        match res.1 {
            Some(old_m) => node_map(n).dom().contains(k) && node_map(n)[k] == old_m,
            None => !node_map(n).dom().contains(k),
        },
    decreases n,
{
    let ghost dn = d as nat;
    let ghost p = low(k, dn);
    match n {
        Node::Empty => {
            proof {
                assert(node_map(Node::Empty) =~= node_map(Node::Empty).remove(k));
            }
            (Node::Empty, None)
        },
        Node::Leaf(k0, m0) => {
            if k0 == k {
                proof {
                    assert(node_map(Node::Empty) =~= node_map(Node::Leaf(k0, m0)).remove(k));
                    assert(node_map(Node::Leaf(k0, m0))[k] == m0);
                }
                (Node::Empty, Some(m0))
            } else {
                proof {
                    assert(node_map(Node::Leaf(k0, m0)) =~= node_map(Node::Leaf(k0, m0)).remove(
                        k,
                    ));
                }
                (Node::Leaf(k0, m0), None)
            }
        },
        Node::Branch(l, r) => {
            let ghost q = p | (1u64 << d as u64);
            let ghost lv = *l;
            let ghost rv = *r;
            proof {
                assert(node_map(n) == node_map(lv).union_prefer_right(node_map(rv)));
                lemma_bit_cases(k, dn);
                lemma_wf_keys(lv, dn + 1, p);
                lemma_wf_keys(rv, dn + 1, q);
                lemma_child_paths(p, dn);
                if bit_at(k, dn) == 0 {
                    lemma_path_left(k, dn);
                } else {
                    lemma_path_right(k, dn);
                }
            }
            let b = (k >> (d as u64)) & 1;
            if b == 0 {
                let (nl, old_m) = node_remove(*l, k, d + 1);
                let out = Node::Branch(Box::new(nl), r);
                proof {
                    if node_map(rv).dom().contains(k) {
                        assert(low(k, dn + 1) == q);
                    }
                    assert(node_map(out) == node_map(nl).union_prefer_right(node_map(rv)));
                    assert(node_map(out) =~= node_map(n).remove(k));
                    assert(node_wf(out, dn, p));
                }
                (out, old_m)
            } else {
                let (nr, old_m) = node_remove(*r, k, d + 1);
                let out = Node::Branch(l, Box::new(nr));
                proof {
                    if node_map(lv).dom().contains(k) {
                        assert(low(k, dn + 1) == p);
                    }
                    assert(node_map(out) == node_map(lv).union_prefer_right(node_map(nr)));
                    assert(node_map(out) =~= node_map(n).remove(k));
                    assert(node_wf(out, dn, p));
                }
                (out, old_m)
            }
        },
    }
}

/// Collapses interior points whose reachable records fit at shallower depth.
/// No reachable record is lost or changed.
pub fn node_optimize(n: Node, Ghost(d): Ghost<nat>, Ghost(p): Ghost<u64>) -> (r: Node)
    requires
        node_wf(n, d, p),
    ensures
        node_wf(r, d, p),
        node_map(r) == node_map(n),
    decreases n,
{
    match n {
        Node::Empty => Node::Empty,
        Node::Leaf(k0, m0) => Node::Leaf(k0, m0),
        Node::Branch(l, r) => {
            let ghost q = p | (1u64 << d as u64);
            let lo = node_optimize(*l, Ghost(d + 1), Ghost(p));
            let ro = node_optimize(*r, Ghost(d + 1), Ghost(q));
            proof {
                lemma_child_paths(p, d);
            }
            match (lo, ro) {
                (Node::Leaf(k0, m0), Node::Empty) => {
                    proof {
                        lemma_mask_nest(k0, d);
                        assert(node_map(Node::Leaf(k0, m0)) =~= node_map(n));
                    }
                    Node::Leaf(k0, m0)
                },
                (Node::Empty, Node::Leaf(k0, m0)) => {
                    proof {
                        lemma_mask_nest(k0, d);
                        assert(node_map(Node::Leaf(k0, m0)) =~= node_map(n));
                    }
                    Node::Leaf(k0, m0)
                },
                (Node::Empty, Node::Empty) => {
                    proof {
                        assert(node_map(Node::Empty) =~= node_map(n));
                    }
                    Node::Empty
                },
                (a, b) => {
                    let out = Node::Branch(Box::new(a), Box::new(b));
                    proof {
                        assert(node_map(out) =~= node_map(n));
                    }
                    out
                },
            }
        },
    }
}

/// Lists the reachable records in depth-first order.
pub fn node_elems(n: &Node) -> (v: Vec<(u64, u64)>)
    ensures
        v@ == node_seq(*n),
    decreases *n,
{
    match n {
        Node::Empty => {
            let v: Vec<(u64, u64)> = Vec::new();
            proof {
                assert(v@ =~= node_seq(*n));
            }
            v
        },
        Node::Leaf(k0, m0) => {
            let mut v: Vec<(u64, u64)> = Vec::new();
            v.push((*k0, *m0));
            proof {
                assert(v@ =~= node_seq(*n));
            }
            v
        },
        Node::Branch(l, r) => {
            let mut v = node_elems(l);
            let mut w = node_elems(r);
            v.append(&mut w);
            proof {
                assert(v@ =~= node_seq(*n));
            }
            v
        },
    }
}

} // verus!
