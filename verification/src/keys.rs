//! Identifiers of stored nodes and edges, and the key records that an entity
//! carries once it belongs to a graph.

use crate::arena::is_last_version;
use std::collections::HashSet;
use vstd::prelude::*;
use vstd::std_specs::iter::IteratorSpec;

verus! {

broadcast use vstd::std_specs::hash::group_hash_axioms;

/// Identifier of a node: an index and a generation packed into one word.
#[derive(Clone, Copy, Debug, PartialEq, Eq, Structural, Hash)]
pub struct NodeKey {
    pub(crate) raw: u64,
}

/// Identifier of an edge: an index and a generation packed into one word.
#[derive(Clone, Copy, Debug, PartialEq, Eq, Structural, Hash)]
pub struct EdgeKey {
    pub(crate) raw: u64,
}

impl NodeKey {
    pub open(crate) spec fn spec_as_ffi(&self) -> u64 {
        self.raw
    }

    pub open(crate) spec fn spec_worn(&self) -> bool {
        is_last_version(self.raw)
    }

    /// Whether the key carries the last version that its slot can have. A
    /// key that is removed is spent and is not issued again; only when a worn
    /// key is removed does its slot start over, and the keys that were spent
    /// at that slot may then come again.
    #[verifier::when_used_as_spec(spec_worn)]
    pub fn worn(&self) -> (r: bool)
        ensures
            r == self.worn(),
    {
        self.raw >> 32 == 0xffff_ffff
    }

    /// The key as an opaque 64-bit handle. Two keys are equal exactly when
    /// their handles are.
    #[verifier::when_used_as_spec(spec_as_ffi)]
    pub fn as_ffi(&self) -> (r: u64)
        ensures
            r == self.as_ffi(),
    {
        self.raw
    }
}

impl EdgeKey {
    pub open(crate) spec fn spec_as_ffi(&self) -> u64 {
        self.raw
    }

    pub open(crate) spec fn spec_worn(&self) -> bool {
        is_last_version(self.raw)
    }

    /// Whether the key carries the last version that its slot can have. A
    /// key that is removed is spent and is not issued again; only when a worn
    /// key is removed does its slot start over, and the keys that were spent
    /// at that slot may then come again.
    #[verifier::when_used_as_spec(spec_worn)]
    pub fn worn(&self) -> (r: bool)
        ensures
            r == self.worn(),
    {
        self.raw >> 32 == 0xffff_ffff
    }

    /// The key as an opaque 64-bit handle. Two keys are equal exactly when
    /// their handles are.
    #[verifier::when_used_as_spec(spec_as_ffi)]
    pub fn as_ffi(&self) -> (r: u64)
        ensures
            r == self.as_ffi(),
    {
        self.raw
    }
}

/// What an attached edge knows of its place in the graph.
#[derive(Clone, Copy, Debug, PartialEq, Eq, Structural)]
pub struct EdgeKeys {
    /// The edge's own key.
    pub own: EdgeKey,
    /// The node the edge leaves.
    pub from: NodeKey,
    /// The node the edge enters.
    pub to: NodeKey,
}

impl EdgeKeys {
    pub fn new(key: EdgeKey, tail_key: NodeKey, head_key: NodeKey) -> (r: Self)
        ensures
            r.own == key,
            r.from == tail_key,
            r.to == head_key,
    {
        Self { own: key, from: tail_key, to: head_key }
    }
}

/// The edge keys whose handles are in `raws`.
pub open spec fn edge_keys_of(raws: Set<u64>) -> Set<EdgeKey> {
    Set::new(|e: EdgeKey| raws.contains(e.as_ffi()))
}

/// What an attached node knows of its place in the graph: its own key, the
/// edges that enter it (`heads`) and the edges that leave it (`tails`).
#[derive(Debug)]
pub struct NodeKeys {
    pub(crate) own: NodeKey,
    pub(crate) heads: HashSet<u64>,
    pub(crate) tails: HashSet<u64>,
}

impl NodeKeys {
    pub open(crate) spec fn spec_own(&self) -> NodeKey {
        self.own
    }

    /// The edges that enter the node.
    pub open(crate) spec fn head_set(&self) -> Set<EdgeKey> {
        edge_keys_of(self.heads@)
    }

    /// The edges that leave the node.
    pub open(crate) spec fn tail_set(&self) -> Set<EdgeKey> {
        edge_keys_of(self.tails@)
    }

    /// The record of a node that no edge touches yet.
    pub fn new(own: NodeKey) -> (r: Self)
        ensures
            r.own() == own,
            r.head_set() == Set::<EdgeKey>::empty(),
            r.tail_set() == Set::<EdgeKey>::empty(),
    {
        let r = Self { own, heads: HashSet::new(), tails: HashSet::new() };
        assert(r.head_set() =~= Set::<EdgeKey>::empty());
        assert(r.tail_set() =~= Set::<EdgeKey>::empty());
        r
    }

    #[verifier::when_used_as_spec(spec_own)]
    pub fn own(&self) -> (r: NodeKey)
        ensures
            r == self.own(),
    {
        self.own
    }

    /// Records that `e` enters the node.
    pub(crate) fn insert_head(&mut self, e: EdgeKey)
        ensures
            final(self).own() == old(self).own(),
            final(self).head_set() == old(self).head_set().insert(e),
            final(self).tail_set() == old(self).tail_set(),
    {
        self.heads.insert(e.raw);
        assert(self.head_set() =~= old(self).head_set().insert(e));
    }

    /// Records that `e` leaves the node.
    pub(crate) fn insert_tail(&mut self, e: EdgeKey)
        ensures
            final(self).own() == old(self).own(),
            final(self).head_set() == old(self).head_set(),
            final(self).tail_set() == old(self).tail_set().insert(e),
    {
        self.tails.insert(e.raw);
        assert(self.tail_set() =~= old(self).tail_set().insert(e));
    }

    /// Forgets that `e` enters the node.
    pub(crate) fn remove_head(&mut self, e: EdgeKey)
        ensures
            final(self).own() == old(self).own(),
            final(self).head_set() == old(self).head_set().remove(e),
            final(self).tail_set() == old(self).tail_set(),
    {
        self.heads.remove(&e.raw);
        assert(self.head_set() =~= old(self).head_set().remove(e));
    }

    /// Forgets that `e` leaves the node.
    pub(crate) fn remove_tail(&mut self, e: EdgeKey)
        ensures
            final(self).own() == old(self).own(),
            final(self).head_set() == old(self).head_set(),
            final(self).tail_set() == old(self).tail_set().remove(e),
    {
        self.tails.remove(&e.raw);
        assert(self.tail_set() =~= old(self).tail_set().remove(e));
    }

    /// Whether `e` enters the node.
    pub fn has_head(&self, e: EdgeKey) -> (r: bool)
        ensures
            r == self.head_set().contains(e),
    {
        self.heads.contains(&e.raw)
    }

    /// Whether `e` leaves the node.
    pub fn has_tail(&self, e: EdgeKey) -> (r: bool)
        ensures
            r == self.tail_set().contains(e),
    {
        self.tails.contains(&e.raw)
    }

    /// The edges that enter the node, each once, in no particular order.
    pub fn heads(&self) -> (r: Vec<EdgeKey>)
        ensures
            r@.no_duplicates(),
            forall|e: EdgeKey| r@.contains(e) <==> self.head_set().contains(e),
    {
        collect_edge_keys(&self.heads)
    }

    /// The edges that leave the node, each once, in no particular order.
    pub fn tails(&self) -> (r: Vec<EdgeKey>)
        ensures
            r@.no_duplicates(),
            forall|e: EdgeKey| r@.contains(e) <==> self.tail_set().contains(e),
    {
        collect_edge_keys(&self.tails)
    }
}

impl Clone for NodeKeys {
    /// A record with the same key and the same edges.
    fn clone(&self) -> (r: Self)
        ensures
            r.own() == self.own(),
            r.head_set() == self.head_set(),
            r.tail_set() == self.tail_set(),
    {
        Self { own: self.own, heads: copy_set(&self.heads), tails: copy_set(&self.tails) }
    }
}

/// A set with the same members.
fn copy_set(raws: &HashSet<u64>) -> (r: HashSet<u64>)
    ensures
        r@ == raws@,
{
    let mut out: HashSet<u64> = HashSet::new();
    for raw in it: raws.iter()
        invariant
            it.seq() == raws.iter().remaining(),
            forall|x: u64|
                out@.contains(x) <==> exists|j: int| 0 <= j < it.index() && *it.seq()[j] == x,
    {
        let ghost before = out@;
        let ghost at = it.index();
        out.insert(*raw);
        assert forall|x: u64|
            out@.contains(x) <==> exists|j: int| 0 <= j < at + 1 && *it.seq()[j] == x by {
            if x == *raw {
                assert(*it.seq()[at] == x);
            }
            if before.contains(x) {
                let j = choose|j: int| 0 <= j < at && *it.seq()[j] == x;
                assert(0 <= j < at + 1 && *it.seq()[j] == x);
            }
        }
    }
    proof {
        let items = raws.iter().remaining();
        assert(items.unref().to_set() == raws@);
        assert forall|x: u64| out@.contains(x) <==> raws@.contains(x) by {
            if out@.contains(x) {
                let j = choose|j: int| 0 <= j < items.len() && *items[j] == x;
                assert(items.unref()[j] == x);
                assert(items.unref().to_set().contains(x));
            }
            if raws@.contains(x) {
                assert(items.unref().to_set().contains(x));
                let j = choose|j: int| 0 <= j < items.unref().len() && items.unref()[j] == x;
                assert(*items[j] == x);
            }
        }
        assert(out@ =~= raws@);
    }
    out
}

fn collect_edge_keys(raws: &HashSet<u64>) -> (r: Vec<EdgeKey>)
    ensures
        r@.no_duplicates(),
        forall|e: EdgeKey| r@.contains(e) <==> edge_keys_of(raws@).contains(e),
{
    let mut out: Vec<EdgeKey> = Vec::new();
    for raw in it: raws.iter()
        invariant
            it.seq() == raws.iter().remaining(),
            out@.len() == it.index(),
            forall|j: int| 0 <= j < out@.len() ==> out@[j].raw == *it.seq()[j],
    {
        out.push(EdgeKey { raw: *raw });
    }
    proof {
        let items = raws.iter().remaining();
        assert(items.unref().to_set() == raws@);
        assert forall|i: int, j: int| 0 <= i < out@.len() && 0 <= j < out@.len() && i != j implies out@[i]
            != out@[j] by {
            assert(items[i] != items[j]);
        }
        assert forall|e: EdgeKey| out@.contains(e) <==> edge_keys_of(raws@).contains(e) by {
            if out@.contains(e) {
                let j = choose|j: int| 0 <= j < out@.len() && out@[j] == e;
                assert(items.unref()[j] == e.raw);
                assert(items.unref().to_set().contains(e.raw));
            }
            if edge_keys_of(raws@).contains(e) {
                assert(items.unref().to_set().contains(e.raw));
                let j = choose|j: int| 0 <= j < items.unref().len() && items.unref()[j] == e.raw;
                assert(out@[j] == e);
            }
        }
    }
    out
}

} // verus!
