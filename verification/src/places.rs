//! The places of the nodes of a graph in a list of their keys.

use crate::graph::GraphView;
use crate::keys::NodeKey;
use std::collections::HashMap;
use vstd::prelude::*;

verus! {

broadcast use vstd::std_specs::hash::group_hash_axioms;

/// Whether `keys` lists the nodes of the graph, each once.
pub open spec fn lists_nodes(g: GraphView, keys: Seq<NodeKey>) -> bool {
    &&& keys.no_duplicates()
    &&& keys.len() <= usize::MAX
    &&& forall|k: NodeKey| #[trigger] keys.contains(k) <==> g.nodes.contains_key(k)
}

/// The place of `k` in `keys`.
pub open spec fn place_of(keys: Seq<NodeKey>, k: NodeKey) -> int {
    choose|i: int| 0 <= i < keys.len() && keys[i] == k
}

/// Where the keys list the nodes, each node has one place.
pub proof fn lemma_place(g: GraphView, keys: Seq<NodeKey>, k: NodeKey)
    requires
        lists_nodes(g, keys),
        g.nodes.contains_key(k),
    ensures
        0 <= place_of(keys, k) < keys.len(),
        keys[place_of(keys, k)] == k,
{
    assert(keys.contains(k));
}

/// Where no key is listed twice, a key is at the place where it is found.
pub proof fn lemma_place_found(keys: Seq<NodeKey>, j: int)
    requires
        keys.no_duplicates(),
        0 <= j < keys.len(),
    ensures
        place_of(keys, keys[j]) == j,
{
    let i = place_of(keys, keys[j]);
    assert(0 <= i < keys.len() && keys[i] == keys[j]);
}

/// For each key its place in `keys`.
pub(crate) fn places(keys: &Vec<NodeKey>) -> (r: HashMap<u64, usize>)
    requires
        keys@.no_duplicates(),
    ensures
        forall|i: int|
            0 <= i < keys@.len() ==> r@.contains_key((#[trigger] keys@[i]).as_ffi()) && r@[keys@[i].as_ffi()]
                == i,
{
    let mut r: HashMap<u64, usize> = HashMap::new();
    let mut i: usize = 0;
    while i < keys.len()
        invariant
            i <= keys@.len(),
            keys@.no_duplicates(),
            forall|j: int|
                0 <= j < i ==> r@.contains_key((#[trigger] keys@[j]).as_ffi()) && r@[keys@[j].as_ffi()]
                    == j,
        decreases keys@.len() - i,
    {
        r.insert(keys[i].as_ffi(), i);
        assert forall|j: int| 0 <= j < i + 1 implies r@.contains_key((#[trigger] keys@[j]).as_ffi())
            && r@[keys@[j].as_ffi()] == j by {
            if j < i {
                assert(keys@[j] != keys@[i as int]);
            }
        }
        i += 1;
    }
    r
}

} // verus!
