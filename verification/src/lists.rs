//! A graph as two plain lists, and a graph rebuilt from such lists.
//!
//! The lists hold the positions of the nodes and, for each edge, the places
//! of its two ends in the list of nodes. Rebuilding wires every edge anew:
//! which edges a node lists is derived from the pairs, never read.

use crate::arena::ARENA_MAX;
use crate::edge::Edge;
use crate::error::GraphError;
use crate::graph::Graph;
use crate::keys::{EdgeKey, NodeKey};
use crate::node::Node;
use crate::places::{lemma_place, place_of, places};
use crate::point::Point;
use crate::seqs::lemma_take_to_set_step;
use vstd::prelude::*;

verus! {

broadcast use vstd::std_specs::hash::group_hash_axioms;

/// Whether every pair names two places of a list of `n` nodes.
pub open spec fn links_in_range(n: nat, links: Seq<(usize, usize)>) -> bool {
    forall|i: int| 0 <= i < links.len() ==> (#[trigger] links[i]).0 < n && links[i].1 < n
}

/// Whether `g` is the graph of the lists `nodes` and `links`, with the node at
/// place `i` of `nodes` stored under `keys[i]`: it has those nodes at those
/// positions, and an edge from one node to another exactly where a pair says
/// so, which makes as many edges as there are different pairs.
pub open spec fn rebuilt(
    g: Graph,
    keys: Seq<NodeKey>,
    nodes: Seq<Point>,
    links: Seq<(usize, usize)>,
) -> bool {
    &&& keys.len() == nodes.len()
    &&& keys.no_duplicates()
    &&& forall|k: NodeKey| #[trigger] g@.nodes.contains_key(k) <==> keys.contains(k)
    &&& forall|i: int| 0 <= i < keys.len() ==> g@.nodes[#[trigger] keys[i]].pos == nodes[i]
    &&& forall|e: EdgeKey| #[trigger]
        g@.edges.contains_key(e) ==> asked_for(g, keys, e, links, links.len() as int)
    &&& forall|i: int| 0 <= i < links.len() ==> granted(g, keys, #[trigger] links[i])
    &&& g.edge_seq().len() == links.to_set().len()
}

/// Whether `e` is an edge that one of the first `n` pairs of `links` asks
/// for.
pub open spec fn asked_for(
    g: Graph,
    keys: Seq<NodeKey>,
    e: EdgeKey,
    links: Seq<(usize, usize)>,
    n: int,
) -> bool {
    exists|i: int| 0 <= i < n && i < links.len() && #[trigger] linked(g, keys, e, links[i])
}

/// Whether `g` has the edge that the pair `link` asks for.
pub open spec fn granted(g: Graph, keys: Seq<NodeKey>, link: (usize, usize)) -> bool {
    exists|e: EdgeKey| #[trigger] linked(g, keys, e, link)
}

/// Whether `e` is the edge of `g` that the pair `link` asks for.
pub open spec fn linked(g: Graph, keys: Seq<NodeKey>, e: EdgeKey, link: (usize, usize)) -> bool {
    g@.joins(e, keys[link.0 as int], keys[link.1 as int])
}

impl Graph {
    /// The positions of the nodes, in walking order.
    pub open spec fn position_list(&self) -> Seq<Point> {
        Seq::new(self.node_seq().len(), |i: int| self@.nodes[self.node_seq()[i]].pos)
    }

    /// For each edge, in walking order, the places of the node it leaves and
    /// of the node it enters in the walk over the nodes.
    pub open spec fn link_list(&self) -> Seq<(usize, usize)> {
        Seq::new(
            self.edge_seq().len(),
            |i: int|
                (
                    place_of(self.node_seq(), self@.edges[self.edge_seq()[i]].from) as usize,
                    place_of(self.node_seq(), self@.edges[self.edge_seq()[i]].to) as usize,
                ),
        )
    }

    /// The graph as two lists: the positions of its nodes and, for each edge,
    /// the places of its ends among them.
    pub fn to_lists(&self) -> (r: (Vec<Point>, Vec<(usize, usize)>))
        requires
            self.wf(),
        ensures
            r.0@ == self.position_list(),
            r.1@ == self.link_list(),
    {
        let keys = self.node_keys();
        let index = places(&keys);
        let mut nodes: Vec<Point> = Vec::new();
        let mut i: usize = 0;
        while i < keys.len()
            invariant
                self.wf(),
                keys@ == self.node_seq(),
                i <= keys@.len(),
                nodes@.len() == i,
                forall|j: int| 0 <= j < i ==> nodes@[j] == self@.nodes[keys@[j]].pos,
            decreases keys@.len() - i,
        {
            assert(self.node_seq().contains(keys@[i as int]));
            match self.node(keys[i]) {
                Some(n) => {
                    nodes.push(*n.get_pos());
                },
                None => {},
            }
            i += 1;
        }
        assert(nodes@ =~= self.position_list());
        let edge_keys = self.edge_keys();
        let mut links: Vec<(usize, usize)> = Vec::new();
        let mut i: usize = 0;
        while i < edge_keys.len()
            invariant
                self.wf(),
                keys@ == self.node_seq(),
                edge_keys@ == self.edge_seq(),
                forall|j: int|
                    0 <= j < keys@.len() ==> index@.contains_key((#[trigger] keys@[j]).as_ffi())
                        && index@[keys@[j].as_ffi()] == j,
                i <= edge_keys@.len(),
                links@.len() == i,
                forall|j: int| 0 <= j < i ==> links@[j] == self.link_list()[j],
            decreases edge_keys@.len() - i,
        {
            assert(self.edge_seq().contains(edge_keys@[i as int]));
            match self.edge(edge_keys[i]) {
                Some(e) => {
                    let ends = e.get_id();
                    proof {
                        lemma_place(self@, keys@, ends.0);
                        lemma_place(self@, keys@, ends.1);
                    }
                    match (index.get(&ends.0.as_ffi()), index.get(&ends.1.as_ffi())) {
                        (Some(a), Some(b)) => {
                            links.push((*a, *b));
                        },
                        _ => {},
                    }
                },
                None => {},
            }
            i += 1;
        }
        assert(links@ =~= self.link_list());
        (nodes, links)
    }

    /// The graph of two lists: a node at each position of `nodes`, and for
    /// each pair of `links` an edge from the node at the first place to the
    /// node at the second; a pair that occurs twice gives one edge. With the
    /// graph comes the key of each node, by its place in `nodes`. A pair that
    /// names a place beyond the list is refused.
    pub fn from_lists(nodes: &Vec<Point>, links: &Vec<(usize, usize)>) -> (r: Result<
        (Graph, Vec<NodeKey>),
        GraphError,
    >)
        requires
            nodes@.len() <= ARENA_MAX,
            links@.len() <= ARENA_MAX,
        ensures
            match r {
                Ok(built) => {
                    &&& links_in_range(nodes@.len(), links@)
                    &&& built.0.wf()
                    &&& rebuilt(built.0, built.1@, nodes@, links@)
                },
                Err(e) => e == GraphError::UnknownNode && !links_in_range(nodes@.len(), links@),
            },
    {
        let mut i: usize = 0;
        while i < links.len()
            invariant
                i <= links@.len(),
                forall|j: int| 0 <= j < i ==> (#[trigger] links@[j]).0 < nodes@.len() && links@[j].1
                    < nodes@.len(),
            decreases links@.len() - i,
        {
            if links[i].0 >= nodes.len() || links[i].1 >= nodes.len() {
                return Err(GraphError::UnknownNode);
            }
            i += 1;
        }
        let mut g = Graph::new();
        let mut keys: Vec<NodeKey> = Vec::new();
        let mut i: usize = 0;
        while i < nodes.len()
            invariant
                nodes@.len() <= ARENA_MAX,
                i <= nodes@.len(),
                g.wf(),
                g.node_seq().len() == i,
                g.edge_seq().len() == 0,
                keys@.len() == i,
                keys@.no_duplicates(),
                forall|k: NodeKey| #[trigger] g@.nodes.contains_key(k) <==> keys@.contains(k),
                forall|j: int| 0 <= j < i ==> g@.nodes[#[trigger] keys@[j]].pos == nodes@[j],
                forall|e: EdgeKey| !g@.edges.contains_key(e),
            decreases nodes@.len() - i,
        {
            let ghost before = g;
            let ghost keys_before = keys@;
            match g.add_node(Node::from(nodes[i])) {
                Ok(k) => {
                    keys.push(k);
                    proof {
                        let at = choose|at: int|
                            0 <= at <= before.node_seq().len() && g.node_seq()
                                == before.node_seq().insert(at, k);
                        assert(g.node_seq().len() == i + 1);
                        assert forall|k2: NodeKey| #[trigger]
                            g@.nodes.contains_key(k2) <==> keys@.contains(k2) by {
                            if keys@.contains(k2) {
                                let j = choose|j: int| 0 <= j < keys@.len() && keys@[j] == k2;
                                if j < i {
                                    assert(keys_before[j] == k2);
                                    assert(keys_before.contains(k2));
                                }
                            }
                            if g@.nodes.contains_key(k2) {
                                if k2 == k {
                                    assert(keys@[i as int] == k);
                                } else {
                                    assert(keys_before.contains(k2));
                                    let j = choose|j: int|
                                        0 <= j < keys_before.len() && keys_before[j] == k2;
                                    assert(keys@[j] == k2);
                                }
                            }
                        }
                        assert forall|j: int| 0 <= j < i + 1 implies g@.nodes[#[trigger] keys@[j]].pos
                            == nodes@[j] by {
                            if j < i {
                                assert(keys_before[j] == keys@[j]);
                                assert(keys_before.contains(keys@[j]));
                            }
                        }
                        assert forall|a: int, b: int|
                            0 <= a < keys@.len() && 0 <= b < keys@.len() && a != b implies keys@[a]
                            != keys@[b] by {
                            if a < i {
                                assert(keys_before.contains(keys_before[a]));
                            }
                            if b < i {
                                assert(keys_before.contains(keys_before[b]));
                            }
                        }
                    }
                },
                Err(_) => {
                    assert(false);
                },
            }
            i += 1;
        }
        let mut i: usize = 0;
        proof {
            assert(links@.take(0).to_set() =~= Set::<(usize, usize)>::empty());
        }
        while i < links.len()
            invariant
                links@.len() <= ARENA_MAX,
                i <= links@.len(),
                links_in_range(nodes@.len(), links@),
                g.wf(),
                g.edge_seq().len() <= i,
                g.edge_seq().len() == links@.take(i as int).to_set().len(),
                keys@.len() == nodes@.len(),
                keys@.no_duplicates(),
                forall|k: NodeKey| #[trigger] g@.nodes.contains_key(k) <==> keys@.contains(k),
                forall|j: int|
                    0 <= j < keys@.len() ==> g@.nodes[#[trigger] keys@[j]].pos == nodes@[j],
                forall|e: EdgeKey| #[trigger]
                    g@.edges.contains_key(e) ==> asked_for(g, keys@, e, links@, i as int),
                forall|j: int| 0 <= j < i ==> granted(g, keys@, #[trigger] links@[j]),
            decreases links@.len() - i,
        {
            let ghost before = g;
            let link = links[i];
            assert(link == links@[i as int]);
            let a = keys[link.0];
            let b = keys[link.1];
            assert(keys@.contains(a) && keys@.contains(b));
            match g.add_edge(Edge::default(), a, b) {
                Ok(k) => {
                    proof {
                        assert(g@.joins(k, a, b)) by {
                            if before@.edge_between(a, b) is Some {
                                assert(before@.joins(k, a, b));
                            }
                        }
                        assert(linked(g, keys@, k, links@[i as int]));
                        assert forall|e: EdgeKey| #[trigger] before@.edges.contains_key(e) implies g@.edges.contains_key(
                            e,
                        ) && g@.edges[e].from == before@.edges[e].from && g@.edges[e].to
                            == before@.edges[e].to by {}
                        assert forall|k2: NodeKey| #[trigger]
                            g@.nodes.contains_key(k2) <==> keys@.contains(k2) by {
                            assert(before@.nodes.contains_key(k2) <==> keys@.contains(k2));
                        }
                        assert forall|j: int| 0 <= j < keys@.len() implies g@.nodes[#[trigger] keys@[j]].pos
                            == nodes@[j] by {
                            assert(keys@.contains(keys@[j]));
                            assert(before@.nodes[keys@[j]].pos == nodes@[j]);
                        }
                        assert forall|e: EdgeKey| #[trigger] g@.edges.contains_key(e) implies asked_for(
                            g,
                            keys@,
                            e,
                            links@,
                            i + 1,
                        ) by {
                            if before@.edges.contains_key(e) {
                                assert(asked_for(before, keys@, e, links@, i as int));
                                let j = choose|j: int|
                                    0 <= j < i && j < links@.len() && #[trigger] linked(
                                        before,
                                        keys@,
                                        e,
                                        links@[j],
                                    );
                                assert(linked(g, keys@, e, links@[j]));
                            } else {
                                assert(e == k);
                            }
                        }
                        assert forall|j: int| 0 <= j < i + 1 implies granted(
                            g,
                            keys@,
                            #[trigger] links@[j],
                        ) by {
                            if j < i {
                                assert(granted(before, keys@, links@[j]));
                                let e = choose|e: EdgeKey| #[trigger]
                                    linked(before, keys@, e, links@[j]);
                                assert(linked(g, keys@, e, links@[j]));
                            }
                        }
                        lemma_take_to_set_step(links@, i as int);
                        let seen = links@.take(i as int);
                        if before@.edge_between(a, b) is None {
                            let at = choose|at: int|
                                0 <= at <= before.edge_seq().len() && g.edge_seq()
                                    == before.edge_seq().insert(at, k);
                            assert(g.edge_seq().len() == before.edge_seq().len() + 1);
                            if seen.to_set().contains(link) {
                                let j = choose|j: int| 0 <= j < seen.len() && seen[j] == link;
                                assert(links@[j] == link);
                                assert(granted(before, keys@, links@[j]));
                                let e = choose|e: EdgeKey| #[trigger]
                                    linked(before, keys@, e, links@[j]);
                                assert(before@.joins(e, a, b));
                            }
                        } else {
                            assert(before@.joins(k, a, b));
                            assert(asked_for(before, keys@, k, links@, i as int));
                            let j = choose|j: int|
                                0 <= j < i && j < links@.len() && #[trigger] linked(
                                    before,
                                    keys@,
                                    k,
                                    links@[j],
                                );
                            let other = links@[j];
                            assert(keys@[other.0 as int] == keys@[link.0 as int]);
                            assert(keys@[other.1 as int] == keys@[link.1 as int]);
                            assert(other.0 == link.0 && other.1 == link.1);
                            assert(seen[j] == link);
                            assert(seen.to_set().contains(link));
                        }
                    }
                },
                Err(_) => {
                    assert(false);
                },
            }
            i += 1;
        }
        assert(links@.take(links@.len() as int) =~= links@);
        Ok((g, keys))
    }
}

} // verus!
