//! The graph store: two key arenas and the rules that keep nodes and edges
//! wired to each other.

use crate::arena::{
    edge_order, edge_slots, edges_get, edges_get_mut, edges_insert, edges_keys, edges_len,
    edges_new, edges_remove, edge_spent, is_slot_key, node_order, node_slots, node_spent,
    nodes_get, nodes_get_mut,
    nodes_insert, nodes_keys, nodes_len, nodes_new, nodes_remove, Arena, ARENA_MAX,
};
use crate::edge::{Edge, EdgeView};
use crate::error::GraphError;
use crate::keys::{EdgeKey, NodeKey};
use crate::node::{Node, NodeView};
use crate::point::Point;
use crate::seqs::{
    lemma_filter_outside_nothing, lemma_filter_outside_remove, lemma_insert_fresh,
    lemma_remove_value, outside,
};
use vstd::prelude::*;

verus! {

/// What a graph is to a reader: its nodes and its edges, each by key.
pub struct GraphView {
    pub nodes: Map<NodeKey, NodeView>,
    pub edges: Map<EdgeKey, EdgeView>,
}

impl GraphView {
    /// Every edge joins two nodes of the graph, is registered as leaving the
    /// first and entering the second, and has their positions cached.
    pub open spec fn edges_wired(self) -> bool {
        forall|e: EdgeKey| #[trigger]
            self.edges.contains_key(e) ==> {
                &&& self.nodes.contains_key(self.edges[e].from)
                &&& self.nodes.contains_key(self.edges[e].to)
                &&& self.nodes[self.edges[e].from].tails.contains(e)
                &&& self.nodes[self.edges[e].to].heads.contains(e)
                &&& self.edges[e].p1 == self.nodes[self.edges[e].from].pos
                &&& self.edges[e].p2 == self.nodes[self.edges[e].to].pos
            }
    }

    /// Whatever a node lists as leaving it is an edge of the graph that
    /// starts at that node.
    pub open spec fn tails_sound(self) -> bool {
        forall|n: NodeKey, e: EdgeKey|
            self.nodes.contains_key(n) && #[trigger] self.nodes[n].tails.contains(e)
                ==> self.edges.contains_key(e) && self.edges[e].from == n
    }

    /// Whatever a node lists as entering it is an edge of the graph that ends
    /// at that node.
    pub open spec fn heads_sound(self) -> bool {
        forall|n: NodeKey, e: EdgeKey|
            self.nodes.contains_key(n) && #[trigger] self.nodes[n].heads.contains(e)
                ==> self.edges.contains_key(e) && self.edges[e].to == n
    }

    /// No two edges join the same nodes in the same direction.
    pub open spec fn no_parallel_edges(self) -> bool {
        forall|e1: EdgeKey, e2: EdgeKey|
            #![trigger self.edges.contains_key(e1), self.edges.contains_key(e2)]
            self.edges.contains_key(e1) && self.edges.contains_key(e2) && self.edges[e1].from
                == self.edges[e2].from && self.edges[e1].to == self.edges[e2].to ==> e1 == e2
    }

    /// The adjacency of the graph is consistent.
    pub open spec fn wf(self) -> bool {
        &&& self.edges_wired()
        &&& self.tails_sound()
        &&& self.heads_sound()
        &&& self.no_parallel_edges()
    }

    /// The key of the edge from `from` to `to`, if the graph has one.
    pub open spec fn edge_between(self, from: NodeKey, to: NodeKey) -> Option<EdgeKey> {
        if exists|e: EdgeKey| self.joins(e, from, to) {
            Some(choose|e: EdgeKey| self.joins(e, from, to))
        } else {
            None
        }
    }

    /// Whether `e` is an edge of the graph from `from` to `to`.
    pub open spec fn joins(self, e: EdgeKey, from: NodeKey, to: NodeKey) -> bool {
        self.edges.contains_key(e) && self.edges[e].from == from && self.edges[e].to == to
    }
}

impl GraphView {
    /// The graph with a new, untouched node `k` at `pos`.
    pub open spec fn with_node(self, k: NodeKey, pos: Point) -> GraphView {
        GraphView {
            nodes: self.nodes.insert(k, NodeView { pos, heads: Set::empty(), tails: Set::empty() }),
            edges: self.edges,
        }
    }

    /// The graph with a new edge `k` from `from` to `to`: the edge caches the
    /// positions of the two nodes, `from` lists it as leaving and `to` lists
    /// it as entering.
    pub open spec fn with_edge(self, k: EdgeKey, from: NodeKey, to: NodeKey) -> GraphView {
        let left = self.nodes.insert(
            from,
            NodeView { tails: self.nodes[from].tails.insert(k), ..self.nodes[from] },
        );
        GraphView {
            nodes: left.insert(to, NodeView { heads: left[to].heads.insert(k), ..left[to] }),
            edges: self.edges.insert(
                k,
                EdgeView { from, to, p1: self.nodes[from].pos, p2: self.nodes[to].pos },
            ),
        }
    }

    /// The graph without the edge `k`: it is gone from the edges and from the
    /// lists of the two nodes it joined.
    pub open spec fn without_edge(self, k: EdgeKey) -> GraphView {
        let from = self.edges[k].from;
        let to = self.edges[k].to;
        let left = self.nodes.insert(
            from,
            NodeView { tails: self.nodes[from].tails.remove(k), ..self.nodes[from] },
        );
        GraphView {
            nodes: left.insert(to, NodeView { heads: left[to].heads.remove(k), ..left[to] }),
            edges: self.edges.remove(k),
        }
    }

    /// Whether `e` is an edge of the graph that starts or ends at `n`.
    pub open spec fn touches(self, e: EdgeKey, n: NodeKey) -> bool {
        self.edges.contains_key(e) && (self.edges[e].from == n || self.edges[e].to == n)
    }

    /// The graph without the edges in `gone` and without the node `n`; the
    /// other nodes no longer list those edges.
    pub open spec fn stripped(self, n: NodeKey, gone: Set<EdgeKey>) -> GraphView {
        GraphView {
            nodes: Map::new(
                |m: NodeKey| self.nodes.contains_key(m) && m != n,
                |m: NodeKey|
                    NodeView {
                        pos: self.nodes[m].pos,
                        heads: self.nodes[m].heads.difference(gone),
                        tails: self.nodes[m].tails.difference(gone),
                    },
            ),
            edges: self.edges.remove_keys(gone),
        }
    }

    /// The edges of the graph that start or end at `n`.
    pub open spec fn touching(self, n: NodeKey) -> Set<EdgeKey> {
        Set::new(|e: EdgeKey| self.touches(e, n))
    }

    /// The graph without the node `n` and without every edge that touched it.
    pub open spec fn without_node(self, n: NodeKey) -> GraphView {
        self.stripped(n, self.touching(n))
    }

    /// The graph with the node `n` at `p`, where the edges in `starts` have
    /// their start and the edges in `ends` their end moved to `p`.
    pub open spec fn shifted(
        self,
        n: NodeKey,
        p: Point,
        starts: Set<EdgeKey>,
        ends: Set<EdgeKey>,
    ) -> GraphView {
        GraphView {
            nodes: self.nodes.insert(n, NodeView { pos: p, ..self.nodes[n] }),
            edges: Map::new(
                |e: EdgeKey| self.edges.contains_key(e),
                |e: EdgeKey|
                    EdgeView {
                        p1: if starts.contains(e) {
                            p
                        } else {
                            self.edges[e].p1
                        },
                        p2: if ends.contains(e) {
                            p
                        } else {
                            self.edges[e].p2
                        },
                        ..self.edges[e]
                    },
            ),
        }
    }

    /// The graph with the node `n` at `p` and with every edge that leaves or
    /// enters `n` following it.
    pub open spec fn with_node_at(self, n: NodeKey, p: Point) -> GraphView {
        self.shifted(n, p, self.nodes[n].tails, self.nodes[n].heads)
    }

    /// A consistent graph stays consistent when an untouched node is added.
    pub proof fn lemma_with_node_wf(self, k: NodeKey, pos: Point)
        requires
            self.wf(),
            !self.nodes.contains_key(k),
        ensures
            self.with_node(k, pos).wf(),
    {
        let g = self.with_node(k, pos);
        assert forall|e: EdgeKey| #[trigger] g.edges.contains_key(e) implies {
            &&& g.nodes.contains_key(g.edges[e].from)
            &&& g.nodes.contains_key(g.edges[e].to)
            &&& g.nodes[g.edges[e].from].tails.contains(e)
            &&& g.nodes[g.edges[e].to].heads.contains(e)
            &&& g.edges[e].p1 == g.nodes[g.edges[e].from].pos
            &&& g.edges[e].p2 == g.nodes[g.edges[e].to].pos
        } by {
            assert(self.edges.contains_key(e));
        }
    }

    /// A consistent graph stays consistent when an edge is added between two
    /// of its nodes that no edge joins yet in that direction.
    pub proof fn lemma_with_edge_wf(self, k: EdgeKey, from: NodeKey, to: NodeKey)
        requires
            self.wf(),
            !self.edges.contains_key(k),
            self.nodes.contains_key(from),
            self.nodes.contains_key(to),
            self.edge_between(from, to) is None,
        ensures
            self.with_edge(k, from, to).wf(),
    {
        let g = self.with_edge(k, from, to);
        assert forall|e: EdgeKey| #[trigger] g.edges.contains_key(e) implies {
            &&& g.nodes.contains_key(g.edges[e].from)
            &&& g.nodes.contains_key(g.edges[e].to)
            &&& g.nodes[g.edges[e].from].tails.contains(e)
            &&& g.nodes[g.edges[e].to].heads.contains(e)
            &&& g.edges[e].p1 == g.nodes[g.edges[e].from].pos
            &&& g.edges[e].p2 == g.nodes[g.edges[e].to].pos
        } by {
            if e != k {
                assert(self.edges.contains_key(e));
            }
        }
        assert forall|n: NodeKey, e: EdgeKey|
            g.nodes.contains_key(n) && #[trigger] g.nodes[n].tails.contains(e) implies g.edges.contains_key(
            e,
        ) && g.edges[e].from == n by {
            if e != k {
                assert(self.nodes[n].tails.contains(e));
            } else if n != from {
                assert(self.nodes[n].tails.contains(e));
            }
        }
        assert forall|n: NodeKey, e: EdgeKey|
            g.nodes.contains_key(n) && #[trigger] g.nodes[n].heads.contains(e) implies g.edges.contains_key(
            e,
        ) && g.edges[e].to == n by {
            if e != k {
                assert(self.nodes[n].heads.contains(e));
            } else if n != to {
                assert(self.nodes[n].heads.contains(e));
            }
        }
        assert forall|e1: EdgeKey, e2: EdgeKey|
            #![trigger g.edges.contains_key(e1), g.edges.contains_key(e2)]
            g.edges.contains_key(e1) && g.edges.contains_key(e2) && g.edges[e1].from
                == g.edges[e2].from && g.edges[e1].to == g.edges[e2].to implies e1 == e2 by {
            if e1 == k && e2 != k {
                assert(self.joins(e2, from, to));
            }
            if e2 == k && e1 != k {
                assert(self.joins(e1, from, to));
            }
            if e1 != k && e2 != k {
                assert(self.edges.contains_key(e1) && self.edges.contains_key(e2));
            }
        }
    }

    /// A consistent graph stays consistent when one of its edges is removed.
    pub proof fn lemma_without_edge_wf(self, k: EdgeKey)
        requires
            self.wf(),
            self.edges.contains_key(k),
        ensures
            self.without_edge(k).wf(),
    {
        let g = self.without_edge(k);
        let from = self.edges[k].from;
        let to = self.edges[k].to;
        assert forall|e: EdgeKey| #[trigger] g.edges.contains_key(e) implies {
            &&& g.nodes.contains_key(g.edges[e].from)
            &&& g.nodes.contains_key(g.edges[e].to)
            &&& g.nodes[g.edges[e].from].tails.contains(e)
            &&& g.nodes[g.edges[e].to].heads.contains(e)
            &&& g.edges[e].p1 == g.nodes[g.edges[e].from].pos
            &&& g.edges[e].p2 == g.nodes[g.edges[e].to].pos
        } by {
            assert(self.edges.contains_key(e));
        }
        assert forall|n: NodeKey, e: EdgeKey|
            g.nodes.contains_key(n) && #[trigger] g.nodes[n].tails.contains(e) implies g.edges.contains_key(
            e,
        ) && g.edges[e].from == n by {
            assert(self.nodes[n].tails.contains(e));
        }
        assert forall|n: NodeKey, e: EdgeKey|
            g.nodes.contains_key(n) && #[trigger] g.nodes[n].heads.contains(e) implies g.edges.contains_key(
            e,
        ) && g.edges[e].to == n by {
            assert(self.nodes[n].heads.contains(e));
        }
        assert forall|e1: EdgeKey, e2: EdgeKey|
            #![trigger g.edges.contains_key(e1), g.edges.contains_key(e2)]
            g.edges.contains_key(e1) && g.edges.contains_key(e2) && g.edges[e1].from
                == g.edges[e2].from && g.edges[e1].to == g.edges[e2].to implies e1 == e2 by {
            assert(self.edges.contains_key(e1) && self.edges.contains_key(e2));
        }
    }

    /// Stripping one more edge that leaves `n`: the edge goes, and the node it
    /// entered, unless that is `n` itself, no longer lists it.
    pub proof fn lemma_strip_leaving(self, n: NodeKey, gone: Set<EdgeKey>, t: EdgeKey)
        requires
            self.wf(),
            self.edges.contains_key(t),
            self.edges[t].from == n,
        ensures
            ({
                let s = self.stripped(n, gone);
                let to = self.edges[t].to;
                self.stripped(n, gone.insert(t)) == (GraphView {
                    nodes: if to != n {
                        s.nodes.insert(
                            to,
                            NodeView { heads: s.nodes[to].heads.remove(t), ..s.nodes[to] },
                        )
                    } else {
                        s.nodes
                    },
                    edges: s.edges.remove(t),
                })
            }),
    {
        let s = self.stripped(n, gone);
        let to = self.edges[t].to;
        let a = self.stripped(n, gone.insert(t));
        let b_nodes = if to != n {
            s.nodes.insert(to, NodeView { heads: s.nodes[to].heads.remove(t), ..s.nodes[to] })
        } else {
            s.nodes
        };
        assert(a.edges =~= s.edges.remove(t));
        assert forall|m: NodeKey| #[trigger] a.nodes.contains_key(m) implies a.nodes[m]
            == b_nodes[m] by {
            if self.nodes[m].tails.contains(t) {
                assert(self.edges[t].from == m);
            }
            if m != to && self.nodes[m].heads.contains(t) {
                assert(self.edges[t].to == m);
            }
            assert(a.nodes[m].tails =~= b_nodes[m].tails);
            assert(a.nodes[m].heads =~= b_nodes[m].heads);
        }
        assert(a.nodes =~= b_nodes);
    }

    /// Stripping one more edge that enters `n` from another node: the edge
    /// goes, and the node it left no longer lists it.
    pub proof fn lemma_strip_entering(self, n: NodeKey, gone: Set<EdgeKey>, t: EdgeKey)
        requires
            self.wf(),
            self.edges.contains_key(t),
            self.edges[t].to == n,
            self.edges[t].from != n,
        ensures
            ({
                let s = self.stripped(n, gone);
                let from = self.edges[t].from;
                self.stripped(n, gone.insert(t)) == (GraphView {
                    nodes: s.nodes.insert(
                        from,
                        NodeView { tails: s.nodes[from].tails.remove(t), ..s.nodes[from] },
                    ),
                    edges: s.edges.remove(t),
                })
            }),
    {
        let s = self.stripped(n, gone);
        let from = self.edges[t].from;
        let a = self.stripped(n, gone.insert(t));
        let b_nodes = s.nodes.insert(
            from,
            NodeView { tails: s.nodes[from].tails.remove(t), ..s.nodes[from] },
        );
        assert(a.edges =~= s.edges.remove(t));
        assert forall|m: NodeKey| #[trigger] a.nodes.contains_key(m) implies a.nodes[m]
            == b_nodes[m] by {
            if self.nodes[m].heads.contains(t) {
                assert(self.edges[t].to == m);
            }
            if m != from && self.nodes[m].tails.contains(t) {
                assert(self.edges[t].from == m);
            }
            assert(a.nodes[m].tails =~= b_nodes[m].tails);
            assert(a.nodes[m].heads =~= b_nodes[m].heads);
        }
        assert(a.nodes =~= b_nodes);
    }

    /// A consistent graph stays consistent when one of its nodes is removed
    /// together with every edge that touched it.
    pub proof fn lemma_without_node_wf(self, n: NodeKey)
        requires
            self.wf(),
        ensures
            self.without_node(n).wf(),
    {
        let g = self.without_node(n);
        assert forall|e: EdgeKey| #[trigger] g.edges.contains_key(e) implies {
            &&& g.nodes.contains_key(g.edges[e].from)
            &&& g.nodes.contains_key(g.edges[e].to)
            &&& g.nodes[g.edges[e].from].tails.contains(e)
            &&& g.nodes[g.edges[e].to].heads.contains(e)
            &&& g.edges[e].p1 == g.nodes[g.edges[e].from].pos
            &&& g.edges[e].p2 == g.nodes[g.edges[e].to].pos
        } by {
            assert(self.edges.contains_key(e));
            assert(!self.touches(e, n));
        }
        assert forall|m: NodeKey, e: EdgeKey|
            g.nodes.contains_key(m) && #[trigger] g.nodes[m].tails.contains(e) implies g.edges.contains_key(
            e,
        ) && g.edges[e].from == m by {
            assert(self.nodes[m].tails.contains(e));
        }
        assert forall|m: NodeKey, e: EdgeKey|
            g.nodes.contains_key(m) && #[trigger] g.nodes[m].heads.contains(e) implies g.edges.contains_key(
            e,
        ) && g.edges[e].to == m by {
            assert(self.nodes[m].heads.contains(e));
        }
        assert forall|e1: EdgeKey, e2: EdgeKey|
            #![trigger g.edges.contains_key(e1), g.edges.contains_key(e2)]
            g.edges.contains_key(e1) && g.edges.contains_key(e2) && g.edges[e1].from
                == g.edges[e2].from && g.edges[e1].to == g.edges[e2].to implies e1 == e2 by {
            assert(self.edges.contains_key(e1) && self.edges.contains_key(e2));
        }
    }

    /// A consistent graph stays consistent when one of its nodes moves and
    /// the edges at that node follow.
    pub proof fn lemma_with_node_at_wf(self, n: NodeKey, p: Point)
        requires
            self.wf(),
            self.nodes.contains_key(n),
        ensures
            self.with_node_at(n, p).wf(),
    {
        let g = self.with_node_at(n, p);
        assert forall|e: EdgeKey| #[trigger] g.edges.contains_key(e) implies {
            &&& g.nodes.contains_key(g.edges[e].from)
            &&& g.nodes.contains_key(g.edges[e].to)
            &&& g.nodes[g.edges[e].from].tails.contains(e)
            &&& g.nodes[g.edges[e].to].heads.contains(e)
            &&& g.edges[e].p1 == g.nodes[g.edges[e].from].pos
            &&& g.edges[e].p2 == g.nodes[g.edges[e].to].pos
        } by {
            assert(self.edges.contains_key(e));
            if self.nodes[n].tails.contains(e) {
                assert(self.edges[e].from == n);
            }
            if self.nodes[n].heads.contains(e) {
                assert(self.edges[e].to == n);
            }
        }
        assert forall|m: NodeKey, e: EdgeKey|
            g.nodes.contains_key(m) && #[trigger] g.nodes[m].tails.contains(e) implies g.edges.contains_key(
            e,
        ) && g.edges[e].from == m by {
            assert(self.nodes[m].tails.contains(e));
        }
        assert forall|m: NodeKey, e: EdgeKey|
            g.nodes.contains_key(m) && #[trigger] g.nodes[m].heads.contains(e) implies g.edges.contains_key(
            e,
        ) && g.edges[e].to == m by {
            assert(self.nodes[m].heads.contains(e));
        }
        assert forall|e1: EdgeKey, e2: EdgeKey|
            #![trigger g.edges.contains_key(e1), g.edges.contains_key(e2)]
            g.edges.contains_key(e1) && g.edges.contains_key(e2) && g.edges[e1].from
                == g.edges[e2].from && g.edges[e1].to == g.edges[e2].to implies e1 == e2 by {
            assert(self.edges.contains_key(e1) && self.edges.contains_key(e2));
        }
    }
}

/// One change to a stored node.
pub(crate) enum NodeOp {
    AddTail(EdgeKey),
    AddHead(EdgeKey),
    DropTail(EdgeKey),
    DropHead(EdgeKey),
    Move(Point),
}

impl NodeOp {
    /// The node after the change.
    pub(crate) open spec fn apply(self, v: NodeView) -> NodeView {
        match self {
            NodeOp::AddTail(e) => NodeView { tails: v.tails.insert(e), ..v },
            NodeOp::AddHead(e) => NodeView { heads: v.heads.insert(e), ..v },
            NodeOp::DropTail(e) => NodeView { tails: v.tails.remove(e), ..v },
            NodeOp::DropHead(e) => NodeView { heads: v.heads.remove(e), ..v },
            NodeOp::Move(p) => NodeView { pos: p, ..v },
        }
    }
}

/// One change to a stored edge.
pub(crate) enum EdgeOp {
    MoveStart(Point),
    MoveEnd(Point),
}

impl EdgeOp {
    /// The edge after the change.
    pub(crate) open spec fn apply(self, v: EdgeView) -> EdgeView {
        match self {
            EdgeOp::MoveStart(p) => EdgeView { p1: p, ..v },
            EdgeOp::MoveEnd(p) => EdgeView { p2: p, ..v },
        }
    }
}

/// A directed graph in the plane.
pub struct Graph {
    pub(crate) nodes: Arena<Node>,
    pub(crate) edges: Arena<Edge>,
}

/// Whether a word has the shape of a handle of a live key.
pub(crate) fn slot_key_shaped(raw: u64) -> (b: bool)
    ensures
        b == is_slot_key(raw),
{
    raw & 0x1_0000_0000 == 0x1_0000_0000
}

impl View for Graph {
    type V = GraphView;

    closed spec fn view(&self) -> GraphView {
        GraphView {
            nodes: Map::new(
                |k: NodeKey| node_slots(self.nodes).contains_key(k.raw),
                |k: NodeKey| node_slots(self.nodes)[k.raw]@,
            ),
            edges: Map::new(
                |k: EdgeKey| edge_slots(self.edges).contains_key(k.raw),
                |k: EdgeKey| edge_slots(self.edges)[k.raw]@,
            ),
        }
    }
}

impl Graph {
    /// The keys of the nodes in the order in which the graph walks them.
    pub closed spec fn node_seq(&self) -> Seq<NodeKey> {
        node_order(self.nodes).map_values(|r: u64| NodeKey { raw: r })
    }

    /// The keys of the edges in the order in which the graph walks them.
    pub closed spec fn edge_seq(&self) -> Seq<EdgeKey> {
        edge_order(self.edges).map_values(|r: u64| EdgeKey { raw: r })
    }

    /// The keys of nodes that are spent: they were removed and are not issued
    /// again.
    pub closed spec fn spent_nodes(&self) -> Set<NodeKey> {
        Set::new(|k: NodeKey| node_spent(self.nodes).contains(k.raw))
    }

    /// The keys of edges that are spent: they were removed and are not issued
    /// again.
    pub closed spec fn spent_edges(&self) -> Set<EdgeKey> {
        Set::new(|k: EdgeKey| edge_spent(self.edges).contains(k.raw))
    }

    /// Whether the two graphs have the same spent keys.
    pub open spec fn same_spent(&self, other: &Graph) -> bool {
        self.spent_nodes() == other.spent_nodes() && self.spent_edges() == other.spent_edges()
    }

    /// What the store keeps true of its arenas: every entry is attached under
    /// the key that it is stored at, and the walks meet each entry once.
    pub closed spec fn inv(&self) -> bool {
        &&& node_order(self.nodes).no_duplicates()
        &&& node_order(self.nodes).len() <= ARENA_MAX
        &&& forall|r: u64| #[trigger]
            node_order(self.nodes).contains(r) <==> node_slots(self.nodes).contains_key(r)
        &&& forall|r: u64| #[trigger]
            node_slots(self.nodes).contains_key(r) ==> is_slot_key(r) && node_slots(
                self.nodes,
            )[r].keys is Some && node_slots(self.nodes)[r].keys->0.own.raw == r
        &&& forall|r: u64| #[trigger]
            node_spent(self.nodes).contains(r) ==> !node_slots(self.nodes).contains_key(r)
        &&& forall|r: u64| #[trigger]
            edge_spent(self.edges).contains(r) ==> !edge_slots(self.edges).contains_key(r)
        &&& edge_order(self.edges).no_duplicates()
        &&& edge_order(self.edges).len() <= ARENA_MAX
        &&& forall|r: u64| #[trigger]
            edge_order(self.edges).contains(r) <==> edge_slots(self.edges).contains_key(r)
        &&& forall|r: u64| #[trigger]
            edge_slots(self.edges).contains_key(r) ==> is_slot_key(r) && edge_slots(
                self.edges,
            )[r].keys is Some && edge_slots(self.edges)[r].keys->0.own.raw == r
    }

    /// The walks meet each node and each edge of the graph once, and nothing
    /// else; no spent key is the key of a node or an edge of the graph.
    pub open spec fn walks_ok(&self) -> bool {
        &&& forall|k: NodeKey| #[trigger] self.spent_nodes().contains(k) ==> !self@.nodes.contains_key(k)
        &&& forall|k: EdgeKey| #[trigger] self.spent_edges().contains(k) ==> !self@.edges.contains_key(k)
        &&& self.node_seq().len() <= ARENA_MAX
        &&& self.edge_seq().len() <= ARENA_MAX
        &&& self.node_seq().no_duplicates()
        &&& forall|k: NodeKey| #[trigger] self.node_seq().contains(k) <==> self@.nodes.contains_key(k)
        &&& self.edge_seq().no_duplicates()
        &&& forall|k: EdgeKey| #[trigger] self.edge_seq().contains(k) <==> self@.edges.contains_key(k)
    }

    /// The graph is well formed: its arenas are in order and its adjacency is
    /// consistent.
    pub open spec fn wf(&self) -> bool {
        &&& self.inv()
        &&& self.walks_ok()
        &&& self@.wf()
    }

    /// From the store's own invariant to what it means for the walks.
    proof fn lemma_walks(&self)
        requires
            self.inv(),
        ensures
            self.walks_ok(),
            self.node_seq().len() == node_order(self.nodes).len(),
            self.edge_seq().len() == edge_order(self.edges).len(),
    {
        let no = node_order(self.nodes);
        let ns = self.node_seq();
        assert forall|k: NodeKey| #[trigger] ns.contains(k) <==> self@.nodes.contains_key(k) by {
            if ns.contains(k) {
                let i = choose|i: int| 0 <= i < ns.len() && ns[i] == k;
                assert(no[i] == k.raw);
                assert(no.contains(k.raw));
            }
            if self@.nodes.contains_key(k) {
                assert(no.contains(k.raw));
                let i = choose|i: int| 0 <= i < no.len() && no[i] == k.raw;
                assert(ns[i] == k);
            }
        }
        let eo = edge_order(self.edges);
        let es = self.edge_seq();
        assert forall|k: EdgeKey| #[trigger] es.contains(k) <==> self@.edges.contains_key(k) by {
            if es.contains(k) {
                let i = choose|i: int| 0 <= i < es.len() && es[i] == k;
                assert(eo[i] == k.raw);
                assert(eo.contains(k.raw));
            }
            if self@.edges.contains_key(k) {
                assert(eo.contains(k.raw));
                let i = choose|i: int| 0 <= i < eo.len() && eo[i] == k.raw;
                assert(es[i] == k);
            }
        }
    }

    /// An empty graph.
    pub fn new() -> (g: Self)
        ensures
            g.wf(),
            g@.nodes == Map::<NodeKey, NodeView>::empty(),
            g@.edges == Map::<EdgeKey, EdgeView>::empty(),
            g.node_seq() == Seq::<NodeKey>::empty(),
            g.edge_seq() == Seq::<EdgeKey>::empty(),
            g.spent_nodes() == Set::<NodeKey>::empty(),
            g.spent_edges() == Set::<EdgeKey>::empty(),
    {
        let g = Self { nodes: nodes_new(), edges: edges_new() };
        proof {
            assert(g@.nodes =~= Map::<NodeKey, NodeView>::empty());
            assert(g@.edges =~= Map::<EdgeKey, EdgeView>::empty());
            assert(g.node_seq() =~= Seq::<NodeKey>::empty());
            assert(g.edge_seq() =~= Seq::<EdgeKey>::empty());
            assert(g.spent_nodes() =~= Set::<NodeKey>::empty());
            assert(g.spent_edges() =~= Set::<EdgeKey>::empty());
            g.lemma_walks();
        }
        g
    }

    /// The number of nodes.
    pub fn node_count(&self) -> (n: usize)
        requires
            self.wf(),
        ensures
            n == self.node_seq().len(),
            n == self@.nodes.dom().len(),
            n <= ARENA_MAX,
    {
        proof {
            self.lemma_walks();
            self.lemma_node_dom();
        }
        nodes_len(&self.nodes)
    }

    /// The number of edges.
    pub fn edge_count(&self) -> (n: usize)
        requires
            self.wf(),
        ensures
            n == self.edge_seq().len(),
            n == self@.edges.dom().len(),
            n <= ARENA_MAX,
    {
        proof {
            self.lemma_walks();
            self.lemma_edge_dom();
        }
        edges_len(&self.edges)
    }

    /// The nodes of the graph are as many as the keys of its walk.
    pub proof fn lemma_node_dom(&self)
        requires
            self.wf(),
        ensures
            self@.nodes.dom().finite(),
            self@.nodes.dom().len() == self.node_seq().len(),
            self@.nodes.dom() == self.node_seq().to_set(),
    {
        let s = self.node_seq();
        assert(s.to_set() =~= self@.nodes.dom());
        s.unique_seq_to_set();
    }

    /// The edges of the graph are as many as the keys of its walk.
    pub proof fn lemma_edge_dom(&self)
        requires
            self.wf(),
        ensures
            self@.edges.dom().finite(),
            self@.edges.dom().len() == self.edge_seq().len(),
            self@.edges.dom() == self.edge_seq().to_set(),
    {
        let s = self.edge_seq();
        assert(s.to_set() =~= self@.edges.dom());
        s.unique_seq_to_set();
    }

    /// The node stored under `key`.
    pub fn node(&self, key: NodeKey) -> (r: Option<&Node>)
        requires
            self.wf(),
        ensures
            match r {
                Some(n) => self@.nodes.contains_key(key) && n@ == self@.nodes[key] && n.attached()
                    && n.keys().own() == key,
                None => !self@.nodes.contains_key(key),
            },
    {
        if !slot_key_shaped(key.raw) {
            return None;
        }
        nodes_get(&self.nodes, key.raw)
    }

    /// The edge stored under `key`.
    pub fn edge(&self, key: EdgeKey) -> (r: Option<&Edge>)
        requires
            self.wf(),
        ensures
            match r {
                Some(e) => self@.edges.contains_key(key) && e@ == self@.edges[key] && e.attached()
                    && e.keys().own == key,
                None => !self@.edges.contains_key(key),
            },
    {
        if !slot_key_shaped(key.raw) {
            return None;
        }
        edges_get(&self.edges, key.raw)
    }

    /// The keys of the nodes, in walking order.
    pub fn node_keys(&self) -> (r: Vec<NodeKey>)
        requires
            self.wf(),
        ensures
            r@ == self.node_seq(),
    {
        let raws = nodes_keys(&self.nodes);
        let mut out: Vec<NodeKey> = Vec::new();
        let mut i: usize = 0;
        while i < raws.len()
            invariant
                i <= raws.len(),
                out@.len() == i,
                forall|j: int| 0 <= j < i ==> out@[j] == (NodeKey { raw: raws@[j] }),
            decreases raws.len() - i,
        {
            out.push(NodeKey { raw: raws[i] });
            i += 1;
        }
        assert(out@ =~= self.node_seq());
        out
    }

    /// The keys of the edges, in walking order.
    pub fn edge_keys(&self) -> (r: Vec<EdgeKey>)
        requires
            self.wf(),
        ensures
            r@ == self.edge_seq(),
    {
        let raws = edges_keys(&self.edges);
        let mut out: Vec<EdgeKey> = Vec::new();
        let mut i: usize = 0;
        while i < raws.len()
            invariant
                i <= raws.len(),
                out@.len() == i,
                forall|j: int| 0 <= j < i ==> out@[j] == (EdgeKey { raw: raws@[j] }),
            decreases raws.len() - i,
        {
            out.push(EdgeKey { raw: raws[i] });
            i += 1;
        }
        assert(out@ =~= self.edge_seq());
        out
    }
    /// Adds a free node to the graph and returns its key. A node that already
    /// belongs to a graph is refused and the graph stays as it is.
    ///
    /// The new key is not the key of any node in the graph, nor a spent one:
    /// a key that was removed does not come again, unless a worn key was
    /// removed since (see [`NodeKey::worn`]). Room for one more node is asked
    /// only where one is stored.
    pub fn add_node(&mut self, node: Node) -> (r: Result<NodeKey, GraphError>)
        requires
            old(self).wf(),
            !node.attached() ==> old(self).node_seq().len() < ARENA_MAX,
        ensures
            final(self).wf(),
            final(self).edge_seq() == old(self).edge_seq(),
            final(self).same_spent(old(self)),
            match r {
                Ok(k) => {
                    &&& !node.attached()
                    &&& !old(self)@.nodes.contains_key(k)
                    &&& !old(self).spent_nodes().contains(k)
                    &&& final(self)@ == old(self)@.with_node(k, node.position())
                    &&& exists|i: int|
                        0 <= i <= old(self).node_seq().len() && final(self).node_seq() == old(
                            self,
                        ).node_seq().insert(i, k)
                },
                Err(e) => {
                    &&& node.attached()
                    &&& e == GraphError::InvariantViolation
                    &&& final(self)@ == old(self)@
                    &&& final(self).node_seq() == old(self).node_seq()
                },
            },
    {
        if node.initialized() {
            return Err(GraphError::InvariantViolation);
        }
        let ghost pos = node.position();
        let k = self.put_node(node);
        proof {
            old(self)@.lemma_with_node_wf(k, pos);
            self.lemma_walks();
        }
        Ok(k)
    }

    /// The key of the edge from `from` to `to`, if there is one.
    pub fn find_edge(&self, from: NodeKey, to: NodeKey) -> (r: Option<EdgeKey>)
        requires
            self.wf(),
        ensures
            r == self@.edge_between(from, to),
            r matches Some(e) ==> self@.joins(e, from, to),
    {
        let tails = match self.node(from) {
            Some(n) => n.get_id().tails(),
            None => {
                assert forall|e: EdgeKey| !self@.joins(e, from, to) by {}
                return None;
            },
        };
        let mut i: usize = 0;
        while i < tails.len()
            invariant
                self.wf(),
                i <= tails.len(),
                self@.nodes.contains_key(from),
                forall|e: EdgeKey| tails@.contains(e) <==> self@.nodes[from].tails.contains(e),
                forall|j: int| 0 <= j < i ==> !self@.joins(tails@[j], from, to),
            decreases tails.len() - i,
        {
            let t = tails[i];
            match self.edge(t) {
                Some(e) => {
                    if e.get_id().1 == to {
                        assert(tails@.contains(t));
                        assert(self@.joins(t, from, to));
                        assert forall|e2: EdgeKey| self@.joins(e2, from, to) implies e2 == t by {}
                        return Some(t);
                    }
                },
                None => {},
            }
            i += 1;
        }
        assert forall|e: EdgeKey| !self@.joins(e, from, to) by {
            if self@.joins(e, from, to) {
                assert(self@.nodes[from].tails.contains(e));
                assert(tails@.contains(e));
            }
        }
        None
    }

    /// What adding an edge from `tail` to `head` makes of this graph, where
    /// `attached` says whether the edge handed in belonged to a graph already:
    /// `after` is the graph that results and `r` what is returned.
    ///
    /// Either node unknown: `UnknownNode`, and nothing changes. An edge from
    /// `tail` to `head` exists: its key, and nothing changes. Else, for an
    /// edge that is attached already: `InvariantViolation`, and nothing
    /// changes. Else a new key, under which the edge is stored and wired.
    pub open spec fn add_edge_outcome(
        &self,
        after: Graph,
        attached: bool,
        tail: NodeKey,
        head: NodeKey,
        r: Result<EdgeKey, GraphError>,
    ) -> bool {
        &&& after.node_seq() == self.node_seq()
        &&& after.same_spent(self)
        &&& match r {
            Ok(k) => {
                &&& self@.nodes.contains_key(tail)
                &&& self@.nodes.contains_key(head)
                &&& match self@.edge_between(tail, head) {
                    Some(e) => {
                        &&& k == e
                        &&& after@ == self@
                        &&& after.edge_seq() == self.edge_seq()
                    },
                    None => {
                        &&& !attached
                        &&& !self@.edges.contains_key(k)
                        &&& !self.spent_edges().contains(k)
                        &&& after@ == self@.with_edge(k, tail, head)
                        &&& exists|i: int|
                            0 <= i <= self.edge_seq().len() && after.edge_seq()
                                == self.edge_seq().insert(i, k)
                    },
                }
            },
            Err(e) => {
                &&& after@ == self@
                &&& after.edge_seq() == self.edge_seq()
                &&& if self@.nodes.contains_key(tail) && self@.nodes.contains_key(head) {
                    &&& e == GraphError::InvariantViolation
                    &&& attached
                    &&& self@.edge_between(tail, head) is None
                } else {
                    e == GraphError::UnknownNode
                }
            },
        }
    }

    /// Adds an edge from `tail_key` to `head_key` and returns its key. Where
    /// the graph already has an edge between the two in that direction, the
    /// key of that edge is returned and nothing is added. The new edge takes
    /// its end positions from the two nodes, whatever `edge` held.
    ///
    /// An edge may join a node to itself. Such an edge is listed by its node
    /// both as leaving and as entering; it has no length, weighs nothing on a
    /// path, is never picked by a point, and goes when its node is removed.
    ///
    /// The new key is not the key of any edge in the graph, nor a spent one:
    /// a key that was removed does not come again, unless a worn key was
    /// removed since (see [`EdgeKey::worn`]). Room for one more edge is asked
    /// only where one is stored.
    pub fn add_edge(&mut self, edge: Edge, tail_key: NodeKey, head_key: NodeKey) -> (r: Result<
        EdgeKey,
        GraphError,
    >)
        requires
            old(self).wf(),
            old(self)@.nodes.contains_key(tail_key) && old(self)@.nodes.contains_key(head_key)
                && old(self)@.edge_between(tail_key, head_key) is None && !edge.attached()
                ==> old(self).edge_seq().len() < ARENA_MAX,
        ensures
            final(self).wf(),
            old(self).add_edge_outcome(*final(self), edge.attached(), tail_key, head_key, r),
    {
        let p1 = match self.node(tail_key) {
            Some(n) => *n.get_pos(),
            None => {
                return Err(GraphError::UnknownNode);
            },
        };
        let p2 = match self.node(head_key) {
            Some(n) => *n.get_pos(),
            None => {
                return Err(GraphError::UnknownNode);
            },
        };
        match self.find_edge(tail_key, head_key) {
            Some(k) => {
                return Ok(k);
            },
            None => {},
        }
        if edge.initialized() {
            return Err(GraphError::InvariantViolation);
        }
        let mut edge = edge;
        edge.set_pos(&p1, &p2);
        let k = self.put_edge(edge, tail_key, head_key);
        self.update_node(tail_key, NodeOp::AddTail(k));
        self.update_node(head_key, NodeOp::AddHead(k));
        proof {
            assert(self@.nodes =~= old(self)@.with_edge(k, tail_key, head_key).nodes);
            assert(self@.edges =~= old(self)@.with_edge(k, tail_key, head_key).edges);
            old(self)@.lemma_with_edge_wf(k, tail_key, head_key);
            self.lemma_walks();
        }
        Ok(k)
    }

    /// Removes the edge `key` and unregisters it from the two nodes it joined.
    pub fn remove_edge(&mut self, key: EdgeKey) -> (r: Result<(), GraphError>)
        requires
            old(self).wf(),
        ensures
            final(self).wf(),
            final(self).node_seq() == old(self).node_seq(),
            final(self).spent_nodes() == old(self).spent_nodes(),
            match r {
                Ok(_) => {
                    &&& old(self)@.edges.contains_key(key)
                    &&& !key.worn() ==> final(self).spent_edges() == old(self).spent_edges().insert(
                        key,
                    )
                    &&& final(self)@ == old(self)@.without_edge(key)
                    &&& final(self).edge_seq() == old(self).edge_seq().remove_value(key)
                    &&& final(self).edge_seq().len() + 1 == old(self).edge_seq().len()
                },
                Err(e) => {
                    &&& !old(self)@.edges.contains_key(key)
                    &&& e == GraphError::UnknownEdge
                    &&& final(self)@ == old(self)@
                    &&& final(self).edge_seq() == old(self).edge_seq()
                    &&& final(self).spent_edges() == old(self).spent_edges()
                },
            },
    {
        let e = match self.take_edge(key) {
            Some(e) => e,
            None => {
                proof {
                    assert(self@.edges =~= old(self)@.edges);
                    self.lemma_walks();
                    lemma_remove_value(old(self).edge_seq(), key);
                }
                return Err(GraphError::UnknownEdge);
            },
        };
        let (from, to) = e.get_id();
        self.update_node(from, NodeOp::DropTail(key));
        self.update_node(to, NodeOp::DropHead(key));
        proof {
            lemma_remove_value(old(self).edge_seq(), key);
            assert(self@.nodes =~= old(self)@.without_edge(key).nodes);
            assert(self@.edges =~= old(self)@.without_edge(key).edges);
            old(self)@.lemma_without_edge_wf(key);
            self.lemma_walks();
        }
        Ok(())
    }

    /// Removes the node `key` together with every edge that leaves or enters
    /// it; the nodes at the other ends of those edges no longer list them.
    pub fn remove_node(&mut self, key: NodeKey) -> (r: Result<(), GraphError>)
        requires
            old(self).wf(),
        ensures
            final(self).wf(),
            match r {
                Ok(_) => {
                    &&& old(self)@.nodes.contains_key(key)
                    &&& final(self)@ == old(self)@.without_node(key)
                    &&& final(self).node_seq() == old(self).node_seq().remove_value(key)
                    &&& final(self).node_seq().len() + 1 == old(self).node_seq().len()
                    &&& final(self).edge_seq() == old(self).edge_seq().filter(
                        outside(old(self)@.touching(key)),
                    )
                    &&& final(self).edge_seq().len() <= old(self).edge_seq().len()
                    &&& !key.worn() ==> final(self).spent_nodes() == old(self).spent_nodes().insert(
                        key,
                    )
                    &&& (forall|e: EdgeKey| #[trigger] old(self)@.touches(e, key) ==> !e.worn())
                        ==> final(self).spent_edges() == old(self).spent_edges().union(
                        old(self)@.touching(key),
                    )
                },
                Err(e) => {
                    &&& !old(self)@.nodes.contains_key(key)
                    &&& e == GraphError::UnknownNode
                    &&& final(self)@ == old(self)@
                    &&& final(self).node_seq() == old(self).node_seq()
                    &&& final(self).edge_seq() == old(self).edge_seq()
                    &&& final(self).same_spent(old(self))
                },
            },
    {
        let ghost before = self@;
        let (tails, heads) = match self.node(key) {
            Some(n) => (n.get_id().tails(), n.get_id().heads()),
            None => {
                return Err(GraphError::UnknownNode);
            },
        };
        let _ = self.take_node(key);
        let ghost spent_nodes_after = self.spent_nodes();
        let ghost spent_edges_before = self.spent_edges();
        let ghost mut gone: Set<EdgeKey> = Set::empty();
        proof {
            let s = before.stripped(key, gone);
            assert(before.edges.remove_keys(gone) =~= before.edges);
            assert forall|m: NodeKey| #[trigger] s.nodes.contains_key(m) implies s.nodes[m]
                == self@.nodes[m] by {
                assert(s.nodes[m].heads =~= before.nodes[m].heads);
                assert(s.nodes[m].tails =~= before.nodes[m].tails);
            }
            assert(self@.nodes.dom() =~= s.nodes.dom());
            assert(self@.nodes =~= s.nodes);
        }
        let ghost nodes_after = self.node_seq();
        let ghost edges_before = self.edge_seq();
        proof {
            lemma_filter_outside_nothing(edges_before);
            old(self).lemma_walks();
        }
        let mut i: usize = 0;
        proof {
            assert(spent_edges_before.union(gone) =~= spent_edges_before);
        }
        while i < tails.len()
            invariant
                self.inv(),
                self.spent_nodes() == spent_nodes_after,
                (forall|e: EdgeKey| gone.contains(e) ==> !e.worn()) ==> self.spent_edges()
                    == spent_edges_before.union(gone),
                edges_before.no_duplicates(),
                self.edge_seq() == edges_before.filter(outside(gone)),
                before.wf(),
                before.nodes.contains_key(key),
                self@ == before.stripped(key, gone),
                self.node_seq() == nodes_after,
                i <= tails.len(),
                tails@.no_duplicates(),
                forall|e: EdgeKey| tails@.contains(e) <==> before.nodes[key].tails.contains(e),
                forall|e: EdgeKey|
                    gone.contains(e) <==> exists|j: int| 0 <= j < i && tails@[j] == e,
            decreases tails.len() - i,
        {
            let t = tails[i];
            proof {
                assert(tails@.contains(t));
                assert(before.nodes[key].tails.contains(t));
                assert(!gone.contains(t));
                before.lemma_strip_leaving(key, gone, t);
                lemma_filter_outside_remove(edges_before, gone, t);
            }
            match self.take_edge(t) {
                Some(e) => {
                    let to = e.get_id().1;
                    if to != key {
                        self.update_node(to, NodeOp::DropHead(t));
                    }
                },
                None => {
                    assert(false);
                },
            }
            proof {
                assert(spent_edges_before.union(gone).insert(t) =~= spent_edges_before.union(
                    gone.insert(t),
                ));
                gone = gone.insert(t);
            }
            i += 1;
        }
        let mut i: usize = 0;
        let ghost left = gone;
        while i < heads.len()
            invariant
                self.inv(),
                self.spent_nodes() == spent_nodes_after,
                (forall|e: EdgeKey| gone.contains(e) ==> !e.worn()) ==> self.spent_edges()
                    == spent_edges_before.union(gone),
                edges_before.no_duplicates(),
                self.edge_seq() == edges_before.filter(outside(gone)),
                before.wf(),
                before.nodes.contains_key(key),
                self@ == before.stripped(key, gone),
                self.node_seq() == nodes_after,
                i <= heads.len(),
                heads@.no_duplicates(),
                forall|e: EdgeKey| heads@.contains(e) <==> before.nodes[key].heads.contains(e),
                forall|e: EdgeKey| left.contains(e) <==> before.nodes[key].tails.contains(e),
                forall|e: EdgeKey|
                    gone.contains(e) <==> left.contains(e) || exists|j: int|
                        0 <= j < i && heads@[j] == e,
            decreases heads.len() - i,
        {
            let t = heads[i];
            proof {
                assert(heads@.contains(t));
                assert(before.nodes[key].heads.contains(t));
                lemma_filter_outside_remove(edges_before, gone, t);
                if before.edges[t].from == key {
                    assert(before.nodes[key].tails.contains(t));
                    assert(gone.insert(t) =~= gone);
                } else {
                    assert(!gone.contains(t));
                    before.lemma_strip_entering(key, gone, t);
                }
            }
            let ghost s = self@;
            match self.take_edge(t) {
                Some(e) => {
                    let from = e.get_id().0;
                    self.update_node(from, NodeOp::DropTail(t));
                },
                None => {
                    assert(self@.edges =~= s.edges);
                },
            }
            proof {
                assert(spent_edges_before.union(gone).insert(t) =~= spent_edges_before.union(
                    gone.insert(t),
                ));
                gone = gone.insert(t);
            }
            i += 1;
        }
        proof {
            assert(gone =~= before.touching(key)) by {
                assert forall|e: EdgeKey| gone.contains(e) <==> before.touches(e, key) by {
                    if before.touches(e, key) {
                        if before.edges[e].from == key {
                            assert(before.nodes[key].tails.contains(e));
                        } else {
                            assert(before.nodes[key].heads.contains(e));
                            assert(heads@.contains(e));
                        }
                    }
                    if gone.contains(e) {
                        if !left.contains(e) {
                            let j = choose|j: int| 0 <= j < i && heads@[j] == e;
                            assert(heads@.contains(e));
                        }
                    }
                }
            }
            before.lemma_without_node_wf(key);
            self.lemma_walks();
            lemma_remove_value(old(self).node_seq(), key);
            old(self).edge_seq().lemma_filter_len(outside(before.touching(key)));
        }
        Ok(())
    }

    /// Moves the node `key` to `v`. Every edge that leaves the node has its
    /// cached start moved along, and every edge that enters it its cached end.
    pub fn set_node_pos(&mut self, key: NodeKey, v: &Point) -> (r: Result<(), GraphError>)
        requires
            old(self).wf(),
        ensures
            final(self).wf(),
            final(self).node_seq() == old(self).node_seq(),
            final(self).edge_seq() == old(self).edge_seq(),
            final(self).same_spent(old(self)),
            match r {
                Ok(_) => {
                    &&& old(self)@.nodes.contains_key(key)
                    &&& final(self)@ == old(self)@.with_node_at(key, *v)
                },
                Err(e) => {
                    &&& !old(self)@.nodes.contains_key(key)
                    &&& e == GraphError::UnknownNode
                    &&& final(self)@ == old(self)@
                },
            },
    {
        let ghost before = self@;
        let (tails, heads) = match self.node(key) {
            Some(n) => (n.get_id().tails(), n.get_id().heads()),
            None => {
                return Err(GraphError::UnknownNode);
            },
        };
        self.update_node(key, NodeOp::Move(*v));
        let ghost mut ends: Set<EdgeKey> = Set::empty();
        proof {
            assert(self@.edges =~= before.shifted(key, *v, Set::empty(), ends).edges);
        }
        let mut i: usize = 0;
        while i < heads.len()
            invariant
                self.inv(),
                before.wf(),
                before.nodes.contains_key(key),
                self@ == before.shifted(key, *v, Set::empty(), ends),
                self.same_spent(old(self)),
                self.node_seq() == old(self).node_seq(),
                self.edge_seq() == old(self).edge_seq(),
                i <= heads.len(),
                forall|e: EdgeKey| heads@.contains(e) <==> before.nodes[key].heads.contains(e),
                forall|e: EdgeKey|
                    ends.contains(e) <==> exists|j: int| 0 <= j < i && heads@[j] == e,
            decreases heads.len() - i,
        {
            let t = heads[i];
            proof {
                assert(heads@.contains(t));
                assert(before.nodes[key].heads.contains(t));
            }
            self.update_edge(t, EdgeOp::MoveEnd(*v));
            proof {
                assert(self@.edges =~= before.shifted(
                    key,
                    *v,
                    Set::empty(),
                    ends.insert(t),
                ).edges);
                ends = ends.insert(t);
            }
            i += 1;
        }
        let ghost mut starts: Set<EdgeKey> = Set::empty();
        let mut i: usize = 0;
        while i < tails.len()
            invariant
                self.inv(),
                before.wf(),
                before.nodes.contains_key(key),
                self@ == before.shifted(key, *v, starts, ends),
                self.same_spent(old(self)),
                self.node_seq() == old(self).node_seq(),
                self.edge_seq() == old(self).edge_seq(),
                i <= tails.len(),
                forall|e: EdgeKey| tails@.contains(e) <==> before.nodes[key].tails.contains(e),
                forall|e: EdgeKey|
                    starts.contains(e) <==> exists|j: int| 0 <= j < i && tails@[j] == e,
            decreases tails.len() - i,
        {
            let t = tails[i];
            proof {
                assert(tails@.contains(t));
                assert(before.nodes[key].tails.contains(t));
            }
            self.update_edge(t, EdgeOp::MoveStart(*v));
            proof {
                assert(self@.edges =~= before.shifted(key, *v, starts.insert(t), ends).edges);
                starts = starts.insert(t);
            }
            i += 1;
        }
        proof {
            assert(ends =~= before.nodes[key].heads) by {
                assert forall|e: EdgeKey| ends.contains(e) <==> before.nodes[key].heads.contains(
                    e,
                ) by {
                    if before.nodes[key].heads.contains(e) {
                        assert(heads@.contains(e));
                    }
                    if ends.contains(e) {
                        let j = choose|j: int| 0 <= j < heads.len() && heads@[j] == e;
                        assert(heads@.contains(e));
                    }
                }
            }
            assert(starts =~= before.nodes[key].tails) by {
                assert forall|e: EdgeKey| starts.contains(e) <==> before.nodes[key].tails.contains(
                    e,
                ) by {
                    if before.nodes[key].tails.contains(e) {
                        assert(tails@.contains(e));
                    }
                    if starts.contains(e) {
                        let j = choose|j: int| 0 <= j < tails.len() && tails@[j] == e;
                        assert(tails@.contains(e));
                    }
                }
            }
            before.lemma_with_node_at_wf(key, *v);
            self.lemma_walks();
        }
        Ok(())
    }

    /// Stores a free node under a new key, attached and with no edge.
    pub(crate) fn put_node(&mut self, node: Node) -> (k: NodeKey)
        requires
            old(self).inv(),
            !node.attached(),
            old(self).node_seq().len() < ARENA_MAX,
        ensures
            final(self).inv(),
            !old(self)@.nodes.contains_key(k),
            final(self)@.nodes == old(self)@.nodes.insert(
                k,
                NodeView { pos: node.position(), heads: Set::empty(), tails: Set::empty() },
            ),
            final(self)@.edges == old(self)@.edges,
            !old(self).spent_nodes().contains(k),
            final(self).same_spent(old(self)),
            final(self).edge_seq() == old(self).edge_seq(),
            exists|i: int|
                0 <= i <= old(self).node_seq().len() && final(self).node_seq() == old(
                    self,
                ).node_seq().insert(i, k),
    {
        let ghost before = node_order(self.nodes);
        let raw = nodes_insert(&mut self.nodes, node);
        let key = NodeKey { raw };
        let ghost i = choose|i: int|
            0 <= i <= before.len() && node_order(self.nodes) == before.insert(i, raw);
        proof {
            lemma_insert_fresh(before, i, raw);
        }
        match nodes_get_mut(&mut self.nodes, raw) {
            Some(n) => {
                let _ = n.graph_init(key);
            },
            None => {},
        }
        proof {
            assert(self.node_seq() =~= old(self).node_seq().insert(i, key));
            assert(self@.nodes =~= old(self)@.nodes.insert(
                key,
                NodeView { pos: node.position(), heads: Set::empty(), tails: Set::empty() },
            ));
            assert(self@.edges =~= old(self)@.edges);
        }
        key
    }

    /// Stores a free edge under a new key, attached from `from` to `to`.
    pub(crate) fn put_edge(&mut self, edge: Edge, from: NodeKey, to: NodeKey) -> (k: EdgeKey)
        requires
            old(self).inv(),
            !edge.attached(),
            old(self).edge_seq().len() < ARENA_MAX,
        ensures
            final(self).inv(),
            !old(self)@.edges.contains_key(k),
            final(self)@.edges == old(self)@.edges.insert(
                k,
                EdgeView { from, to, p1: edge.start(), p2: edge.end() },
            ),
            final(self)@.nodes == old(self)@.nodes,
            !old(self).spent_edges().contains(k),
            final(self).same_spent(old(self)),
            final(self).node_seq() == old(self).node_seq(),
            exists|i: int|
                0 <= i <= old(self).edge_seq().len() && final(self).edge_seq() == old(
                    self,
                ).edge_seq().insert(i, k),
    {
        let ghost before = edge_order(self.edges);
        let raw = edges_insert(&mut self.edges, edge);
        let key = EdgeKey { raw };
        let ghost i = choose|i: int|
            0 <= i <= before.len() && edge_order(self.edges) == before.insert(i, raw);
        proof {
            lemma_insert_fresh(before, i, raw);
        }
        match edges_get_mut(&mut self.edges, raw) {
            Some(e) => {
                let _ = e.graph_init(key, from, to);
            },
            None => {},
        }
        proof {
            assert(self.edge_seq() =~= old(self).edge_seq().insert(i, key));
            assert(self@.edges =~= old(self)@.edges.insert(
                key,
                EdgeView { from, to, p1: edge.start(), p2: edge.end() },
            ));
            assert(self@.nodes =~= old(self)@.nodes);
        }
        key
    }

    /// Takes the node stored under `key` out of its arena.
    pub(crate) fn take_node(&mut self, key: NodeKey) -> (r: Option<Node>)
        requires
            old(self).inv(),
        ensures
            final(self).inv(),
            match r {
                Some(n) => old(self)@.nodes.contains_key(key) && n@ == old(self)@.nodes[key]
                    && n.attached() && n.keys().own() == key,
                None => !old(self)@.nodes.contains_key(key),
            },
            final(self)@.nodes == old(self)@.nodes.remove(key),
            final(self)@.edges == old(self)@.edges,
            final(self).spent_edges() == old(self).spent_edges(),
            final(self).spent_nodes() == if r is Some && !key.worn() {
                old(self).spent_nodes().insert(key)
            } else if r is None {
                old(self).spent_nodes()
            } else {
                final(self).spent_nodes()
            },
            final(self).edge_seq() == old(self).edge_seq(),
            final(self).node_seq() == old(self).node_seq().remove_value(key),
    {
        if !slot_key_shaped(key.raw) {
            proof {
                lemma_remove_value(old(self).node_seq(), key);
                old(self).lemma_walks();
                assert(self@.nodes =~= old(self)@.nodes.remove(key));
            }
            return None;
        }
        let r = nodes_remove(&mut self.nodes, key.raw);
        proof {
            lemma_remove_value(node_order(old(self).nodes), key.raw);
            old(self).lemma_remove_commutes_nodes(key);
            assert(self@.nodes =~= old(self)@.nodes.remove(key));
            assert(self@.edges =~= old(self)@.edges);
        }
        r
    }

    /// Takes the edge stored under `key` out of its arena.
    pub(crate) fn take_edge(&mut self, key: EdgeKey) -> (r: Option<Edge>)
        requires
            old(self).inv(),
        ensures
            final(self).inv(),
            match r {
                Some(e) => old(self)@.edges.contains_key(key) && e@ == old(self)@.edges[key]
                    && e.attached() && e.keys().own == key,
                None => !old(self)@.edges.contains_key(key),
            },
            final(self)@.edges == old(self)@.edges.remove(key),
            final(self)@.nodes == old(self)@.nodes,
            final(self).spent_nodes() == old(self).spent_nodes(),
            final(self).spent_edges() == if r is Some && !key.worn() {
                old(self).spent_edges().insert(key)
            } else if r is None {
                old(self).spent_edges()
            } else {
                final(self).spent_edges()
            },
            final(self).node_seq() == old(self).node_seq(),
            final(self).edge_seq() == old(self).edge_seq().remove_value(key),
    {
        if !slot_key_shaped(key.raw) {
            proof {
                lemma_remove_value(old(self).edge_seq(), key);
                old(self).lemma_walks();
                assert(self@.edges =~= old(self)@.edges.remove(key));
            }
            return None;
        }
        let r = edges_remove(&mut self.edges, key.raw);
        proof {
            lemma_remove_value(edge_order(old(self).edges), key.raw);
            old(self).lemma_remove_commutes_edges(key);
            assert(self@.edges =~= old(self)@.edges.remove(key));
            assert(self@.nodes =~= old(self)@.nodes);
        }
        r
    }

    /// Taking a handle out of the arena's walk takes its key out of the
    /// graph's walk.
    proof fn lemma_remove_commutes_nodes(&self, key: NodeKey)
        requires
            self.inv(),
        ensures
            node_order(self.nodes).remove_value(key.raw).map_values(|r: u64| NodeKey { raw: r })
                == self.node_seq().remove_value(key),
    {
        let f = |r: u64| NodeKey { raw: r };
        let o = node_order(self.nodes);
        let s = self.node_seq();
        o.index_of_first_ensures(key.raw);
        s.index_of_first_ensures(key);
        match o.index_of_first(key.raw) {
            None => {
                if s.contains(key) {
                    let j = choose|j: int| 0 <= j < s.len() && s[j] == key;
                    assert(o[j] == key.raw);
                }
                assert(o.remove_value(key.raw).map_values(f) =~= s.remove_value(key));
            },
            Some(i) => {
                assert(s[i] == key);
                let j = s.index_of_first(key)->0;
                assert(o[j] == key.raw);
                assert(i == j);
                assert(o.remove(i).map_values(f) =~= s.remove(i));
            },
        }
    }

    /// Taking a handle out of the arena's walk takes its key out of the
    /// graph's walk.
    proof fn lemma_remove_commutes_edges(&self, key: EdgeKey)
        requires
            self.inv(),
        ensures
            edge_order(self.edges).remove_value(key.raw).map_values(|r: u64| EdgeKey { raw: r })
                == self.edge_seq().remove_value(key),
    {
        let f = |r: u64| EdgeKey { raw: r };
        let o = edge_order(self.edges);
        let s = self.edge_seq();
        o.index_of_first_ensures(key.raw);
        s.index_of_first_ensures(key);
        match o.index_of_first(key.raw) {
            None => {
                if s.contains(key) {
                    let j = choose|j: int| 0 <= j < s.len() && s[j] == key;
                    assert(o[j] == key.raw);
                }
                assert(o.remove_value(key.raw).map_values(f) =~= s.remove_value(key));
            },
            Some(i) => {
                assert(s[i] == key);
                let j = s.index_of_first(key)->0;
                assert(o[j] == key.raw);
                assert(i == j);
                assert(o.remove(i).map_values(f) =~= s.remove(i));
            },
        }
    }

    /// Applies one change to the node stored under `n`.
    pub(crate) fn update_node(&mut self, n: NodeKey, op: NodeOp)
        requires
            old(self).inv(),
            old(self)@.nodes.contains_key(n),
        ensures
            final(self).inv(),
            final(self)@.nodes == old(self)@.nodes.insert(n, op.apply(old(self)@.nodes[n])),
            final(self)@.edges == old(self)@.edges,
            final(self).same_spent(old(self)),
            final(self).node_seq() == old(self).node_seq(),
            final(self).edge_seq() == old(self).edge_seq(),
    {
        match nodes_get_mut(&mut self.nodes, n.raw) {
            Some(node) => {
                match op {
                    NodeOp::Move(p) => {
                        node.set_p_v_uns(&p);
                    },
                    NodeOp::AddTail(e) => {
                        match &mut node.keys {
                            Some(k) => k.insert_tail(e),
                            None => {},
                        }
                    },
                    NodeOp::AddHead(e) => {
                        match &mut node.keys {
                            Some(k) => k.insert_head(e),
                            None => {},
                        }
                    },
                    NodeOp::DropTail(e) => {
                        match &mut node.keys {
                            Some(k) => k.remove_tail(e),
                            None => {},
                        }
                    },
                    NodeOp::DropHead(e) => {
                        match &mut node.keys {
                            Some(k) => k.remove_head(e),
                            None => {},
                        }
                    },
                }
            },
            None => {},
        }
        proof {
            assert(self@.nodes =~= old(self)@.nodes.insert(n, op.apply(old(self)@.nodes[n])));
            assert(self@.edges =~= old(self)@.edges);
        }
    }

    /// Applies one change to the edge stored under `e`.
    pub(crate) fn update_edge(&mut self, e: EdgeKey, op: EdgeOp)
        requires
            old(self).inv(),
            old(self)@.edges.contains_key(e),
        ensures
            final(self).inv(),
            final(self)@.edges == old(self)@.edges.insert(e, op.apply(old(self)@.edges[e])),
            final(self)@.nodes == old(self)@.nodes,
            final(self).same_spent(old(self)),
            final(self).node_seq() == old(self).node_seq(),
            final(self).edge_seq() == old(self).edge_seq(),
    {
        match edges_get_mut(&mut self.edges, e.raw) {
            Some(edge) => {
                match op {
                    EdgeOp::MoveStart(p) => edge.set_p1_v_uns(&p),
                    EdgeOp::MoveEnd(p) => edge.set_p2_v_uns(&p),
                }
            },
            None => {},
        }
        proof {
            assert(self@.edges =~= old(self)@.edges.insert(e, op.apply(old(self)@.edges[e])));
            assert(self@.nodes =~= old(self)@.nodes);
        }
    }
}

} // verus!
