//! Shortest paths along the edges of a graph, each edge weighing its length.
//!
//! Lengths are kept in parts of a unit, [`LENGTH_SCALE`] to the unit, and
//! rounded down edge by edge: a path is shortest by the sum of these.

use crate::arena::ARENA_MAX;
use crate::error::GraphError;
use crate::graph::{Graph, GraphView};
use crate::heap::{Entry, MinHeap};
use crate::keys::{EdgeKey, NodeKey};
use crate::places::{lemma_place, lemma_place_found, lists_nodes, place_of, places};
use crate::point::{
    dist_sq, fine_length, lemma_dist_sq_zero, lemma_floor_sqrt, FINE_LENGTH_MAX, LENGTH_SCALE,
};
use std::collections::HashMap;
use vstd::prelude::*;

verus! {

broadcast use vstd::std_specs::hash::group_hash_axioms;

/// The distance reported for a node that cannot be reached.
pub const UNREACHABLE: u128 = u128::MAX;

/// The weight of the edge `e`: its length in parts of a unit, of which there
/// are [`LENGTH_SCALE`] to the unit, rounded down.
pub open spec fn weight(g: GraphView, e: EdgeKey) -> int {
    fine_length(g.edges[e].p1, g.edges[e].p2)
}

/// The sum of the weights of `edges`.
pub open spec fn path_length(g: GraphView, edges: Seq<EdgeKey>) -> int
    decreases edges.len(),
{
    if edges.len() == 0 {
        0
    } else {
        path_length(g, edges.drop_last()) + weight(g, edges.last())
    }
}

/// Whether `edges` are edges of the graph that lead, each from the end of the
/// one before, through `nodes` from first to last.
pub open spec fn is_walk(g: GraphView, nodes: Seq<NodeKey>, edges: Seq<EdgeKey>) -> bool {
    &&& nodes.len() == edges.len() + 1
    &&& g.nodes.contains_key(nodes[0])
    &&& forall|i: int|
        0 <= i < edges.len() ==> g.edges.contains_key(#[trigger] edges[i]) && g.edges[edges[i]].from
            == nodes[i] && g.edges[edges[i]].to == nodes[i + 1]
}

/// Whether `nodes` and `edges` are a walk from `s` to `t`.
pub open spec fn connects(
    g: GraphView,
    nodes: Seq<NodeKey>,
    edges: Seq<EdgeKey>,
    s: NodeKey,
    t: NodeKey,
) -> bool {
    is_walk(g, nodes, edges) && nodes[0] == s && nodes[nodes.len() - 1] == t
}

/// Whether some walk leads from `s` to `t`.
pub open spec fn reachable(g: GraphView, s: NodeKey, t: NodeKey) -> bool {
    exists|nodes: Seq<NodeKey>, edges: Seq<EdgeKey>| connects(g, nodes, edges, s, t)
}

/// Whether `nodes` and `edges` are a walk from `s` to `t` than which no walk
/// from `s` to `t` is shorter.
pub open spec fn is_shortest(
    g: GraphView,
    nodes: Seq<NodeKey>,
    edges: Seq<EdgeKey>,
    s: NodeKey,
    t: NodeKey,
) -> bool {
    &&& connects(g, nodes, edges, s, t)
    &&& forall|others: Seq<NodeKey>, other_edges: Seq<EdgeKey>| #[trigger]
        connects(g, others, other_edges, s, t) ==> path_length(g, edges) <= path_length(
            g,
            other_edges,
        )
}

/// Whether `nodes`, `edges` and `total` answer the question for a shortest
/// path from `s` to `t`: a shortest walk and its length where `t` can be
/// reached, the one-node walk where `t` is `s`, and otherwise no walk at all
/// and the distance [`UNREACHABLE`].
pub open spec fn is_answer(
    g: GraphView,
    s: NodeKey,
    t: NodeKey,
    nodes: Seq<NodeKey>,
    edges: Seq<EdgeKey>,
    total: u128,
) -> bool {
    if reachable(g, s, t) {
        &&& is_shortest(g, nodes, edges, s, t)
        &&& total == path_length(g, edges)
        &&& s == t ==> nodes == seq![s] && edges == Seq::<EdgeKey>::empty()
    } else {
        &&& nodes == Seq::<NodeKey>::empty()
        &&& edges == Seq::<EdgeKey>::empty()
        &&& total == UNREACHABLE
    }
}

/// No edge has a negative weight.
pub proof fn lemma_weight_nonnegative(g: GraphView, e: EdgeKey)
    ensures
        0 <= weight(g, e),
{
    lemma_dist_sq_zero(g.edges[e].p1, g.edges[e].p2);
    lemma_floor_sqrt(dist_sq(g.edges[e].p1, g.edges[e].p2) * (LENGTH_SCALE * LENGTH_SCALE));
}

/// A walk with at least one edge is a walk to the start of its last edge,
/// followed by that edge.
pub proof fn lemma_walk_split(
    g: GraphView,
    nodes: Seq<NodeKey>,
    edges: Seq<EdgeKey>,
    s: NodeKey,
    t: NodeKey,
)
    requires
        connects(g, nodes, edges, s, t),
        edges.len() > 0,
    ensures
        connects(g, nodes.drop_last(), edges.drop_last(), s, g.edges[edges.last()].from),
        g.edges.contains_key(edges.last()),
        g.edges[edges.last()].to == t,
        path_length(g, edges) == path_length(g, edges.drop_last()) + weight(g, edges.last()),
{
    let last = edges.len() - 1;
    assert(g.edges.contains_key(edges[last]));
    let pn = nodes.drop_last();
    let pe = edges.drop_last();
    assert forall|i: int| 0 <= i < pe.len() implies g.edges.contains_key(#[trigger] pe[i])
        && g.edges[pe[i]].from == pn[i] && g.edges[pe[i]].to == pn[i + 1] by {
        assert(pe[i] == edges[i]);
    }
}

/// A walk followed by an edge that starts where it ends is a walk to the end
/// of that edge.
pub proof fn lemma_walk_extend(
    g: GraphView,
    nodes: Seq<NodeKey>,
    edges: Seq<EdgeKey>,
    s: NodeKey,
    e: EdgeKey,
)
    requires
        g.edges.contains_key(e),
        connects(g, nodes, edges, s, g.edges[e].from),
    ensures
        connects(g, nodes.push(g.edges[e].to), edges.push(e), s, g.edges[e].to),
        path_length(g, edges.push(e)) == path_length(g, edges) + weight(g, e),
{
    let pn = nodes.push(g.edges[e].to);
    let pe = edges.push(e);
    assert forall|i: int| 0 <= i < pe.len() implies g.edges.contains_key(#[trigger] pe[i])
        && g.edges[pe[i]].from == pn[i] && g.edges[pe[i]].to == pn[i + 1] by {
        if i < edges.len() {
            assert(pe[i] == edges[i]);
        }
    }
    assert(pe.drop_last() =~= edges);
}

/// The state of a search from a source node: for every node, by its place in
/// `keys`, the least distance found so far, whether that distance is final,
/// the last step of the walk that has that length, and the walk itself.
struct Search {
    keys: Seq<NodeKey>,
    dist: Seq<u128>,
    done: Seq<bool>,
    step: Seq<Option<(usize, EdgeKey)>>,
    trail_nodes: Seq<Seq<NodeKey>>,
    trail_edges: Seq<Seq<EdgeKey>>,
}

impl Search {
    /// The rows are as many as the nodes, the source is at distance 0 by the
    /// walk that stays there, and what is final is finite.
    spec fn shaped(self, g: GraphView, s: NodeKey, si: int) -> bool {
        &&& lists_nodes(g, self.keys)
        &&& self.dist.len() == self.keys.len()
        &&& self.done.len() == self.keys.len()
        &&& self.step.len() == self.keys.len()
        &&& self.trail_nodes.len() == self.keys.len()
        &&& self.trail_edges.len() == self.keys.len()
        &&& 0 <= si < self.keys.len()
        &&& self.keys[si] == s
        &&& self.dist[si] == 0
        &&& self.trail_edges[si] == Seq::<EdgeKey>::empty()
        &&& self.trail_nodes[si] == seq![s]
        &&& forall|i: int| 0 <= i < self.keys.len() && #[trigger] self.done[i] ==> self.dist[i] < UNREACHABLE
    }

    /// Whether the row at `j` is accounted for: its distance is the length of
    /// the walk recorded for it, which leads from the source to that node
    /// and, but for the source itself, ends with the recorded step from a
    /// settled node.
    spec fn traced_at(self, g: GraphView, s: NodeKey, si: int, round: int, j: int) -> bool {
        &&& connects(g, self.trail_nodes[j], self.trail_edges[j], s, self.keys[j])
        &&& self.dist[j] == path_length(g, self.trail_edges[j])
        &&& self.dist[j] <= round * FINE_LENGTH_MAX
        &&& j != si ==> match self.step[j] {
            Some(hop) => self.stepped(g, j, hop.0 as int, hop.1),
            None => false,
        }
    }

    /// Every row with a finite distance is accounted for.
    spec fn traced(self, g: GraphView, s: NodeKey, si: int, round: int) -> bool {
        forall|j: int|
            0 <= j < self.keys.len() && (#[trigger] self.dist[j]) < UNREACHABLE ==> self.traced_at(
                g,
                s,
                si,
                round,
                j,
            )
    }

    /// Whether the walk to `j` is the walk to the settled node `i` followed
    /// by the edge `e`.
    spec fn stepped(self, g: GraphView, j: int, i: int, e: EdgeKey) -> bool {
        &&& 0 <= i < self.keys.len()
        &&& self.done[i]
        &&& g.edges.contains_key(e)
        &&& g.edges[e].from == self.keys[i]
        &&& g.edges[e].to == self.keys[j]
        &&& self.trail_edges[j] == self.trail_edges[i].push(e)
        &&& self.trail_nodes[j] == self.trail_nodes[i].push(self.keys[j])
    }

    /// No walk from the source to a settled node is shorter than the distance
    /// of that node.
    spec fn settled_best(self, g: GraphView, s: NodeKey) -> bool {
        forall|j: int, nodes: Seq<NodeKey>, edges: Seq<EdgeKey>|
            #![trigger self.done[j], connects(g, nodes, edges, s, self.keys[j])]
            0 <= j < self.keys.len() && self.done[j] && connects(g, nodes, edges, s, self.keys[j])
                ==> self.dist[j] <= path_length(g, edges)
    }

    /// Whether the edge `e`, which leaves the node at `i`, has been taken
    /// into account: the node it enters is at a finite distance, no more than
    /// that of `i` and the weight of `e`.
    spec fn relaxed_along(self, g: GraphView, i: int, e: EdgeKey) -> bool {
        &&& self.dist[place_of(self.keys, g.edges[e].to)] < UNREACHABLE
        &&& self.dist[place_of(self.keys, g.edges[e].to)] <= self.dist[i] + weight(g, e)
    }

    /// Every edge that leaves a settled node, but for the node at `skip`, has
    /// been taken into account.
    spec fn relaxed(self, g: GraphView, skip: int) -> bool {
        forall|i: int, e: EdgeKey|
            #![trigger self.done[i], g.edges.contains_key(e)]
            0 <= i < self.keys.len() && self.done[i] && i != skip && g.edges.contains_key(e)
                && g.edges[e].from == self.keys[i] ==> self.relaxed_along(g, i, e)
    }

    /// No settled node is farther than a node that is not settled.
    spec fn ordered(self) -> bool {
        forall|i: int, j: int|
            #![trigger self.done[i], self.done[j]]
            0 <= i < self.keys.len() && 0 <= j < self.keys.len() && self.done[i] && !self.done[j]
                ==> self.dist[i] <= self.dist[j]
    }

    /// All that a search keeps true between two rounds.
    spec fn inv(self, g: GraphView, s: NodeKey, si: int, round: int) -> bool {
        &&& self.shaped(g, s, si)
        &&& self.traced(g, s, si, round)
        &&& self.settled_best(g, s)
        &&& self.relaxed(g, -1)
        &&& self.ordered()
    }

    /// The search with the row at `u` settled.
    spec fn settle(self, u: int) -> Search {
        Search { done: self.done.update(u, true), ..self }
    }

    /// The search with the row at `j` reached from the row at `u` along `e`.
    spec fn reach(self, u: int, j: int, e: EdgeKey, d: u128) -> Search {
        Search {
            dist: self.dist.update(j, d),
            step: self.step.update(j, Some((u as usize, e))),
            trail_nodes: self.trail_nodes.update(j, self.trail_nodes[u].push(self.keys[j])),
            trail_edges: self.trail_edges.update(j, self.trail_edges[u].push(e)),
            ..self
        }
    }

    /// All that a search keeps true while the edges that leave the newly
    /// settled node at `u` are taken into account.
    spec fn inv_at(self, g: GraphView, s: NodeKey, si: int, round: int, u: int) -> bool {
        &&& self.shaped(g, s, si)
        &&& self.traced(g, s, si, round)
        &&& self.settled_best(g, s)
        &&& self.relaxed(g, u)
        &&& self.ordered()
        &&& 0 <= u < self.keys.len()
        &&& self.done[u]
        &&& forall|i: int| 0 <= i < self.keys.len() && #[trigger] self.done[i] ==> self.dist[i] <= self.dist[u]
    }

    /// A walk from the source to a node that is not settled is no shorter
    /// than `m`, where no unsettled node is nearer than `m`.
    proof fn lemma_frontier(
        self,
        g: GraphView,
        s: NodeKey,
        si: int,
        m: int,
        nodes: Seq<NodeKey>,
        edges: Seq<EdgeKey>,
        j: int,
    )
        requires
            g.wf(),
            self.shaped(g, s, si),
            self.settled_best(g, s),
            self.relaxed(g, -1),
            forall|y: int| 0 <= y < self.keys.len() && !(#[trigger] self.done[y]) ==> m <= self.dist[y],
            0 <= j < self.keys.len(),
            !self.done[j],
            connects(g, nodes, edges, s, self.keys[j]),
        ensures
            m <= path_length(g, edges),
        decreases edges.len(),
    {
        if edges.len() == 0 {
            assert(self.keys[j] == self.keys[si]);
            assert(j == si);
        } else {
            lemma_walk_split(g, nodes, edges, s, self.keys[j]);
            let e = edges.last();
            let x = g.edges[e].from;
            lemma_place(g, self.keys, x);
            let i = place_of(self.keys, x);
            lemma_weight_nonnegative(g, e);
            lemma_place_found(self.keys, j);
            if self.done[i] {
                assert(connects(g, nodes.drop_last(), edges.drop_last(), s, self.keys[i]));
                assert(self.relaxed_along(g, i, e));
            } else {
                self.lemma_frontier(g, s, si, m, nodes.drop_last(), edges.drop_last(), i);
            }
        }
    }

    /// Once the source is settled and no unsettled node is at a finite
    /// distance, every walk from the source ends at a settled node.
    proof fn lemma_closed(
        self,
        g: GraphView,
        s: NodeKey,
        si: int,
        nodes: Seq<NodeKey>,
        edges: Seq<EdgeKey>,
        j: int,
    )
        requires
            g.wf(),
            self.shaped(g, s, si),
            self.relaxed(g, -1),
            self.done[si],
            forall|y: int|
                0 <= y < self.keys.len() && !(#[trigger] self.done[y]) ==> self.dist[y]
                    == UNREACHABLE,
            0 <= j < self.keys.len(),
            connects(g, nodes, edges, s, self.keys[j]),
        ensures
            self.done[j],
        decreases edges.len(),
    {
        if edges.len() == 0 {
            assert(self.keys[j] == self.keys[si]);
            assert(j == si);
        } else {
            lemma_walk_split(g, nodes, edges, s, self.keys[j]);
            let e = edges.last();
            let x = g.edges[e].from;
            lemma_place(g, self.keys, x);
            let i = place_of(self.keys, x);
            lemma_place_found(self.keys, j);
            self.lemma_closed(g, s, si, nodes.drop_last(), edges.drop_last(), i);
            assert(self.relaxed_along(g, i, e));
        }
    }

    /// Settling the nearest unsettled node keeps the search in order: no walk
    /// to that node is shorter than its distance.
    proof fn lemma_settle(self, g: GraphView, s: NodeKey, si: int, round: int, u: int)
        requires
            g.wf(),
            self.inv(g, s, si, round),
            0 <= u < self.keys.len(),
            !self.done[u],
            self.dist[u] < UNREACHABLE,
            forall|y: int|
                0 <= y < self.keys.len() && !(#[trigger] self.done[y]) ==> self.dist[u] <= self.dist[y],
        ensures
            self.settle(u).inv_at(g, s, si, round + 1, u),
    {
        let after = self.settle(u);
        let m = self.dist[u] as int;
        assert(after.settled_best(g, s)) by {
            assert forall|j: int, nodes: Seq<NodeKey>, edges: Seq<EdgeKey>|
                #![trigger after.done[j], connects(g, nodes, edges, s, after.keys[j])]
                0 <= j < after.keys.len() && after.done[j] && connects(
                    g,
                    nodes,
                    edges,
                    s,
                    after.keys[j],
                ) implies after.dist[j] <= path_length(g, edges) by {
                if j == u {
                    self.lemma_frontier(g, s, si, m, nodes, edges, u);
                } else {
                    assert(self.done[j]);
                }
            }
        }
        assert(after.traced(g, s, si, round + 1)) by {
            assert forall|j: int|
                0 <= j < after.keys.len() && (#[trigger] after.dist[j]) < UNREACHABLE implies after.traced_at(
                g,
                s,
                si,
                round + 1,
                j,
            ) by {
                assert(self.dist[j] < UNREACHABLE);
                assert(self.traced_at(g, s, si, round, j));
                assert(round * FINE_LENGTH_MAX <= (round + 1) * FINE_LENGTH_MAX) by (nonlinear_arith);
                if j != si {
                    let hop = self.step[j]->0;
                    assert(self.stepped(g, j, hop.0 as int, hop.1));
                    assert(after.stepped(g, j, hop.0 as int, hop.1));
                }
            }
        }
        assert(after.relaxed(g, u)) by {
            assert forall|i: int, e: EdgeKey|
                #![trigger after.done[i], g.edges.contains_key(e)]
                0 <= i < after.keys.len() && after.done[i] && i != u && g.edges.contains_key(e)
                    && g.edges[e].from == after.keys[i] implies after.relaxed_along(g, i, e) by {
                assert(self.done[i]);
                assert(self.relaxed_along(g, i, e));
            }
        }
        assert(after.ordered()) by {
            assert forall|i: int, j: int|
                #![trigger after.done[i], after.done[j]]
                0 <= i < after.keys.len() && 0 <= j < after.keys.len() && after.done[i]
                    && !after.done[j] implies after.dist[i] <= after.dist[j] by {
                assert(!self.done[j]);
                if i != u {
                    assert(self.done[i]);
                }
            }
        }
        assert forall|i: int| 0 <= i < after.keys.len() && #[trigger] after.done[i] implies after.dist[i]
            <= after.dist[u] by {
            if i != u {
                assert(self.done[i] && !self.done[u]);
            }
        }
        assert(after.shaped(g, s, si)) by {
            assert forall|i: int| 0 <= i < after.keys.len() && #[trigger] after.done[i] implies after.dist[i]
                < UNREACHABLE by {
                if i != u {
                    assert(self.done[i]);
                }
            }
        }
    }

    /// Reaching an unsettled node by a shorter walk, along an edge that
    /// leaves the newly settled node, keeps the search in order and takes
    /// that edge into account.
    proof fn lemma_reach(
        self,
        g: GraphView,
        s: NodeKey,
        si: int,
        round: int,
        u: int,
        j: int,
        e: EdgeKey,
        d: u128,
    )
        requires
            g.wf(),
            self.inv_at(g, s, si, round, u),
            0 <= j < self.keys.len(),
            !self.done[j],
            g.edges.contains_key(e),
            g.edges[e].from == self.keys[u],
            g.edges[e].to == self.keys[j],
            d == self.dist[u] + weight(g, e),
            d < self.dist[j],
            d <= round * FINE_LENGTH_MAX,
        ensures
            self.reach(u, j, e, d).inv_at(g, s, si, round, u),
            self.reach(u, j, e, d).relaxed_along(g, u, e),
            forall|e2: EdgeKey|
                g.edges.contains_key(e2) && self.relaxed_along(g, u, e2) ==> #[trigger] self.reach(
                    u,
                    j,
                    e,
                    d,
                ).relaxed_along(g, u, e2),
    {
        let after = self.reach(u, j, e, d);
        lemma_weight_nonnegative(g, e);
        lemma_place_found(self.keys, j);
        assert(j != u);
        assert(j != si);
        assert(self.dist[u] < UNREACHABLE);
        assert(self.traced_at(g, s, si, round, u));
        lemma_walk_extend(g, self.trail_nodes[u], self.trail_edges[u], s, e);
        assert(after.traced(g, s, si, round)) by {
            assert forall|k: int|
                0 <= k < after.keys.len() && (#[trigger] after.dist[k]) < UNREACHABLE implies after.traced_at(
                g,
                s,
                si,
                round,
                k,
            ) by {
                if k == j {
                    assert(after.step[j] == Some((u as usize, e)));
                    assert(after.stepped(g, j, u, e));
                } else {
                    assert(self.dist[k] < UNREACHABLE);
                    assert(self.traced_at(g, s, si, round, k));
                    if k != si {
                        let hop = self.step[k]->0;
                        assert(self.stepped(g, k, hop.0 as int, hop.1));
                        assert(hop.0 as int != j);
                        assert(after.stepped(g, k, hop.0 as int, hop.1));
                    }
                }
            }
        }
        assert(after.settled_best(g, s)) by {
            assert forall|k: int, nodes: Seq<NodeKey>, edges: Seq<EdgeKey>|
                #![trigger after.done[k], connects(g, nodes, edges, s, after.keys[k])]
                0 <= k < after.keys.len() && after.done[k] && connects(
                    g,
                    nodes,
                    edges,
                    s,
                    after.keys[k],
                ) implies after.dist[k] <= path_length(g, edges) by {
                assert(self.done[k]);
            }
        }
        assert forall|e2: EdgeKey, i: int|
            0 <= i < self.keys.len() && self.done[i] && g.edges.contains_key(e2)
                && self.relaxed_along(g, i, e2) implies #[trigger] after.relaxed_along(g, i, e2) by {
            lemma_place(g, self.keys, g.edges[e2].to);
            let k = place_of(self.keys, g.edges[e2].to);
            assert(after.dist[i] == self.dist[i]);
            if k == j {
                assert(after.dist[k] == d);
            } else {
                assert(after.dist[k] == self.dist[k]);
            }
        }
        assert(after.relaxed(g, u)) by {
            assert forall|i: int, e2: EdgeKey|
                #![trigger after.done[i], g.edges.contains_key(e2)]
                0 <= i < after.keys.len() && after.done[i] && i != u && g.edges.contains_key(e2)
                    && g.edges[e2].from == after.keys[i] implies after.relaxed_along(g, i, e2) by {
                assert(self.done[i]);
                assert(self.relaxed_along(g, i, e2));
            }
        }
        assert(after.ordered()) by {
            assert forall|i: int, k: int|
                #![trigger after.done[i], after.done[k]]
                0 <= i < after.keys.len() && 0 <= k < after.keys.len() && after.done[i]
                    && !after.done[k] implies after.dist[i] <= after.dist[k] by {
                assert(self.done[i] && !self.done[k]);
            }
        }
        assert(after.shaped(g, s, si)) by {
            assert forall|i: int| 0 <= i < after.keys.len() && #[trigger] after.done[i] implies after.dist[i]
                < UNREACHABLE by {
                assert(self.done[i]);
            }
        }
        assert forall|i: int| 0 <= i < after.keys.len() && #[trigger] after.done[i] implies after.dist[i]
            <= after.dist[u] by {
            assert(self.done[i]);
        }
        assert(after.relaxed_along(g, u, e));
    }

    /// An edge that leaves the newly settled node and offers no shorter walk
    /// to the node it enters is taken into account as things are.
    proof fn lemma_pass(self, g: GraphView, s: NodeKey, si: int, round: int, u: int, j: int, e: EdgeKey)
        requires
            g.wf(),
            self.inv_at(g, s, si, round, u),
            0 <= j < self.keys.len(),
            g.edges.contains_key(e),
            g.edges[e].from == self.keys[u],
            g.edges[e].to == self.keys[j],
            self.done[j] || (self.dist[j] < UNREACHABLE && self.dist[j] <= self.dist[u] + weight(
                g,
                e,
            )),
        ensures
            self.relaxed_along(g, u, e),
    {
        lemma_weight_nonnegative(g, e);
        lemma_place_found(self.keys, j);
    }

    /// Once every edge that leaves the newly settled node is taken into
    /// account, the round is over.
    proof fn lemma_round_over(self, g: GraphView, s: NodeKey, si: int, round: int, u: int)
        requires
            g.wf(),
            self.inv_at(g, s, si, round, u),
            forall|e: EdgeKey| #[trigger]
                g.edges.contains_key(e) && g.edges[e].from == self.keys[u] ==> self.relaxed_along(
                    g,
                    u,
                    e,
                ),
        ensures
            self.inv(g, s, si, round),
    {
        assert forall|i: int, e: EdgeKey|
            #![trigger self.done[i], g.edges.contains_key(e)]
            0 <= i < self.keys.len() && self.done[i] && i != -1 && g.edges.contains_key(e)
                && g.edges[e].from == self.keys[i] implies self.relaxed_along(g, i, e) by {
            if i != u {
                assert(self.relaxed(g, u));
            }
        }
    }
}

/// How many of the rows are not settled.
spec fn open_count(done: Seq<bool>) -> nat
    decreases done.len(),
{
    if done.len() == 0 {
        0
    } else {
        open_count(done.drop_last()) + if done.last() {
            0nat
        } else {
            1nat
        }
    }
}

/// Settling a row leaves one row fewer that is not settled.
proof fn lemma_open_count_settle(done: Seq<bool>, u: int)
    requires
        0 <= u < done.len(),
        !done[u],
    ensures
        open_count(done.update(u, true)) + 1 == open_count(done),
        open_count(done) <= done.len(),
    decreases done.len(),
{
    let after = done.update(u, true);
    if u == done.len() - 1 {
        assert(after.drop_last() =~= done.drop_last());
        lemma_open_count_bound(done.drop_last());
    } else {
        assert(after.drop_last() =~= done.drop_last().update(u, true));
        lemma_open_count_settle(done.drop_last(), u);
    }
}

/// No more rows are unsettled than there are rows.
proof fn lemma_open_count_bound(done: Seq<bool>)
    ensures
        open_count(done) <= done.len(),
    decreases done.len(),
{
    if done.len() > 0 {
        lemma_open_count_bound(done.drop_last());
    }
}

/// The rows of a search as the machine holds them.
struct Frontier {
    dist: Vec<u128>,
    done: Vec<bool>,
    step: Vec<Option<(usize, EdgeKey)>>,
    queue: MinHeap,
    trail_nodes: Ghost<Seq<Seq<NodeKey>>>,
    trail_edges: Ghost<Seq<Seq<EdgeKey>>>,
}

impl Frontier {
    /// The search that the rows stand for.
    spec fn model(&self, keys: Seq<NodeKey>) -> Search {
        Search {
            keys,
            dist: self.dist@,
            done: self.done@,
            step: self.step@,
            trail_nodes: self.trail_nodes@,
            trail_edges: self.trail_edges@,
        }
    }

    /// How many rows are settled.
    spec fn settled(&self) -> int {
        self.done@.len() - open_count(self.done@)
    }

    /// Whether the queue serves the rows: it is in order, each entry is for a
    /// row and gives a finite distance no less than the row's, and every
    /// unsettled row at a finite distance, but for the row at `skip`, is
    /// queued at that distance.
    spec fn queued(&self, skip: int) -> bool {
        &&& self.queue.wf()
        &&& forall|e: Entry| #[trigger]
            self.queue.holds(e) ==> e.1 < self.dist@.len() && self.dist@[e.1 as int] <= e.0 && e.0
                < UNREACHABLE
        &&& forall|i: int|
            0 <= i < self.dist@.len() && i != skip && !self.done@[i] && self.dist@[i]
                < UNREACHABLE ==> self.queue.holds((#[trigger] self.dist@[i], i as usize))
    }

    /// The rows before the first round: the source at distance 0, every other
    /// node out of reach, nothing settled.
    fn start(g: Ghost<GraphView>, keys: Ghost<Seq<NodeKey>>, n: usize, si: usize) -> (f: Self)
        requires
            lists_nodes(g@, keys@),
            n == keys@.len(),
            si < n,
        ensures
            f.model(keys@).inv(g@, keys@[si as int], si as int, 0),
            f.settled() == 0,
            f.queued(-1),
    {
        let mut dist: Vec<u128> = Vec::new();
        let mut done: Vec<bool> = Vec::new();
        let mut step: Vec<Option<(usize, EdgeKey)>> = Vec::new();
        let mut i: usize = 0;
        while i < n
            invariant
                i <= n,
                si < n,
                dist@.len() == i,
                done@.len() == i,
                step@.len() == i,
                open_count(done@) == i,
                forall|j: int| 0 <= j < i ==> !(#[trigger] done@[j]),
                forall|j: int| 0 <= j < i ==> (#[trigger] dist@[j]) == if j == si {
                    0
                } else {
                    UNREACHABLE
                },
            decreases n - i,
        {
            let ghost before = done@;
            dist.push(if i == si { 0 } else { UNREACHABLE });
            done.push(false);
            step.push(None);
            assert(done@.drop_last() =~= before);
            i += 1;
        }
        let ghost s = keys@[si as int];
        let ghost trail_nodes = Seq::new(n as nat, |j: int| seq![s]);
        let ghost trail_edges = Seq::new(n as nat, |j: int| Seq::<EdgeKey>::empty());
        let mut queue = MinHeap::new();
        queue.push((0, si));
        let f = Frontier {
            dist,
            done,
            step,
            queue,
            trail_nodes: Ghost(trail_nodes),
            trail_edges: Ghost(trail_edges),
        };
        proof {
            assert(keys@.contains(s));
            let st = f.model(keys@);
            assert(connects(g@, seq![s], Seq::<EdgeKey>::empty(), s, s));
            assert forall|j: int|
                0 <= j < st.keys.len() && (#[trigger] st.dist[j]) < UNREACHABLE implies j == si by {}
        }
        f
    }

    /// The unsettled node at the least finite distance, taken from the queue;
    /// `None` where no unsettled node is within reach.
    fn next(&mut self) -> (r: Option<usize>)
        requires
            old(self).queued(-1),
            old(self).done@.len() == old(self).dist@.len(),
        ensures
            final(self).dist@ == old(self).dist@,
            final(self).done@ == old(self).done@,
            final(self).step@ == old(self).step@,
            final(self).trail_nodes@ == old(self).trail_nodes@,
            final(self).trail_edges@ == old(self).trail_edges@,
            match r {
                Some(u) => {
                    &&& u < old(self).dist@.len()
                    &&& !old(self).done@[u as int]
                    &&& old(self).dist@[u as int] < UNREACHABLE
                    &&& forall|y: int|
                        0 <= y < old(self).dist@.len() && !(#[trigger] old(self).done@[y]) ==> old(self).dist@[u as int]
                            <= old(self).dist@[y]
                    &&& final(self).queued(u as int)
                },
                None => {
                    &&& forall|y: int|
                        0 <= y < old(self).dist@.len() && !(#[trigger] old(self).done@[y]) ==> old(self).dist@[y]
                            == UNREACHABLE
                    &&& final(self).queued(-1)
                },
            },
    {
        loop
            invariant
                self.queued(-1),
                self.dist@ == old(self).dist@,
                self.done@ == old(self).done@,
                self.step@ == old(self).step@,
                self.trail_nodes@ == old(self).trail_nodes@,
                self.trail_edges@ == old(self).trail_edges@,
                self.done@.len() == self.dist@.len(),
            decreases self.queue.size(),
        {
            let ghost before = self.queue;
            assert(self.dist@.len() == self.dist.len());
            match self.queue.pop() {
                None => {
                    proof {
                        assert forall|y: int|
                            0 <= y < self.dist@.len() && !(#[trigger] self.done@[y]) implies self.dist@[y]
                                == UNREACHABLE by {
                            if self.dist@[y] < UNREACHABLE {
                                assert(before.holds((self.dist@[y], y as usize)));
                            }
                        }
                    }
                    return None;
                },
                Some(e) => {
                    assert(before.holds(e));
                    let u = e.1;
                    if !self.done[u] {
                        proof {
                            assert forall|y: int|
                                0 <= y < self.dist@.len() && !(#[trigger] self.done@[y]) implies self.dist@[u as int]
                                    <= self.dist@[y] by {
                                if self.dist@[y] < UNREACHABLE {
                                    assert(before.holds((self.dist@[y], y as usize)));
                                }
                            }
                            assert forall|i: int|
                                0 <= i < self.dist@.len() && i != u && !self.done@[i] && self.dist@[i]
                                    < UNREACHABLE implies self.queue.holds(
                                (#[trigger] self.dist@[i], i as usize),
                            ) by {
                                let y: Entry = (self.dist@[i], i as usize);
                                assert(before.holds(y));
                                assert(y.1 != e.1);
                                assert(y != e);
                                assert(self.queue.holds(y));
                            }
                        }
                        return Some(u);
                    }
                    proof {
                        assert forall|i: int|
                            0 <= i < self.dist@.len() && !self.done@[i] && self.dist@[i]
                                < UNREACHABLE implies self.queue.holds(
                            (#[trigger] self.dist@[i], i as usize),
                        ) by {
                            let y: Entry = (self.dist@[i], i as usize);
                            assert(before.holds(y));
                            assert(y.1 != e.1);
                            assert(y != e);
                            assert(self.queue.holds(y));
                        }
                    }
                },
            }
        }
    }

    /// Settles the node at `u`, the nearest of the unsettled ones, and takes
    /// every edge that leaves it into account: where the edge offers a
    /// shorter walk to an unsettled node, that walk is recorded.
    fn settle(
        &mut self,
        graph: &Graph,
        keys: &Vec<NodeKey>,
        index: &HashMap<u64, usize>,
        u: usize,
        si: Ghost<int>,
    )
        requires
            graph.wf(),
            keys@ == graph.node_seq(),
            keys@.len() <= ARENA_MAX,
            forall|i: int|
                0 <= i < keys@.len() ==> index@.contains_key((#[trigger] keys@[i]).as_ffi())
                    && index@[keys@[i].as_ffi()] == i,
            old(self).model(keys@).inv(graph@, keys@[si@], si@, old(self).settled()),
            u < keys@.len(),
            !old(self).done@[u as int],
            old(self).dist@[u as int] < UNREACHABLE,
            forall|y: int|
                0 <= y < keys@.len() && !(#[trigger] old(self).done@[y]) ==> old(self).dist@[u as int]
                    <= old(self).dist@[y],
            old(self).queued(u as int),
        ensures
            final(self).model(keys@).inv(graph@, keys@[si@], si@, final(self).settled()),
            open_count(final(self).done@) + 1 == open_count(old(self).done@),
            final(self).queued(-1),
    {
        let ghost g = graph@;
        let ghost s = keys@[si@];
        let ghost round = self.settled() + 1;
        let du = self.dist[u];
        proof {
            lemma_open_count_settle(self.done@, u as int);
            self.model(keys@).lemma_settle(g, s, si@, round - 1, u as int);
            assert(self.model(keys@).settle(u as int).done =~= self.done@.update(u as int, true));
            assert(self.model(keys@).traced_at(g, s, si@, round - 1, u as int));
        }
        self.done.set(u, true);
        assert(self.model(keys@) == old(self).model(keys@).settle(u as int));
        assert(self.queued(-1));
        assert(keys@.contains(keys@[u as int]));
        let tails = match graph.node(keys[u]) {
            Some(n) => n.get_id().tails(),
            None => Vec::new(),
        };
        proof {
            assert forall|e: EdgeKey| tails@.contains(e) == g.nodes[keys@[u as int]].tails.contains(
                e,
            ) by {}
            assert forall|i: int| 0 <= i < tails@.len() implies g.edges.contains_key(
                #[trigger] tails@[i],
            ) && g.edges[tails@[i]].from == keys@[u as int] by {
                assert(tails@.contains(tails@[i]));
                assert(g.nodes[keys@[u as int]].tails.contains(tails@[i]));
            }
        }
        let mut k: usize = 0;
        while k < tails.len()
            invariant
                graph.wf(),
                g == graph@,
                s == keys@[si@],
                keys@ == graph.node_seq(),
                keys@.len() <= ARENA_MAX,
                forall|i: int|
                    0 <= i < keys@.len() ==> index@.contains_key((#[trigger] keys@[i]).as_ffi())
                        && index@[keys@[i].as_ffi()] == i,
                u < keys@.len(),
                self.model(keys@).inv_at(g, s, si@, round, u as int),
                self.queued(-1),
                self.done@ == old(self).done@.update(u as int, true),
                round == self.settled(),
                1 <= round <= keys@.len(),
                self.dist@[u as int] == du,
                du <= (round - 1) * FINE_LENGTH_MAX,
                k <= tails@.len(),
                forall|e: EdgeKey| tails@.contains(e) == g.nodes[keys@[u as int]].tails.contains(e),
                forall|i: int|
                    0 <= i < tails@.len() ==> g.edges.contains_key(#[trigger] tails@[i])
                        && g.edges[tails@[i]].from == keys@[u as int],
                forall|i: int|
                    0 <= i < k ==> self.model(keys@).relaxed_along(g, u as int, #[trigger] tails@[i]),
            decreases tails@.len() - k,
        {
            let e = tails[k];
            let ghost st = self.model(keys@);
            match graph.edge(e) {
                Some(edge) => {
                    let to = edge.get_id().1;
                    let ends = edge.get_pos();
                    let w = ends.0.distance_fine(ends.1) as u128;
                    proof {
                        lemma_place(g, keys@, to);
                    }
                    match index.get(&to.as_ffi()) {
                        Some(place) => {
                            let j = *place;
                            assert(keys@[j as int] == to);
                            if !self.done[j] && du + w < self.dist[j] {
                                let d = du + w;
                                proof {
                                    st.lemma_reach(g, s, si@, round, u as int, j as int, e, d);
                                }
                                let ghost queue_before = self.queue;
                                self.dist.set(j, d);
                                self.step.set(j, Some((u, e)));
                                self.queue.push((d, j));
                                proof {
                                    assert forall|x: Entry| #[trigger]
                                        self.queue.holds(x) implies x.1 < self.dist@.len()
                                        && self.dist@[x.1 as int] <= x.0 && x.0 < UNREACHABLE by {
                                        if x != (d, j) {
                                            assert(queue_before.holds(x));
                                        }
                                    }
                                    assert forall|i: int|
                                        0 <= i < self.dist@.len() && !self.done@[i] && self.dist@[i]
                                            < UNREACHABLE implies self.queue.holds(
                                        (#[trigger] self.dist@[i], i as usize),
                                    ) by {
                                        if i != j {
                                            assert(queue_before.holds((st.dist[i], i as usize)));
                                        }
                                    }
                                    self.trail_nodes@ = self.trail_nodes@.update(
                                        j as int,
                                        self.trail_nodes@[u as int].push(keys@[j as int]),
                                    );
                                    self.trail_edges@ = self.trail_edges@.update(
                                        j as int,
                                        self.trail_edges@[u as int].push(e),
                                    );
                                    assert(self.model(keys@) == st.reach(u as int, j as int, e, d));
                                }
                            } else {
                                proof {
                                    st.lemma_pass(g, s, si@, round, u as int, j as int, e);
                                }
                            }
                        },
                        None => {
                            assert(false);
                        },
                    }
                },
                None => {
                    assert(false);
                },
            }
            k += 1;
        }
        proof {
            let st = self.model(keys@);
            assert forall|e: EdgeKey| #[trigger]
                g.edges.contains_key(e) && g.edges[e].from == st.keys[u as int] implies st.relaxed_along(
                g,
                u as int,
                e,
            ) by {
                assert(g.nodes[keys@[u as int]].tails.contains(e));
                assert(tails@.contains(e));
                let i = choose|i: int| 0 <= i < tails@.len() && tails@[i] == e;
                assert(st.relaxed_along(g, u as int, tails@[i]));
            }
            st.lemma_round_over(g, s, si@, round, u as int);
        }
    }

    /// The walk recorded for the node at `ti`: its nodes and its edges.
    fn trail(&self, graph: Ghost<GraphView>, keys: &Vec<NodeKey>, si: usize, ti: usize, round: Ghost<int>)
        -> (r: (Vec<NodeKey>, Vec<EdgeKey>))
        requires
            self.model(keys@).inv(graph@, keys@[si as int], si as int, round@),
            ti < keys@.len(),
            self.dist@[ti as int] < UNREACHABLE,
        ensures
            r.0@ == self.trail_nodes@[ti as int],
            r.1@ == self.trail_edges@[ti as int],
    {
        let ghost st = self.model(keys@);
        let ghost g = graph@;
        let ghost s = keys@[si as int];
        let mut back_nodes: Vec<NodeKey> = Vec::new();
        let mut back_edges: Vec<EdgeKey> = Vec::new();
        let mut cur = ti;
        proof {
            assert(self.trail_nodes@[ti as int] + back_nodes@.reverse() =~= self.trail_nodes@[ti as int]);
            assert(self.trail_edges@[ti as int] + back_edges@.reverse() =~= self.trail_edges@[ti as int]);
        }
        while cur != si
            invariant
                st == self.model(keys@),
                st.inv(g, s, si as int, round@),
                s == keys@[si as int],
                ti < keys@.len(),
                cur < keys@.len(),
                self.dist@[cur as int] < UNREACHABLE,
                self.trail_nodes@[ti as int] == self.trail_nodes@[cur as int] + back_nodes@.reverse(),
                self.trail_edges@[ti as int] == self.trail_edges@[cur as int] + back_edges@.reverse(),
            decreases self.trail_edges@[cur as int].len(),
        {
            assert(st.traced_at(g, s, si as int, round@, cur as int));
            match self.step[cur] {
                Some(hop) => {
                    let ghost before_nodes = back_nodes@;
                    let ghost before_edges = back_edges@;
                    assert(st.stepped(g, cur as int, hop.0 as int, hop.1));
                    back_nodes.push(keys[cur]);
                    back_edges.push(hop.1);
                    proof {
                        assert(back_nodes@.reverse() =~= seq![keys@[cur as int]] + before_nodes.reverse());
                        assert(back_edges@.reverse() =~= seq![hop.1] + before_edges.reverse());
                        assert(self.trail_nodes@[hop.0 as int] + back_nodes@.reverse()
                            =~= self.trail_nodes@[cur as int] + before_nodes.reverse());
                        assert(self.trail_edges@[hop.0 as int] + back_edges@.reverse()
                            =~= self.trail_edges@[cur as int] + before_edges.reverse());
                    }
                    cur = hop.0;
                },
                None => {
                    assert(false);
                    cur = si;
                },
            }
        }
        let ghost before_nodes = back_nodes@;
        back_nodes.push(keys[si]);
        proof {
            assert(back_nodes@.reverse() =~= seq![s] + before_nodes.reverse());
        }
        (reversed(&back_nodes), reversed(&back_edges))
    }
}

/// The elements of `v` from last to first.
fn reversed<T: Copy>(v: &Vec<T>) -> (r: Vec<T>)
    ensures
        r@ == v@.reverse(),
{
    let mut r: Vec<T> = Vec::new();
    let mut k: usize = v.len();
    while k > 0
        invariant
            k <= v@.len(),
            r@.len() == v@.len() - k,
            forall|i: int| 0 <= i < r@.len() ==> (#[trigger] r@[i]) == v@[v@.len() - 1 - i],
        decreases k,
    {
        k -= 1;
        r.push(v[k]);
    }
    assert(r@ =~= v@.reverse());
    r
}

/// A shortest path from `source` to `target` along the edges of the graph, in
/// their direction: the nodes of the path, its edges, and its length. An edge
/// weighs its length in parts of a unit, [`LENGTH_SCALE`] to the unit, rounded
/// down, and the length of the path is the sum of these; divide it by
/// [`LENGTH_SCALE`] for units. Where several paths are equally short, any of
/// them may be returned. Where `target` cannot be reached the two lists are
/// empty and the length is [`UNREACHABLE`].
pub fn find_shortest_path(graph: &Graph, source: NodeKey, target: NodeKey) -> (r: Result<
    (Vec<NodeKey>, Vec<EdgeKey>, u128),
    GraphError,
>)
    requires
        graph.wf(),
    ensures
        match r {
            Ok(found) => {
                &&& graph@.nodes.contains_key(source)
                &&& graph@.nodes.contains_key(target)
                &&& is_answer(graph@, source, target, found.0@, found.1@, found.2)
            },
            Err(e) => {
                &&& e == GraphError::UnknownNode
                &&& !(graph@.nodes.contains_key(source) && graph@.nodes.contains_key(target))
            },
        },
{
    if graph.node(source).is_none() || graph.node(target).is_none() {
        return Err(GraphError::UnknownNode);
    }
    let keys = graph.node_keys();
    let n = graph.node_count();
    let ghost g = graph@;
    proof {
        assert(lists_nodes(g, keys@));
        lemma_place(g, keys@, source);
        lemma_place(g, keys@, target);
    }
    let index = places(&keys);
    let si = match index.get(&source.as_ffi()) {
        Some(i) => *i,
        None => {
            assert(false);
            return Err(GraphError::UnknownNode);
        },
    };
    let ti = match index.get(&target.as_ffi()) {
        Some(i) => *i,
        None => {
            assert(false);
            return Err(GraphError::UnknownNode);
        },
    };
    assert(keys@[si as int] == source);
    assert(keys@[ti as int] == target);
    let mut f = Frontier::start(Ghost(g), Ghost(keys@), keys.len(), si);
    let mut next = f.next();
    while next.is_some()
        invariant
            graph.wf(),
            g == graph@,
            keys@ == graph.node_seq(),
            keys@.len() <= ARENA_MAX,
            forall|i: int|
                0 <= i < keys@.len() ==> index@.contains_key((#[trigger] keys@[i]).as_ffi())
                    && index@[keys@[i].as_ffi()] == i,
            si < keys@.len(),
            keys@[si as int] == source,
            f.model(keys@).inv(g, source, si as int, f.settled()),
            match next {
                Some(u) => {
                    &&& u < f.dist@.len()
                    &&& !f.done@[u as int]
                    &&& f.dist@[u as int] < UNREACHABLE
                    &&& forall|y: int|
                        0 <= y < f.dist@.len() && !(#[trigger] f.done@[y]) ==> f.dist@[u as int]
                            <= f.dist@[y]
                    &&& f.queued(u as int)
                },
                None => {
                    &&& forall|y: int|
                        0 <= y < f.dist@.len() && !(#[trigger] f.done@[y]) ==> f.dist@[y]
                            == UNREACHABLE
                    &&& f.queued(-1)
                },
            },
        decreases open_count(f.done@),
    {
        let u = next.unwrap();
        f.settle(graph, &keys, &index, u, Ghost(si as int));
        next = f.next();
    }
    let ghost st = f.model(keys@);
    if f.dist[ti] == UNREACHABLE {
        proof {
            assert(st.done[si as int]);
            assert forall|nodes: Seq<NodeKey>, edges: Seq<EdgeKey>|
                !connects(g, nodes, edges, source, target) by {
                if connects(g, nodes, edges, source, target) {
                    st.lemma_closed(g, source, si as int, nodes, edges, ti as int);
                }
            }
        }
        Ok((Vec::new(), Vec::new(), UNREACHABLE))
    } else {
        let found = f.trail(Ghost(g), &keys, si, ti, Ghost(f.settled()));
        proof {
            assert(st.traced_at(g, source, si as int, f.settled(), ti as int));
            assert(st.done[ti as int]);
            assert(connects(g, found.0@, found.1@, source, target));
            assert forall|others: Seq<NodeKey>, other_edges: Seq<EdgeKey>| #[trigger]
                connects(g, others, other_edges, source, target) implies path_length(g, found.1@)
                <= path_length(g, other_edges) by {
                assert(connects(g, others, other_edges, source, st.keys[ti as int]));
            }
            if source == target {
                lemma_place_found(keys@, si as int);
                lemma_place_found(keys@, ti as int);
            }
        }
        Ok((found.0, found.1, f.dist[ti]))
    }
}

} // verus!
