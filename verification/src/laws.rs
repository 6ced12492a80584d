//! What holds of every well-formed graph and of every change to one.

use crate::error::GraphError;
use crate::graph::{Graph, GraphView};
use crate::keys::{EdgeKey, NodeKey};
use crate::lists::{asked_for, granted, linked, links_in_range, rebuilt};
use crate::places::{lemma_place, lemma_place_found, place_of};
use crate::point::{across, dist_sq, lemma_dist_sq_zero, near_segment, Point};
use crate::variables::EDGE_THICKNESS;
use crate::query::SL;
use crate::select::{
    is_first_least, is_first_min, lemma_first_least_unique, lemma_first_min_unique,
};
use crate::seqs::lemma_insert_fresh;
use vstd::prelude::*;

verus! {

/// Adjacency is symmetric: an edge of a well-formed graph joins two of its
/// nodes, is listed among the edges that leave the first and among the edges
/// that enter the second, and caches the positions of both.
pub proof fn lemma_adjacency_symmetry(g: &Graph, e: EdgeKey)
    requires
        g.wf(),
        g@.edges.contains_key(e),
    ensures
        g@.nodes.contains_key(g@.edges[e].from),
        g@.nodes.contains_key(g@.edges[e].to),
        g@.nodes[g@.edges[e].from].tails.contains(e),
        g@.nodes[g@.edges[e].to].heads.contains(e),
        g@.edges[e].p1 == g@.nodes[g@.edges[e].from].pos,
        g@.edges[e].p2 == g@.nodes[g@.edges[e].to].pos,
{
}

/// Adjacency lists nothing else: what a node of a well-formed graph lists as
/// leaving it is an edge that starts there, and what it lists as entering it
/// is an edge that ends there.
pub proof fn lemma_adjacency_sound(g: &Graph, n: NodeKey, e: EdgeKey)
    requires
        g.wf(),
        g@.nodes.contains_key(n),
    ensures
        g@.nodes[n].tails.contains(e) ==> g@.edges.contains_key(e) && g@.edges[e].from == n,
        g@.nodes[n].heads.contains(e) ==> g@.edges.contains_key(e) && g@.edges[e].to == n,
{
}

/// A spent key names nothing: the key of a node or an edge that was removed
/// is not the key of a node or an edge of the graph, whatever was added
/// since. (A key is spent from its removal on, until a worn key is removed
/// at its slot; a new key is never a spent one.)
pub proof fn lemma_spent_keys_name_nothing(g: &Graph, n: NodeKey, e: EdgeKey)
    requires
        g.wf(),
    ensures
        g.spent_nodes().contains(n) ==> !g@.nodes.contains_key(n),
        g.spent_edges().contains(e) ==> !g@.edges.contains_key(e),
{
}

/// Removing a node cascades completely: the node is gone, no edge that is
/// left starts or ends at it, and no node that is left lists an edge that
/// went with it.
pub proof fn lemma_cascade_complete(before: GraphView, n: NodeKey)
    requires
        before.wf(),
        before.nodes.contains_key(n),
    ensures
        !before.without_node(n).nodes.contains_key(n),
        forall|e: EdgeKey| #[trigger]
            before.without_node(n).edges.contains_key(e) ==> before.edges.contains_key(e)
                && before.edges[e].from != n && before.edges[e].to != n
                && before.without_node(n).edges[e] == before.edges[e],
        forall|m: NodeKey, e: EdgeKey|
            #![trigger before.without_node(n).nodes[m], before.without_node(n).edges.contains_key(e)]
            before.without_node(n).nodes.contains_key(m) && !before.without_node(
                n,
            ).edges.contains_key(e) ==> !before.without_node(n).nodes[m].tails.contains(e)
                && !before.without_node(n).nodes[m].heads.contains(e),
{
    let after = before.without_node(n);
    before.lemma_without_node_wf(n);
    assert forall|m: NodeKey, e: EdgeKey|
        #![trigger after.nodes[m], after.edges.contains_key(e)]
        after.nodes.contains_key(m) && !after.edges.contains_key(e) implies !after.nodes[m].tails.contains(
        e,
    ) && !after.nodes[m].heads.contains(e) by {
        if after.nodes[m].tails.contains(e) {
            assert(after.edges.contains_key(e));
        }
        if after.nodes[m].heads.contains(e) {
            assert(after.edges.contains_key(e));
        }
    }
}

/// Adding an edge is idempotent: where adding an edge from `a` to `b`
/// succeeds, adding one from `a` to `b` again returns the same key and leaves
/// the graph as it is; over the two calls the number of edges grows by one
/// where no edge led from `a` to `b` before, and not at all where one did.
pub proof fn lemma_add_edge_twice(
    g0: &Graph,
    g1: &Graph,
    g2: &Graph,
    a: NodeKey,
    b: NodeKey,
    first_attached: bool,
    second_attached: bool,
    r1: Result<EdgeKey, GraphError>,
    r2: Result<EdgeKey, GraphError>,
)
    requires
        g0.wf(),
        g1.wf(),
        g2.wf(),
        g0.add_edge_outcome(*g1, first_attached, a, b, r1),
        g1.add_edge_outcome(*g2, second_attached, a, b, r2),
        r1 is Ok,
    ensures
        r2 == r1,
        g2@ == g1@,
        g2.edge_seq() == g1.edge_seq(),
        g2.edge_seq().len() == g0.edge_seq().len() + if g0@.edge_between(a, b) is None {
            1int
        } else {
            0int
        },
{
    let k = r1->Ok_0;
    if g0@.edge_between(a, b) is None {
        assert(g1@.joins(k, a, b));
        let i = choose|i: int|
            0 <= i <= g0.edge_seq().len() && g1.edge_seq() == g0.edge_seq().insert(i, k);
        assert(!g0.edge_seq().contains(k));
        lemma_insert_fresh(g0.edge_seq(), i, k);
    } else {
        assert(g0@.joins(k, a, b));
    }
    assert(g1@.joins(k, a, b));
    assert(g1@.edge_between(a, b) is Some);
    let k2 = g1@.edge_between(a, b)->0;
    assert(g1@.joins(k2, a, b));
}

/// Positions propagate: once a node has moved to `p`, every edge that it
/// lists as entering it ends at `p` and every edge that it lists as leaving
/// it starts at `p`; nothing else has moved, and the graph is wired as it
/// was.
pub proof fn lemma_position_propagates(before: GraphView, n: NodeKey, p: Point)
    requires
        before.wf(),
        before.nodes.contains_key(n),
    ensures
        before.with_node_at(n, p).wf(),
        before.with_node_at(n, p).nodes[n].pos == p,
        before.with_node_at(n, p).nodes[n].heads == before.nodes[n].heads,
        before.with_node_at(n, p).nodes[n].tails == before.nodes[n].tails,
        forall|e: EdgeKey| #[trigger]
            before.with_node_at(n, p).nodes[n].heads.contains(e) ==> before.with_node_at(
                n,
                p,
            ).edges[e].p2 == p,
        forall|e: EdgeKey| #[trigger]
            before.with_node_at(n, p).nodes[n].tails.contains(e) ==> before.with_node_at(
                n,
                p,
            ).edges[e].p1 == p,
        forall|e: EdgeKey| #[trigger]
            before.edges.contains_key(e) ==> before.with_node_at(n, p).edges.contains_key(e)
                && before.with_node_at(n, p).edges[e].from == before.edges[e].from
                && before.with_node_at(n, p).edges[e].to == before.edges[e].to && (
            before.edges[e].from != n ==> before.with_node_at(n, p).edges[e].p1
                == before.edges[e].p1) && (before.edges[e].to != n ==> before.with_node_at(
                n,
                p,
            ).edges[e].p2 == before.edges[e].p2),
{
    before.lemma_with_node_at_wf(n, p);
    let after = before.with_node_at(n, p);
    assert forall|e: EdgeKey| #[trigger] before.edges.contains_key(e) implies after.edges.contains_key(
        e,
    ) && after.edges[e].from == before.edges[e].from && after.edges[e].to == before.edges[e].to
        && (before.edges[e].from != n ==> after.edges[e].p1 == before.edges[e].p1) && (
    before.edges[e].to != n ==> after.edges[e].p2 == before.edges[e].p2) by {
        if before.nodes[n].tails.contains(e) {
            assert(before.edges[e].from == n);
        }
        if before.nodes[n].heads.contains(e) {
            assert(before.edges[e].to == n);
        }
    }
}

/// A point at the centre of a node picks a node at that point, whatever
/// edges pass by; it picks that very node unless another node lies at the
/// same point.
pub proof fn lemma_pick_at_centre(g: &Graph, n: NodeKey, r: SL)
    requires
        g.wf(),
        g@.nodes.contains_key(n),
        g.picks(g@.nodes[n].pos, r),
    ensures
        r matches SL::Node(m) && g@.nodes.contains_key(m) && g@.nodes[m].pos == g@.nodes[n].pos,
        (forall|m: NodeKey| g@.nodes.contains_key(m) && m != n ==> g@.nodes[m].pos != g@.nodes[n].pos)
            ==> r == SL::Node(n),
{
    let q = g@.nodes[n].pos;
    let (pn, pe) = choose|pn: Option<NodeKey>, pe: Option<EdgeKey>|
        g.picks_node(q, pn) && g.picks_edge(q, pe) && r == g.resolve(q, pn, pe);
    let i = choose|i: Option<int>| is_first_min(g.node_pick_scores(q), i) && pn == g.node_at(i);
    let scores = g.node_pick_scores(q);
    assert(g.node_seq().contains(n));
    let at = choose|at: int| 0 <= at < g.node_seq().len() && g.node_seq()[at] == n;
    lemma_dist_sq_zero(q, q);
    assert(scores[at] == Some(0int));
    assert(i is Some);
    let m = g.node_seq()[i->0];
    assert(g.node_seq().contains(m));
    lemma_dist_sq_zero(g@.nodes[m].pos, q);
    assert(scores[i->0]->0 <= scores[at]->0);
    assert(dist_sq(g@.nodes[m].pos, q) == 0);
}

/// A pick is decided: a point picks one thing only.
pub proof fn lemma_pick_decided(g: &Graph, q: Point, a: SL, b: SL)
    requires
        g.picks(q, a),
        g.picks(q, b),
    ensures
        a == b,
{
    let (an, ae) = choose|n: Option<NodeKey>, e: Option<EdgeKey>|
        g.picks_node(q, n) && g.picks_edge(q, e) && a == g.resolve(q, n, e);
    let (bn, be) = choose|n: Option<NodeKey>, e: Option<EdgeKey>|
        g.picks_node(q, n) && g.picks_edge(q, e) && b == g.resolve(q, n, e);
    let ai = choose|i: Option<int>| is_first_min(g.node_pick_scores(q), i) && an == g.node_at(i);
    let bi = choose|i: Option<int>| is_first_min(g.node_pick_scores(q), i) && bn == g.node_at(i);
    lemma_first_min_unique(g.node_pick_scores(q), ai, bi);
    let aj = choose|i: Option<int>|
        is_first_least(g.edge_pick_offsets(q), i) && ae == g.edge_at(i);
    let bj = choose|i: Option<int>|
        is_first_least(g.edge_pick_offsets(q), i) && be == g.edge_at(i);
    lemma_first_least_unique(g.edge_pick_offsets(q), aj, bj);
}

/// The edge that a point picks is one that has the point within reach, and
/// the point is no farther from its line than from the line of any other edge
/// that has the point within reach. The two distances are compared by their
/// squares, each the square of `across` over the square of the edge's length.
pub proof fn lemma_picked_edge_is_nearest(g: &Graph, q: Point, k: EdgeKey, j: EdgeKey)
    requires
        g.wf(),
        g.picks_edge(q, Some(k)),
        g@.edges.contains_key(j),
        near_segment(g@.edges[j].p1, g@.edges[j].p2, q, EDGE_THICKNESS as int),
    ensures
        g@.edges.contains_key(k),
        near_segment(g@.edges[k].p1, g@.edges[k].p2, q, EDGE_THICKNESS as int),
        across(g@.edges[k].p1, g@.edges[k].p2, q) * across(g@.edges[k].p1, g@.edges[k].p2, q)
            * dist_sq(g@.edges[j].p1, g@.edges[j].p2) <= across(
            g@.edges[j].p1,
            g@.edges[j].p2,
            q,
        ) * across(g@.edges[j].p1, g@.edges[j].p2, q) * dist_sq(g@.edges[k].p1, g@.edges[k].p2),
{
    let offsets = g.edge_pick_offsets(q);
    let i = choose|i: Option<int>| is_first_least(offsets, i) && Some(k) == g.edge_at(i);
    let at = i->0;
    assert(g.edge_seq().contains(g.edge_seq()[at]));
    assert(g.edge_seq().contains(j));
    let m = choose|m: int| 0 <= m < g.edge_seq().len() && g.edge_seq()[m] == j;
    assert(offsets[m] is Some);
    assert(!crate::select::pair_less(offsets[m]->0, offsets[at]->0));
}

/// The lists of a well-formed graph can always be rebuilt from: every pair
/// names two places of the list of nodes.
pub proof fn lemma_lists_in_range(g: &Graph)
    requires
        g.wf(),
    ensures
        g.position_list().len() == g.node_seq().len(),
        g.link_list().len() == g.edge_seq().len(),
        links_in_range(g.position_list().len(), g.link_list()),
{
    let links = g.link_list();
    assert forall|i: int| 0 <= i < links.len() implies (#[trigger] links[i]).0
        < g.position_list().len() && links[i].1 < g.position_list().len() by {
        let e = g.edge_seq()[i];
        assert(g.edge_seq().contains(e));
        lemma_place(g@, g.node_seq(), g@.edges[e].from);
        lemma_place(g@, g.node_seq(), g@.edges[e].to);
    }
}

/// Reloading keeps the graph: a graph rebuilt from the lists of a
/// well-formed graph has, place by place, a node for each node of the
/// first graph at the same position, and an edge from one node to another
/// exactly where the first graph has one between the nodes at those places;
/// it has as many nodes and as many edges as the first.
pub proof fn lemma_reload(g: &Graph, h: &Graph, keys: Seq<NodeKey>)
    requires
        g.wf(),
        h.wf(),
        rebuilt(*h, keys, g.position_list(), g.link_list()),
    ensures
        keys.len() == g.node_seq().len(),
        h.node_seq().len() == g.node_seq().len(),
        h.edge_seq().len() == g.edge_seq().len(),
        forall|k: NodeKey| #[trigger] h@.nodes.contains_key(k) <==> keys.contains(k),
        forall|i: int|
            0 <= i < keys.len() ==> h@.nodes[#[trigger] keys[i]].pos
                == g@.nodes[g.node_seq()[i]].pos,
        forall|i: int, j: int|
            0 <= i < keys.len() && 0 <= j < keys.len() ==> (h@.edge_between(
                #[trigger] keys[i],
                #[trigger] keys[j],
            ) is Some <==> g@.edge_between(g.node_seq()[i], g.node_seq()[j]) is Some),
{
    let ns = g.node_seq();
    let links = g.link_list();
    lemma_lists_in_range(g);
    assert(h.node_seq().len() == keys.len()) by {
        h.lemma_node_dom();
        assert(h@.nodes.dom() =~= keys.to_set());
        keys.unique_seq_to_set();
    }
    assert(links.no_duplicates()) by {
        assert forall|i: int, j: int|
            0 <= i < links.len() && 0 <= j < links.len() && i != j implies links[i] != links[j] by {
            let ei = g.edge_seq()[i];
            let ej = g.edge_seq()[j];
            assert(g.edge_seq().contains(ei) && g.edge_seq().contains(ej));
            lemma_place(g@, ns, g@.edges[ei].from);
            lemma_place(g@, ns, g@.edges[ei].to);
            lemma_place(g@, ns, g@.edges[ej].from);
            lemma_place(g@, ns, g@.edges[ej].to);
            if links[i] == links[j] {
                assert(g@.edges[ei].from == g@.edges[ej].from);
                assert(g@.edges[ei].to == g@.edges[ej].to);
                assert(ei == ej);
            }
        }
    }
    links.unique_seq_to_set();
    assert forall|i: int, j: int| 0 <= i < keys.len() && 0 <= j < keys.len() implies (h@.edge_between(
        #[trigger] keys[i],
        #[trigger] keys[j],
    ) is Some <==> g@.edge_between(ns[i], ns[j]) is Some) by {
        if g@.edge_between(ns[i], ns[j]) is Some {
            let e = g@.edge_between(ns[i], ns[j])->0;
            assert(g@.joins(e, ns[i], ns[j]));
            assert(g.edge_seq().contains(e));
            let m = choose|m: int| 0 <= m < g.edge_seq().len() && g.edge_seq()[m] == e;
            lemma_place_found(ns, i);
            lemma_place_found(ns, j);
            assert(links[m] == (i as usize, j as usize));
            assert(granted(*h, keys, links[m]));
            let e2 = choose|e2: EdgeKey| #[trigger] linked(*h, keys, e2, links[m]);
            assert(h@.joins(e2, keys[i], keys[j]));
        }
        if h@.edge_between(keys[i], keys[j]) is Some {
            let e2 = h@.edge_between(keys[i], keys[j])->0;
            assert(h@.joins(e2, keys[i], keys[j]));
            assert(asked_for(*h, keys, e2, links, links.len() as int));
            let m = choose|m: int|
                0 <= m < links.len() && m < links.len() && #[trigger] linked(
                    *h,
                    keys,
                    e2,
                    links[m],
                );
            let e = g.edge_seq()[m];
            assert(g.edge_seq().contains(e));
            lemma_place(g@, ns, g@.edges[e].from);
            lemma_place(g@, ns, g@.edges[e].to);
            let a = place_of(ns, g@.edges[e].from);
            let b = place_of(ns, g@.edges[e].to);
            assert(links[m] == (a as usize, b as usize));
            assert(keys[a] == keys[i]);
            assert(keys[b] == keys[j]);
            assert(a == i && b == j);
            assert(g@.joins(e, ns[i], ns[j]));
        }
    }
}

} // verus!
