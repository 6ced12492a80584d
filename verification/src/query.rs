//! Spatial queries: the nearest node, the nodes in a ring, and what a point
//! picks.

use crate::error::GraphError;
use crate::graph::Graph;
use crate::keys::{EdgeKey, NodeKey};
use crate::point::{
    across, dist_sq, lemma_offset_chain, lemma_offset_order, near_segment, nearer_than_offset,
    nearer_than_offset_exec, offset_less, square, Point, SPAN_SQ_MAX,
};
use crate::select::{
    first_min_index, is_first_least, is_first_min, pair_less, position, widen, widen_pairs,
};
use crate::seqs::lemma_filter_step;
use crate::variables::{EDGE_THICKNESS, NODE_RADIUS, SELECTED_NODE_RADIUS};
use vstd::prelude::*;

verus! {

/// What a point picks.
#[derive(Clone, Copy, Debug, PartialEq, Eq, Structural)]
pub enum SL {
    Nothing,
    Node(NodeKey),
    Edge(EdgeKey),
}

/// Whether a node at squared distance `nd2` from a point wins the pick over
/// an edge of squared length `l2` from whose line the point is offset by `x`,
/// scaled by the edge's length: it does when it is nearer than the offset to
/// the left of the edge, and in any case within the radius that is the
/// node's own.
pub open spec fn node_wins(nd2: int, l2: int, x: int) -> bool {
    nearer_than_offset(nd2, l2, x) || nd2 < SELECTED_NODE_RADIUS * SELECTED_NODE_RADIUS
}

/// Whether an offset, if there is one, is that of a point within reach of
/// its edge: the edge has some length, and the offset is at most the
/// thickness of an edge.
pub open spec fn in_band(offset: Option<(i64, i64)>) -> bool {
    match offset {
        Some(p) => 0 < p.1 <= SPAN_SQ_MAX && p.0 * p.0 <= EDGE_THICKNESS * EDGE_THICKNESS * p.1,
        None => true,
    }
}

/// Whether the offset `p` is smaller than the offset `q`.
fn less(p: (i64, i64), q: (i64, i64)) -> (r: bool)
    requires
        in_band(Some(p)),
        in_band(Some(q)),
    ensures
        r == offset_less(p.0 as int, p.1 as int, q.0 as int, q.1 as int),
{
    proof {
        let band = EDGE_THICKNESS * EDGE_THICKNESS * SPAN_SQ_MAX;
        assert(0 <= p.0 * p.0 <= band && 0 <= q.0 * q.0 <= band) by (nonlinear_arith)
            requires
                p.0 * p.0 <= EDGE_THICKNESS * EDGE_THICKNESS * p.1,
                q.0 * q.0 <= EDGE_THICKNESS * EDGE_THICKNESS * q.1,
                0 < p.1 <= SPAN_SQ_MAX,
                0 < q.1 <= SPAN_SQ_MAX,
                band == EDGE_THICKNESS * EDGE_THICKNESS * SPAN_SQ_MAX,
        ;
        assert(0 <= (p.0 * p.0) * q.1 <= band * SPAN_SQ_MAX) by (nonlinear_arith)
            requires
                0 <= p.0 * p.0 <= band,
                0 < q.1 <= SPAN_SQ_MAX,
        ;
        assert(0 <= (q.0 * q.0) * p.1 <= band * SPAN_SQ_MAX) by (nonlinear_arith)
            requires
                0 <= q.0 * q.0 <= band,
                0 < p.1 <= SPAN_SQ_MAX,
        ;
    }
    let pp: i128 = (p.0 as i128) * (p.0 as i128);
    let qq: i128 = (q.0 as i128) * (q.0 as i128);
    let a: i128 = pp * (q.1 as i128);
    let b: i128 = qq * (p.1 as i128);
    a < b || (a == b && p.0 < 0 && 0 < q.0)
}

/// The position of the first smallest offset.
fn first_least_index(offsets: &Vec<Option<(i64, i64)>>) -> (r: Option<usize>)
    requires
        forall|j: int| 0 <= j < offsets@.len() ==> in_band(#[trigger] offsets@[j]),
    ensures
        is_first_least(widen_pairs(offsets@), position(r)),
{
    let ghost w = widen_pairs(offsets@);
    let mut best: Option<(usize, (i64, i64))> = None;
    let mut i: usize = 0;
    while i < offsets.len()
        invariant
            i <= offsets@.len(),
            w == widen_pairs(offsets@),
            forall|j: int| 0 <= j < offsets@.len() ==> in_band(#[trigger] offsets@[j]),
            match best {
                None => forall|j: int| 0 <= j < i ==> (#[trigger] w[j]) is None,
                Some(b) => {
                    &&& b.0 < i
                    &&& offsets@[b.0 as int] == Some(b.1)
                    &&& forall|j: int|
                        0 <= j < i && (#[trigger] w[j]) is Some ==> !pair_less(
                            w[j]->0,
                            w[b.0 as int]->0,
                        )
                    &&& forall|j: int|
                        0 <= j < b.0 && (#[trigger] w[j]) is Some ==> pair_less(
                            w[b.0 as int]->0,
                            w[j]->0,
                        )
                },
            },
        decreases offsets@.len() - i,
    {
        match offsets[i] {
            None => {
                assert(w[i as int] is None);
            },
            Some(p) => {
                assert(in_band(offsets@[i as int]));
                assert(w[i as int] == Some((p.0 as int, p.1 as int)));
                match best {
                    None => {
                        best = Some((i, p));
                    },
                    Some(b) => {
                        let held = b.1;
                        assert(in_band(offsets@[b.0 as int]));
                        assert(w[b.0 as int] == Some((held.0 as int, held.1 as int)));
                        if less(p, held) {
                            proof {
                                assert forall|j: int|
                                    0 <= j < i + 1 && (#[trigger] w[j]) is Some implies !pair_less(
                                    w[j]->0,
                                    w[i as int]->0,
                                ) by {
                                    if j < i && pair_less(w[j]->0, w[i as int]->0) {
                                        let other = w[j]->0;
                                        assert(in_band(offsets@[j]));
                                        lemma_offset_chain(
                                            other.0,
                                            other.1,
                                            p.0 as int,
                                            p.1 as int,
                                            held.0 as int,
                                            held.1 as int,
                                        );
                                    }
                                }
                                assert forall|j: int|
                                    0 <= j < i && (#[trigger] w[j]) is Some implies pair_less(
                                    w[i as int]->0,
                                    w[j]->0,
                                ) by {
                                    let other = w[j]->0;
                                    assert(in_band(offsets@[j]));
                                    lemma_offset_order(
                                        p.0 as int,
                                        p.1 as int,
                                        held.0 as int,
                                        held.1 as int,
                                        other.0,
                                        other.1,
                                    );
                                }
                            }
                            best = Some((i, p));
                        }
                    },
                }
            },
        }
        i += 1;
    }
    match best {
        None => None,
        Some(b) => Some(b.0),
    }
}

impl Graph {
    /// The key at position `i` of the walk over the nodes.
    pub open spec fn node_at(&self, i: Option<int>) -> Option<NodeKey> {
        match i {
            Some(i) => Some(self.node_seq()[i]),
            None => None,
        }
    }

    /// The key at position `i` of the walk over the edges.
    pub open spec fn edge_at(&self, i: Option<int>) -> Option<EdgeKey> {
        match i {
            Some(i) => Some(self.edge_seq()[i]),
            None => None,
        }
    }

    /// For each node of the walk its squared distance to the node `key`; the
    /// node `key` itself has no score.
    pub open spec fn nearest_scores(&self, key: NodeKey) -> Seq<Option<int>> {
        Seq::new(
            self.node_seq().len(),
            |i: int|
                if self.node_seq()[i] != key {
                    Some(dist_sq(self@.nodes[self.node_seq()[i]].pos, self@.nodes[key].pos))
                } else {
                    None
                },
        )
    }

    /// For each node of the walk its squared distance to `q`, where that is
    /// under the square of twice the node radius.
    pub open spec fn node_pick_scores(&self, q: Point) -> Seq<Option<int>> {
        Seq::new(
            self.node_seq().len(),
            |i: int|
                if dist_sq(self@.nodes[self.node_seq()[i]].pos, q) < 4 * NODE_RADIUS * NODE_RADIUS {
                    Some(dist_sq(self@.nodes[self.node_seq()[i]].pos, q))
                } else {
                    None
                },
        )
    }

    /// For each edge of the walk that has `q` within reach, the offset of `q`
    /// from the edge's line: its product with the edge's length, which has
    /// the offset's sign, and the square of that length.
    pub open spec fn edge_pick_offsets(&self, q: Point) -> Seq<Option<(int, int)>> {
        Seq::new(
            self.edge_seq().len(),
            |i: int|
                if near_segment(
                    self@.edges[self.edge_seq()[i]].p1,
                    self@.edges[self.edge_seq()[i]].p2,
                    q,
                    EDGE_THICKNESS as int,
                ) {
                    Some(
                        (
                            across(
                                self@.edges[self.edge_seq()[i]].p1,
                                self@.edges[self.edge_seq()[i]].p2,
                                q,
                            ),
                            dist_sq(
                                self@.edges[self.edge_seq()[i]].p1,
                                self@.edges[self.edge_seq()[i]].p2,
                            ),
                        ),
                    )
                } else {
                    None
                },
        )
    }

    /// Whether `r` is the node that `q` picks: the nearest of the nodes within
    /// twice the node radius, the first of the walk among equally near ones.
    pub open spec fn picks_node(&self, q: Point, r: Option<NodeKey>) -> bool {
        exists|i: Option<int>| is_first_min(self.node_pick_scores(q), i) && r == self.node_at(i)
    }

    /// Whether `r` is the edge that `q` picks: of the edges that have `q`
    /// within reach the one from whose line `q` is the least far. The
    /// distances are compared as they are, not scaled by the lengths of the
    /// edges. Of two edges from whose lines `q` is equally far, on different
    /// sides, the one with the negative offset wins, which tells an edge from
    /// the edge that runs the other way between the same nodes; among edges
    /// that are equal in this too, the first of the walk wins.
    pub open spec fn picks_edge(&self, q: Point, r: Option<EdgeKey>) -> bool {
        exists|i: Option<int>|
            is_first_least(self.edge_pick_offsets(q), i) && r == self.edge_at(i)
    }

    /// What `q` picks when it picks the node `n` and the edge `e`, as far as
    /// there is one of each.
    pub open spec fn resolve(&self, q: Point, n: Option<NodeKey>, e: Option<EdgeKey>) -> SL {
        match (n, e) {
            (Some(n), Some(e)) => if node_wins(
                dist_sq(self@.nodes[n].pos, q),
                dist_sq(self@.edges[e].p1, self@.edges[e].p2),
                across(self@.edges[e].p1, self@.edges[e].p2, q),
            ) {
                SL::Node(n)
            } else {
                SL::Edge(e)
            },
            (Some(n), None) => SL::Node(n),
            (None, Some(e)) => SL::Edge(e),
            (None, None) => SL::Nothing,
        }
    }

    /// Whether `r` is what `q` picks.
    pub open spec fn picks(&self, q: Point, r: SL) -> bool {
        exists|n: Option<NodeKey>, e: Option<EdgeKey>|
            self.picks_node(q, n) && self.picks_edge(q, e) && r == self.resolve(q, n, e)
    }

    /// Whether `k` is a node other than `key` that is less than `r` away from
    /// it.
    pub open spec fn near_to(&self, key: NodeKey, r: i64) -> spec_fn(NodeKey) -> bool {
        |k: NodeKey| k != key && dist_sq(self@.nodes[k].pos, self@.nodes[key].pos) < r * r
    }

    /// Whether `k` is a node that is more than `mn_r` and less than `mx_r`
    /// away from `v`, and not at `v`.
    pub open spec fn in_ring(&self, v: Point, mn_r: i64, mx_r: i64) -> spec_fn(NodeKey) -> bool {
        |k: NodeKey|
            dist_sq(self@.nodes[k].pos, v) != 0 && mn_r * mn_r < dist_sq(self@.nodes[k].pos, v)
                < mx_r * mx_r
    }

    /// The nodes of the walk with their positions.
    fn node_positions(&self) -> (r: Vec<(NodeKey, Point)>)
        requires
            self.wf(),
        ensures
            r@.len() == self.node_seq().len(),
            forall|i: int|
                0 <= i < r@.len() ==> (#[trigger] r@[i]).0 == self.node_seq()[i] && r@[i].1
                    == self@.nodes[self.node_seq()[i]].pos,
    {
        let keys = self.node_keys();
        let mut out: Vec<(NodeKey, Point)> = Vec::new();
        let mut i: usize = 0;
        while i < keys.len()
            invariant
                self.wf(),
                keys@ == self.node_seq(),
                i <= keys.len(),
                out@.len() == i,
                forall|j: int|
                    0 <= j < i ==> (#[trigger] out@[j]).0 == keys@[j] && out@[j].1
                        == self@.nodes[keys@[j]].pos,
            decreases keys.len() - i,
        {
            let k = keys[i];
            assert(self.node_seq().contains(keys@[i as int]));
            match self.node(k) {
                Some(n) => {
                    out.push((k, *n.get_pos()));
                },
                None => {},
            }
            i += 1;
        }
        out
    }

    /// The edges of the walk with their end positions, start first.
    fn edge_segments(&self) -> (r: Vec<(EdgeKey, Point, Point)>)
        requires
            self.wf(),
        ensures
            r@.len() == self.edge_seq().len(),
            forall|i: int|
                0 <= i < r@.len() ==> (#[trigger] r@[i]).0 == self.edge_seq()[i] && r@[i].1
                    == self@.edges[self.edge_seq()[i]].p1 && r@[i].2
                    == self@.edges[self.edge_seq()[i]].p2,
    {
        let keys = self.edge_keys();
        let mut out: Vec<(EdgeKey, Point, Point)> = Vec::new();
        let mut i: usize = 0;
        while i < keys.len()
            invariant
                self.wf(),
                keys@ == self.edge_seq(),
                i <= keys.len(),
                out@.len() == i,
                forall|j: int|
                    0 <= j < i ==> (#[trigger] out@[j]).0 == keys@[j] && out@[j].1
                        == self@.edges[keys@[j]].p1 && out@[j].2 == self@.edges[keys@[j]].p2,
            decreases keys.len() - i,
        {
            let k = keys[i];
            assert(self.edge_seq().contains(keys@[i as int]));
            match self.edge(k) {
                Some(e) => {
                    let ends = e.get_pos();
                    out.push((k, *ends.0, *ends.1));
                },
                None => {},
            }
            i += 1;
        }
        out
    }

    /// The node nearest to the node `key`, the first of the walk among
    /// equally near ones; `None` where `key` is the only node.
    pub fn find_nearest_node(&self, key: NodeKey) -> (r: Result<Option<NodeKey>, GraphError>)
        requires
            self.wf(),
        ensures
            match r {
                Ok(found) => self@.nodes.contains_key(key) && exists|i: Option<int>|
                    is_first_min(self.nearest_scores(key), i) && found == self.node_at(i),
                Err(e) => !self@.nodes.contains_key(key) && e == GraphError::UnknownNode,
            },
    {
        let v = match self.node(key) {
            Some(n) => *n.get_pos(),
            None => {
                return Err(GraphError::UnknownNode);
            },
        };
        let rows = self.node_positions();
        let mut scores: Vec<Option<i64>> = Vec::new();
        let mut i: usize = 0;
        while i < rows.len()
            invariant
                i <= rows.len(),
                rows@.len() == self.node_seq().len(),
                forall|j: int|
                    0 <= j < rows@.len() ==> (#[trigger] rows@[j]).0 == self.node_seq()[j]
                        && rows@[j].1 == self@.nodes[self.node_seq()[j]].pos,
                v == self@.nodes[key].pos,
                scores@.len() == i,
                forall|j: int| 0 <= j < i ==> widen(scores@)[j] == self.nearest_scores(key)[j],
            decreases rows.len() - i,
        {
            let row = rows[i];
            if row.0 != key {
                scores.push(Some(row.1.dist_sq(&v)));
            } else {
                scores.push(None);
            }
            i += 1;
        }
        assert(widen(scores@) =~= self.nearest_scores(key));
        match first_min_index(&scores) {
            Some(i) => {
                assert(self.node_at(Some(i as int)) == Some(rows@[i as int].0));
                Ok(Some(rows[i].0))
            },
            None => {
                assert(self.node_at(None) == None::<NodeKey>);
                Ok(None)
            },
        }
    }

    /// The nodes other than `key` that are less than `r` away from it, in
    /// walking order.
    pub fn find_near_nodes_by_key(&self, key: NodeKey, r: i64) -> (out: Result<
        Vec<NodeKey>,
        GraphError,
    >)
        requires
            self.wf(),
        ensures
            match out {
                Ok(found) => self@.nodes.contains_key(key) && found@ == self.node_seq().filter(
                    self.near_to(key, r),
                ),
                Err(e) => !self@.nodes.contains_key(key) && e == GraphError::UnknownNode,
            },
    {
        let v = match self.node(key) {
            Some(n) => *n.get_pos(),
            None => {
                return Err(GraphError::UnknownNode);
            },
        };
        let rows = self.node_positions();
        let rr: i128 = square(r);
        let mut found: Vec<NodeKey> = Vec::new();
        let mut i: usize = 0;
        assert(self.node_seq().take(0) =~= Seq::<NodeKey>::empty());
        while i < rows.len()
            invariant
                i <= rows.len(),
                rows@.len() == self.node_seq().len(),
                forall|j: int|
                    0 <= j < rows@.len() ==> (#[trigger] rows@[j]).0 == self.node_seq()[j]
                        && rows@[j].1 == self@.nodes[self.node_seq()[j]].pos,
                v == self@.nodes[key].pos,
                rr == r * r,
                found@ == self.node_seq().take(i as int).filter(self.near_to(key, r)),
            decreases rows.len() - i,
        {
            let row = rows[i];
            proof {
                lemma_filter_step(self.node_seq(), self.near_to(key, r), i as int);
            }
            if row.0 != key && (row.1.dist_sq(&v) as i128) < rr {
                found.push(row.0);
            }
            i += 1;
        }
        assert(self.node_seq().take(rows@.len() as int) =~= self.node_seq());
        Ok(found)
    }

    /// The nodes that are more than `mn_r` and less than `mx_r` away from
    /// `v`, and not at `v`, in walking order.
    pub fn find_nodes(&self, v: Point, mn_r: i64, mx_r: i64) -> (found: Vec<NodeKey>)
        requires
            self.wf(),
        ensures
            found@ == self.node_seq().filter(self.in_ring(v, mn_r, mx_r)),
    {
        let rows = self.node_positions();
        let lo: i128 = square(mn_r);
        let hi: i128 = square(mx_r);
        let mut found: Vec<NodeKey> = Vec::new();
        let mut i: usize = 0;
        assert(self.node_seq().take(0) =~= Seq::<NodeKey>::empty());
        while i < rows.len()
            invariant
                i <= rows.len(),
                rows@.len() == self.node_seq().len(),
                forall|j: int|
                    0 <= j < rows@.len() ==> (#[trigger] rows@[j]).0 == self.node_seq()[j]
                        && rows@[j].1 == self@.nodes[self.node_seq()[j]].pos,
                lo == mn_r * mn_r,
                hi == mx_r * mx_r,
                found@ == self.node_seq().take(i as int).filter(self.in_ring(v, mn_r, mx_r)),
            decreases rows.len() - i,
        {
            let row = rows[i];
            proof {
                lemma_filter_step(self.node_seq(), self.in_ring(v, mn_r, mx_r), i as int);
            }
            let d = row.1.dist_sq(&v) as i128;
            if d != 0 && lo < d && d < hi {
                found.push(row.0);
            }
            i += 1;
        }
        assert(self.node_seq().take(rows@.len() as int) =~= self.node_seq());
        found
    }

    /// The node that `mv` picks.
    pub fn selected_n_k(&self, mv: &Point) -> (r: Option<NodeKey>)
        requires
            self.wf(),
        ensures
            self.picks_node(*mv, r),
    {
        let rows = self.node_positions();
        let mut scores: Vec<Option<i64>> = Vec::new();
        let mut i: usize = 0;
        while i < rows.len()
            invariant
                i <= rows.len(),
                rows@.len() == self.node_seq().len(),
                forall|j: int|
                    0 <= j < rows@.len() ==> (#[trigger] rows@[j]).0 == self.node_seq()[j]
                        && rows@[j].1 == self@.nodes[self.node_seq()[j]].pos,
                scores@.len() == i,
                forall|j: int| 0 <= j < i ==> widen(scores@)[j] == self.node_pick_scores(*mv)[j],
            decreases rows.len() - i,
        {
            let d = rows[i].1.dist_sq(mv);
            if d < 4 * NODE_RADIUS * NODE_RADIUS {
                scores.push(Some(d));
            } else {
                scores.push(None);
            }
            i += 1;
        }
        assert(widen(scores@) =~= self.node_pick_scores(*mv));
        match first_min_index(&scores) {
            Some(i) => {
                assert(self.node_at(Some(i as int)) == Some(rows@[i as int].0));
                Some(rows[i].0)
            },
            None => {
                assert(self.node_at(None) == None::<NodeKey>);
                None
            },
        }
    }

    /// The edge that `mv` picks.
    pub fn selected_e_k(&self, mv: &Point) -> (r: Option<EdgeKey>)
        requires
            self.wf(),
        ensures
            self.picks_edge(*mv, r),
    {
        let rows = self.edge_segments();
        let mut offsets: Vec<Option<(i64, i64)>> = Vec::new();
        let mut i: usize = 0;
        while i < rows.len()
            invariant
                i <= rows.len(),
                rows@.len() == self.edge_seq().len(),
                forall|j: int|
                    0 <= j < rows@.len() ==> (#[trigger] rows@[j]).0 == self.edge_seq()[j]
                        && rows@[j].1 == self@.edges[self.edge_seq()[j]].p1 && rows@[j].2
                        == self@.edges[self.edge_seq()[j]].p2,
                offsets@.len() == i,
                forall|j: int|
                    0 <= j < i ==> widen_pairs(offsets@)[j] == self.edge_pick_offsets(*mv)[j],
                forall|j: int| 0 <= j < i ==> in_band(#[trigger] offsets@[j]),
            decreases rows.len() - i,
        {
            let row = rows[i];
            if row.1.near_segment(&row.2, mv, EDGE_THICKNESS) {
                offsets.push(Some((row.1.across(&row.2, mv), row.1.dist_sq(&row.2))));
            } else {
                offsets.push(None);
            }
            i += 1;
        }
        assert(widen_pairs(offsets@) =~= self.edge_pick_offsets(*mv));
        match first_least_index(&offsets) {
            Some(i) => {
                assert(self.edge_at(Some(i as int)) == Some(rows@[i as int].0));
                Some(rows[i].0)
            },
            None => {
                assert(self.edge_at(None) == None::<EdgeKey>);
                None
            },
        }
    }

    /// What `mv` picks: the node or the edge that it picks where there is
    /// only one of them, and where there are both the node if it wins over
    /// the edge, else the edge.
    pub fn selected_k_v(&self, mv: &Point) -> (r: SL)
        requires
            self.wf(),
        ensures
            self.picks(*mv, r),
    {
        let n = self.selected_n_k(mv);
        let e = self.selected_e_k(mv);
        proof {
            self.lemma_picked_are_stored(*mv, n, e);
        }
        let r = match (n, e) {
            (Some(sn_k), Some(se_k)) => {
                match (self.node(sn_k), self.edge(se_k)) {
                    (Some(sn), Some(se)) => {
                        let ends = se.get_pos();
                        let nd2 = sn.get_pos().dist_sq(mv);
                        let l2 = ends.0.dist_sq(ends.1);
                        let x = ends.0.across(ends.1, mv);
                        if nearer_than_offset_exec(nd2, l2, x) || nd2 < SELECTED_NODE_RADIUS
                            * SELECTED_NODE_RADIUS {
                            SL::Node(sn_k)
                        } else {
                            SL::Edge(se_k)
                        }
                    },
                    _ => SL::Nothing,
                }
            },
            (Some(sn_k), None) => SL::Node(sn_k),
            (None, Some(se_k)) => SL::Edge(se_k),
            (None, None) => SL::Nothing,
        };
        assert(r == self.resolve(*mv, n, e));
        r
    }

    /// What a point picks is in the graph.
    pub proof fn lemma_picked_are_stored(&self, q: Point, n: Option<NodeKey>, e: Option<EdgeKey>)
        requires
            self.wf(),
            self.picks_node(q, n),
            self.picks_edge(q, e),
        ensures
            n matches Some(k) ==> self@.nodes.contains_key(k),
            e matches Some(k) ==> self@.edges.contains_key(k),
    {
        if let Some(k) = n {
            let i = choose|i: Option<int>|
                is_first_min(self.node_pick_scores(q), i) && n == self.node_at(i);
            assert(self.node_seq().contains(self.node_seq()[i->0]));
        }
        if let Some(k) = e {
            let i = choose|i: Option<int>|
                is_first_least(self.edge_pick_offsets(q), i) && e == self.edge_at(i);
            assert(self.edge_seq().contains(self.edge_seq()[i->0]));
        }
    }
}

} // verus!
