//! Edges: the positions of the two ends, and once attached the keys of the
//! nodes at those ends.

use crate::error::GraphError;
use crate::keys::{EdgeKey, EdgeKeys, NodeKey};
use crate::point::{coord_ok, dist_sq, floor_sqrt, Point, LENGTH_MAX};
use vstd::prelude::*;

verus! {

/// What an edge is to a reader of the graph: the nodes it joins and the
/// positions it has cached for them.
pub struct EdgeView {
    pub from: NodeKey,
    pub to: NodeKey,
    pub p1: Point,
    pub p2: Point,
}

/// Reading an edge, and moving the ends of one that is free.
pub trait EdgeGetSet: Sized {
    /// Where the edge starts.
    spec fn starts_at(&self) -> Point;

    /// Where the edge ends.
    spec fn ends_at(&self) -> Point;

    /// Whether the edge belongs to a graph.
    spec fn is_attached(&self) -> bool;

    /// The keys of an edge that belongs to a graph.
    spec fn attached_keys(&self) -> EdgeKeys;

    /// Moves the start of a free edge to `(x, y)`.
    fn set_p1(&mut self, x: i32, y: i32)
        requires
            !old(self).is_attached(),
            coord_ok(x as int),
            coord_ok(y as int),
        ensures
            final(self).starts_at().x() == x,
            final(self).starts_at().y() == y,
            final(self).ends_at() == old(self).ends_at(),
            !final(self).is_attached(),
    ;

    /// Moves the end of a free edge to `(x, y)`.
    fn set_p2(&mut self, x: i32, y: i32)
        requires
            !old(self).is_attached(),
            coord_ok(x as int),
            coord_ok(y as int),
        ensures
            final(self).ends_at().x() == x,
            final(self).ends_at().y() == y,
            final(self).starts_at() == old(self).starts_at(),
            !final(self).is_attached(),
    ;

    /// Moves the start of a free edge to `(t.0, t.1)`.
    fn set_p1_t(&mut self, t: (i32, i32))
        requires
            !old(self).is_attached(),
            coord_ok(t.0 as int),
            coord_ok(t.1 as int),
        ensures
            final(self).starts_at().x() == t.0,
            final(self).starts_at().y() == t.1,
            final(self).ends_at() == old(self).ends_at(),
            !final(self).is_attached(),
    ;

    /// Moves the end of a free edge to `(t.0, t.1)`.
    fn set_p2_t(&mut self, t: (i32, i32))
        requires
            !old(self).is_attached(),
            coord_ok(t.0 as int),
            coord_ok(t.1 as int),
        ensures
            final(self).ends_at().x() == t.0,
            final(self).ends_at().y() == t.1,
            final(self).starts_at() == old(self).starts_at(),
            !final(self).is_attached(),
    ;

    /// Moves the start of a free edge to `v`.
    fn set_p1_v(&mut self, v: &Point)
        requires
            !old(self).is_attached(),
        ensures
            final(self).starts_at() == *v,
            final(self).ends_at() == old(self).ends_at(),
            !final(self).is_attached(),
    ;

    /// Moves the end of a free edge to `v`.
    fn set_p2_v(&mut self, v: &Point)
        requires
            !old(self).is_attached(),
        ensures
            final(self).ends_at() == *v,
            final(self).starts_at() == old(self).starts_at(),
            !final(self).is_attached(),
    ;

    /// The coordinates of the start.
    fn get_p1_t(&self) -> (r: (i32, i32))
        ensures
            r.0 == self.starts_at().x(),
            r.1 == self.starts_at().y(),
    ;

    /// The coordinates of the end.
    fn get_p2_t(&self) -> (r: (i32, i32))
        ensures
            r.0 == self.ends_at().x(),
            r.1 == self.ends_at().y(),
    ;

    /// The position of the start.
    fn get_p1_v(&self) -> (r: Point)
        ensures
            r == self.starts_at(),
    ;

    /// The position of the end.
    fn get_p2_v(&self) -> (r: Point)
        ensures
            r == self.ends_at(),
    ;

    /// The length of the edge in whole units, rounded down.
    fn get_length(&self) -> (r: u64)
        ensures
            r == floor_sqrt(dist_sq(self.starts_at(), self.ends_at())),
            r <= LENGTH_MAX,
    ;

    /// The keys of an edge that belongs to a graph.
    fn get_keys(&self) -> (r: &EdgeKeys)
        requires
            self.is_attached(),
        ensures
            *r == self.attached_keys(),
    ;

    /// The keys of an edge that belongs to a graph, to be changed in place.
    fn get_mut_keys(&mut self) -> (r: &mut EdgeKeys)
        requires
            old(self).is_attached(),
        ensures
            *r == old(self).attached_keys(),
            final(self).is_attached(),
            final(self).attached_keys() == *final(r),
            final(self).starts_at() == old(self).starts_at(),
            final(self).ends_at() == old(self).ends_at(),
    ;
}

/// A directed segment. A free edge has two end positions only; an edge that
/// belongs to a graph also carries its keys.
#[derive(Clone, Copy, Debug)]
pub struct Edge {
    pub(crate) p1: Point,
    pub(crate) p2: Point,
    pub(crate) keys: Option<EdgeKeys>,
}

impl Edge {
    /// Where the edge starts.
    pub open(crate) spec fn start(&self) -> Point {
        self.p1
    }

    /// Where the edge ends.
    pub open(crate) spec fn end(&self) -> Point {
        self.p2
    }

    /// Whether the edge belongs to a graph.
    pub open(crate) spec fn attached(&self) -> bool {
        self.keys is Some
    }

    /// The keys of an attached edge.
    pub open(crate) spec fn keys(&self) -> EdgeKeys
        recommends
            self.attached(),
    {
        self.keys->0
    }

    /// The edge as a reader of the graph sees it.
    pub open(crate) spec fn view(&self) -> EdgeView
        recommends
            self.attached(),
    {
        EdgeView { from: self.keys->0.from, to: self.keys->0.to, p1: self.p1, p2: self.p2 }
    }

    /// A free edge from `(x1, y1)` to `(x2, y2)`.
    pub fn new(x1: i32, y1: i32, x2: i32, y2: i32) -> (r: Self)
        requires
            coord_ok(x1 as int),
            coord_ok(y1 as int),
            coord_ok(x2 as int),
            coord_ok(y2 as int),
        ensures
            r.start().x() == x1,
            r.start().y() == y1,
            r.end().x() == x2,
            r.end().y() == y2,
            !r.attached(),
    {
        let p1 = match Point::new(x1, y1) {
            Some(p) => p,
            None => Point::origin(),
        };
        let p2 = match Point::new(x2, y2) {
            Some(p) => p,
            None => Point::origin(),
        };
        Self { p1, p2, keys: None }
    }

    /// A free edge from `p1` to `p2`.
    pub fn from(p1: Point, p2: Point) -> (r: Self)
        ensures
            r.start() == p1,
            r.end() == p2,
            !r.attached(),
    {
        Self { p1, p2, keys: None }
    }

    /// The two end positions, start first.
    pub fn get_pos(&self) -> (r: (&Point, &Point))
        ensures
            *r.0 == self.start(),
            *r.1 == self.end(),
    {
        (&self.p1, &self.p2)
    }

    /// The nodes that an attached edge joins, source first.
    pub fn get_id(&self) -> (r: (NodeKey, NodeKey))
        requires
            self.attached(),
        ensures
            r.0 == self.keys().from,
            r.1 == self.keys().to,
    {
        let k = self.keys.unwrap();
        (k.from, k.to)
    }

    /// Sets both end positions of a free edge.
    pub fn set_pos(&mut self, p1: &Point, p2: &Point)
        requires
            !old(self).attached(),
        ensures
            final(self).start() == *p1,
            final(self).end() == *p2,
            !final(self).attached(),
    {
        self.p1 = *p1;
        self.p2 = *p2;
    }

    /// Whether the edge belongs to a graph.
    pub fn initialized(&self) -> (r: bool)
        ensures
            r == self.attached(),
    {
        self.keys.is_some()
    }

    /// Whether the edge's positions may be set directly, which is so while it
    /// belongs to no graph.
    pub fn pos_changeable(&self) -> (r: bool)
        ensures
            r == !self.attached(),
    {
        self.keys.is_none()
    }

    /// Attaches the edge under `key`, from `tail_key` to `head_key`.
    pub(crate) fn graph_init(&mut self, key: EdgeKey, tail_key: NodeKey, head_key: NodeKey) -> (r:
        Result<(), GraphError>)
        ensures
            final(self).start() == old(self).start(),
            final(self).end() == old(self).end(),
            match r {
                Ok(_) => !old(self).attached() && final(self).attached() && final(self).keys() == (
                    EdgeKeys { own: key, from: tail_key, to: head_key }
                ),
                Err(e) => old(self).attached() && e == GraphError::InvariantViolation && *final(self)
                    == *old(self),
            },
    {
        if self.keys.is_some() {
            Err(GraphError::InvariantViolation)
        } else {
            self.keys = Some(EdgeKeys::new(key, tail_key, head_key));
            Ok(())
        }
    }

    /// Moves the start to `(x, y)`, attached or not.
    pub(crate) fn set_p1_uns(&mut self, x: i32, y: i32)
        requires
            coord_ok(x as int),
            coord_ok(y as int),
        ensures
            final(self).start().x() == x,
            final(self).start().y() == y,
            final(self).end() == old(self).end(),
            final(self).keys == old(self).keys,
    {
        match Point::new(x, y) {
            Some(p) => {
                self.p1 = p;
            },
            None => {},
        }
    }

    /// Moves the end to `(x, y)`, attached or not.
    pub(crate) fn set_p2_uns(&mut self, x: i32, y: i32)
        requires
            coord_ok(x as int),
            coord_ok(y as int),
        ensures
            final(self).end().x() == x,
            final(self).end().y() == y,
            final(self).start() == old(self).start(),
            final(self).keys == old(self).keys,
    {
        match Point::new(x, y) {
            Some(p) => {
                self.p2 = p;
            },
            None => {},
        }
    }

    /// Moves the start to `(t.0, t.1)`, attached or not.
    pub(crate) fn set_p1_t_uns(&mut self, t: (i32, i32))
        requires
            coord_ok(t.0 as int),
            coord_ok(t.1 as int),
        ensures
            final(self).start().x() == t.0,
            final(self).start().y() == t.1,
            final(self).end() == old(self).end(),
            final(self).keys == old(self).keys,
    {
        self.set_p1_uns(t.0, t.1);
    }

    /// Moves the end to `(t.0, t.1)`, attached or not.
    pub(crate) fn set_p2_t_uns(&mut self, t: (i32, i32))
        requires
            coord_ok(t.0 as int),
            coord_ok(t.1 as int),
        ensures
            final(self).end().x() == t.0,
            final(self).end().y() == t.1,
            final(self).start() == old(self).start(),
            final(self).keys == old(self).keys,
    {
        self.set_p2_uns(t.0, t.1);
    }

    /// Moves the start, attached or not.
    pub(crate) fn set_p1_v_uns(&mut self, v: &Point)
        ensures
            final(self).start() == *v,
            final(self).end() == old(self).end(),
            final(self).keys == old(self).keys,
    {
        self.p1 = *v;
    }

    /// Moves the end, attached or not.
    pub(crate) fn set_p2_v_uns(&mut self, v: &Point)
        ensures
            final(self).start() == old(self).start(),
            final(self).end() == *v,
            final(self).keys == old(self).keys,
    {
        self.p2 = *v;
    }
}

impl EdgeGetSet for Edge {
    open spec fn starts_at(&self) -> Point {
        self.start()
    }

    open spec fn ends_at(&self) -> Point {
        self.end()
    }

    open spec fn is_attached(&self) -> bool {
        self.attached()
    }

    open spec fn attached_keys(&self) -> EdgeKeys {
        self.keys()
    }

    fn set_p1(&mut self, x: i32, y: i32) {
        self.set_p1_uns(x, y);
    }

    fn set_p2(&mut self, x: i32, y: i32) {
        self.set_p2_uns(x, y);
    }

    fn set_p1_t(&mut self, t: (i32, i32)) {
        self.set_p1_t_uns(t);
    }

    fn set_p2_t(&mut self, t: (i32, i32)) {
        self.set_p2_t_uns(t);
    }

    fn set_p1_v(&mut self, v: &Point) {
        self.set_p1_v_uns(v);
    }

    fn set_p2_v(&mut self, v: &Point) {
        self.set_p2_v_uns(v);
    }

    fn get_p1_t(&self) -> (r: (i32, i32)) {
        (self.p1.x(), self.p1.y())
    }

    fn get_p2_t(&self) -> (r: (i32, i32)) {
        (self.p2.x(), self.p2.y())
    }

    fn get_p1_v(&self) -> (r: Point) {
        self.p1
    }

    fn get_p2_v(&self) -> (r: Point) {
        self.p2
    }

    fn get_length(&self) -> (r: u64) {
        self.p1.distance(&self.p2)
    }

    fn get_keys(&self) -> (r: &EdgeKeys) {
        self.keys.as_ref().unwrap()
    }

    fn get_mut_keys(&mut self) -> (r: &mut EdgeKeys) {
        self.keys.as_mut().unwrap()
    }
}

impl Default for Edge {
    /// A free edge from the origin to the origin.
    fn default() -> (r: Self)
        ensures
            r.start().x() == 0,
            r.start().y() == 0,
            r.end().x() == 0,
            r.end().y() == 0,
            !r.attached(),
    {
        Self { p1: Point::origin(), p2: Point::origin(), keys: None }
    }
}

} // verus!
