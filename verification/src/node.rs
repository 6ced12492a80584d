//! Nodes: a position, and once attached the keys of the edges that touch it.

use crate::error::GraphError;
use crate::keys::{EdgeKey, NodeKey, NodeKeys};
use crate::point::{coord_ok, Point};
use vstd::prelude::*;

verus! {

/// What a node is to a reader of the graph: where it lies and which edges
/// enter and leave it.
pub struct NodeView {
    pub pos: Point,
    pub heads: Set<EdgeKey>,
    pub tails: Set<EdgeKey>,
}

/// Reading a node, and moving one that is free.
pub trait NodeGetSet: Sized {
    /// Where the node lies.
    spec fn placed_at(&self) -> Point;

    /// Whether the node belongs to a graph.
    spec fn is_attached(&self) -> bool;

    /// The keys of a node that belongs to a graph.
    spec fn attached_keys(&self) -> NodeKeys;

    /// Moves a free node to `(x, y)`.
    fn set_p(&mut self, x: i32, y: i32)
        requires
            !old(self).is_attached(),
            coord_ok(x as int),
            coord_ok(y as int),
        ensures
            final(self).placed_at().x() == x,
            final(self).placed_at().y() == y,
            !final(self).is_attached(),
    ;

    /// Moves a free node to `(t.0, t.1)`.
    fn set_p_t(&mut self, t: (i32, i32))
        requires
            !old(self).is_attached(),
            coord_ok(t.0 as int),
            coord_ok(t.1 as int),
        ensures
            final(self).placed_at().x() == t.0,
            final(self).placed_at().y() == t.1,
            !final(self).is_attached(),
    ;

    /// Moves a free node to `v`.
    fn set_p_v(&mut self, v: &Point)
        requires
            !old(self).is_attached(),
        ensures
            final(self).placed_at() == *v,
            !final(self).is_attached(),
    ;

    /// The coordinates of the node.
    fn get_p_t(&self) -> (r: (i32, i32))
        ensures
            r.0 == self.placed_at().x(),
            r.1 == self.placed_at().y(),
    ;

    /// The position of the node.
    fn get_p_v(&self) -> (r: Point)
        ensures
            r == self.placed_at(),
    ;

    /// The keys of a node that belongs to a graph.
    fn get_keys(&self) -> (r: &NodeKeys)
        requires
            self.is_attached(),
        ensures
            *r == self.attached_keys(),
    ;

    /// The keys of a node that belongs to a graph, to be changed in place.
    fn get_mut_keys(&mut self) -> (r: &mut NodeKeys)
        requires
            old(self).is_attached(),
        ensures
            *r == old(self).attached_keys(),
            final(self).is_attached(),
            final(self).attached_keys() == *final(r),
            final(self).placed_at() == old(self).placed_at(),
    ;
}

/// A node of the plane. A free node has a position only; a node that belongs
/// to a graph also carries its keys.
#[derive(Debug)]
pub struct Node {
    pub(crate) pos: Point,
    pub(crate) keys: Option<NodeKeys>,
}

impl Node {
    /// Where the node lies.
    pub open(crate) spec fn position(&self) -> Point {
        self.pos
    }

    /// Whether the node belongs to a graph.
    pub open(crate) spec fn attached(&self) -> bool {
        self.keys is Some
    }

    /// The keys of an attached node.
    pub open(crate) spec fn keys(&self) -> NodeKeys
        recommends
            self.attached(),
    {
        self.keys->0
    }

    /// The node as a reader of the graph sees it.
    pub open(crate) spec fn view(&self) -> NodeView
        recommends
            self.attached(),
    {
        NodeView {
            pos: self.pos,
            heads: self.keys->0.head_set(),
            tails: self.keys->0.tail_set(),
        }
    }

    /// The free node at `p`.
    pub open(crate) spec fn free_at(p: Point) -> Node {
        Node { pos: p, keys: None }
    }

    /// A free node at `(x, y)`.
    pub fn new(x: i32, y: i32) -> (r: Self)
        requires
            coord_ok(x as int),
            coord_ok(y as int),
        ensures
            r.position().x() == x,
            r.position().y() == y,
            !r.attached(),
    {
        match Point::new(x, y) {
            Some(p) => Self { pos: p, keys: None },
            None => Self { pos: Point::origin(), keys: None },
        }
    }

    /// The keys of an attached node, to be changed in place.
    pub fn get_mut_id(&mut self) -> (r: &mut NodeKeys)
        requires
            old(self).attached(),
        ensures
            *r == old(self).keys(),
            final(self).attached(),
            final(self).keys() == *final(r),
            final(self).position() == old(self).position(),
    {
        self.keys.as_mut().unwrap()
    }

    /// Where the node lies.
    pub fn get_pos(&self) -> (r: &Point)
        ensures
            *r == self.position(),
    {
        &self.pos
    }

    /// The keys of an attached node.
    pub fn get_id(&self) -> (r: &NodeKeys)
        requires
            self.attached(),
        ensures
            *r == self.keys(),
    {
        self.keys.as_ref().unwrap()
    }

    /// Whether the node belongs to a graph.
    pub fn initialized(&self) -> (r: bool)
        ensures
            r == self.attached(),
    {
        self.keys.is_some()
    }

    /// Whether the node's position may be set directly, which is so while it
    /// belongs to no graph.
    pub fn pos_changeable(&self) -> (r: bool)
        ensures
            r == !self.attached(),
    {
        self.keys.is_none()
    }

    /// Attaches the node under `key`, with no edge touching it.
    pub(crate) fn graph_init(&mut self, key: NodeKey) -> (r: Result<(), GraphError>)
        ensures
            final(self).position() == old(self).position(),
            match r {
                Ok(_) => !old(self).attached() && final(self).attached() && final(self).keys().own()
                    == key && final(self).keys().head_set() == Set::<EdgeKey>::empty()
                    && final(self).keys().tail_set() == Set::<EdgeKey>::empty(),
                Err(e) => old(self).attached() && e == GraphError::InvariantViolation && *final(self)
                    == *old(self),
            },
    {
        if self.keys.is_some() {
            Err(GraphError::InvariantViolation)
        } else {
            self.keys = Some(NodeKeys::new(key));
            Ok(())
        }
    }

    /// Moves the node to `(x, y)`, attached or not.
    pub(crate) fn set_p_uns(&mut self, x: i32, y: i32)
        requires
            coord_ok(x as int),
            coord_ok(y as int),
        ensures
            final(self).position().x() == x,
            final(self).position().y() == y,
            final(self).keys == old(self).keys,
    {
        match Point::new(x, y) {
            Some(p) => {
                self.pos = p;
            },
            None => {},
        }
    }

    /// Moves the node to `(t.0, t.1)`, attached or not.
    pub(crate) fn set_p_t_uns(&mut self, t: (i32, i32))
        requires
            coord_ok(t.0 as int),
            coord_ok(t.1 as int),
        ensures
            final(self).position().x() == t.0,
            final(self).position().y() == t.1,
            final(self).keys == old(self).keys,
    {
        self.set_p_uns(t.0, t.1);
    }

    /// Moves the node, attached or not.
    pub(crate) fn set_p_v_uns(&mut self, v: &Point)
        ensures
            final(self).position() == *v,
            final(self).keys == old(self).keys,
    {
        self.pos = *v;
    }
}

impl NodeGetSet for Node {
    open spec fn placed_at(&self) -> Point {
        self.position()
    }

    open spec fn is_attached(&self) -> bool {
        self.attached()
    }

    open spec fn attached_keys(&self) -> NodeKeys {
        self.keys()
    }

    fn set_p(&mut self, x: i32, y: i32) {
        self.set_p_uns(x, y);
    }

    fn set_p_t(&mut self, t: (i32, i32)) {
        self.set_p_t_uns(t);
    }

    fn set_p_v(&mut self, v: &Point) {
        self.set_p_v_uns(v);
    }

    fn get_p_t(&self) -> (r: (i32, i32)) {
        (self.pos.x(), self.pos.y())
    }

    fn get_p_v(&self) -> (r: Point) {
        self.pos
    }

    fn get_keys(&self) -> (r: &NodeKeys) {
        self.get_id()
    }

    fn get_mut_keys(&mut self) -> (r: &mut NodeKeys) {
        self.get_mut_id()
    }
}

impl Default for Node {
    /// A free node at the origin.
    fn default() -> (r: Self)
        ensures
            r.position().x() == 0,
            r.position().y() == 0,
            !r.attached(),
    {
        Self { pos: Point::origin(), keys: None }
    }
}

impl Clone for Node {
    /// A node at the same position that carries the same keys.
    fn clone(&self) -> (r: Self)
        ensures
            r.position() == self.position(),
            r.attached() == self.attached(),
            self.attached() ==> r@ == self@ && r.keys().own() == self.keys().own(),
    {
        let keys = match &self.keys {
            Some(k) => Some(k.clone()),
            None => None,
        };
        Self { pos: self.pos, keys }
    }
}

impl From<Point> for Node {
    /// A free node at `p`.
    fn from(p: Point) -> (r: Self) {
        Self { pos: p, keys: None }
    }
}

impl vstd::std_specs::convert::FromSpecImpl<Point> for Node {
    open spec fn obeys_from_spec() -> bool {
        true
    }

    open spec fn from_spec(p: Point) -> Self {
        Node::free_at(p)
    }
}

} // verus!
