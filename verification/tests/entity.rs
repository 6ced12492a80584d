use planar_graph::point::{isqrt, COORD_MAX, LENGTH_MAX, SPAN_SQ_MAX};
use planar_graph::{
    Edge, EdgeGetSet, EdgeKeys, Graph, GraphError, Node, NodeGetSet, NodeKeys, Point,
};

fn pt(x: i32, y: i32) -> Point {
    Point::new(x, y).unwrap()
}

#[test]
fn point_within_bounds() {
    let p = pt(-7, 9);
    assert_eq!((p.x(), p.y()), (-7, 9));
    assert!(Point::new(COORD_MAX, -COORD_MAX).is_some());
    assert!(Point::new(COORD_MAX + 1, 0).is_none());
    assert!(Point::new(0, -COORD_MAX - 1).is_none());
    assert!(Point::new(i32::MAX, i32::MIN).is_none());
    assert_eq!(Point::origin(), pt(0, 0));
}

#[test]
fn point_geometry_is_exact() {
    let a = pt(1, 2);
    let b = pt(4, 6);
    assert_eq!(a.dist_sq(&b), 25);
    assert_eq!(a.distance(&b), 5);
    assert_eq!(pt(0, 0).distance(&pt(1, 1)), 1);
    assert_eq!(pt(0, 0).distance(&pt(2, 2)), 2);
    assert_eq!(pt(0, 0).distance_fine(&pt(1, 1)), 362);
    assert_eq!(pt(0, 0).distance_fine(&pt(3, 4)), 1280);
    assert_eq!(pt(0, 0).distance_fine(&pt(0, 0)), 0);
    assert_eq!(pt(0, 0).along(&pt(10, 0), &pt(3, 4)), 30);
    assert_eq!(pt(0, 0).across(&pt(10, 0), &pt(3, 4)), -40);
    assert_eq!(pt(0, 0).across(&pt(10, 0), &pt(3, -4)), 40);
    assert!(pt(0, 0).near_segment(&pt(10, 0), &pt(3, 4), 4));
    assert!(!pt(0, 0).near_segment(&pt(10, 0), &pt(3, 4), 3));
    assert!(!pt(0, 0).near_segment(&pt(0, 0), &pt(0, 0), 3));
}

#[test]
fn point_geometry_at_the_bounds() {
    let a = pt(-COORD_MAX, -COORD_MAX);
    let b = pt(COORD_MAX, COORD_MAX);
    assert_eq!(a.dist_sq(&b), SPAN_SQ_MAX);
    assert_eq!(a.distance(&b), LENGTH_MAX);
    assert_eq!(a.distance_fine(&b), planar_graph::point::FINE_LENGTH_MAX);
    assert_eq!(a.across(&b, &pt(COORD_MAX, -COORD_MAX)), SPAN_SQ_MAX / 2);
    assert_eq!(a.across(&b, &pt(-COORD_MAX, COORD_MAX)), -SPAN_SQ_MAX / 2);
    assert_eq!(a.along(&b, &b), SPAN_SQ_MAX);
    assert!(a.near_segment(&b, &pt(0, 0), 0));
    assert!(!a.near_segment(&b, &pt(1, 0), 0));
    assert!(a.near_segment(&b, &pt(1, 0), 1));
}

#[test]
fn integer_square_root_rounds_down() {
    assert_eq!(isqrt(0), 0);
    assert_eq!(isqrt(1), 1);
    assert_eq!(isqrt(3), 1);
    assert_eq!(isqrt(4), 2);
    assert_eq!(isqrt(24), 4);
    assert_eq!(isqrt(25), 5);
    assert_eq!(isqrt(26), 5);
    assert_eq!(isqrt(SPAN_SQ_MAX as u64), LENGTH_MAX);
    assert_eq!(isqrt(LENGTH_MAX * LENGTH_MAX), LENGTH_MAX);
    assert_eq!(isqrt(LENGTH_MAX * LENGTH_MAX - 1), LENGTH_MAX - 1);
}

#[test]
fn free_node_can_be_moved() {
    let mut n = Node::new(1, 2);
    assert!(n.pos_changeable());
    assert!(!n.initialized());
    assert_eq!(n.get_p_t(), (1, 2));
    n.set_p(3, 4);
    assert_eq!(n.get_p_v(), pt(3, 4));
    n.set_p_t((5, 6));
    assert_eq!(*n.get_pos(), pt(5, 6));
    n.set_p_v(&pt(7, 8));
    assert_eq!(n.get_p_t(), (7, 8));
    assert_eq!(Node::default().get_p_t(), (0, 0));
    assert_eq!(Node::from(pt(9, 9)).get_p_t(), (9, 9));
}

#[test]
fn free_edge_can_be_moved() {
    let mut e = Edge::new(0, 0, 3, 4);
    assert!(e.pos_changeable());
    assert!(!e.initialized());
    assert_eq!(e.get_length(), 5);
    e.set_p1(1, 1);
    assert_eq!(e.get_p1_t(), (1, 1));
    e.set_p2(2, 2);
    assert_eq!(e.get_p2_v(), pt(2, 2));
    e.set_p1_t((3, 3));
    e.set_p2_t((4, 4));
    assert_eq!(e.get_pos(), (&pt(3, 3), &pt(4, 4)));
    e.set_p1_v(&pt(0, 0));
    e.set_p2_v(&pt(6, 8));
    assert_eq!((e.get_p1_v(), e.get_p2_t()), (pt(0, 0), (6, 8)));
    assert_eq!(e.get_length(), 10);
    e.set_pos(&pt(1, 0), &pt(1, 7));
    assert_eq!(e.get_length(), 7);
    assert_eq!(Edge::from(pt(0, 0), pt(0, 2)).get_length(), 2);
    assert_eq!(Edge::default().get_length(), 0);
}

#[test]
fn stored_entities_carry_their_keys() {
    let mut g = Graph::new();
    let a = g.add_node(Node::new(0, 0)).unwrap();
    let b = g.add_node(Node::new(3, 4)).unwrap();
    let ab = g.add_edge(Edge::default(), a, b).unwrap();
    let n = g.node(a).unwrap();
    assert!(n.initialized());
    assert!(!n.pos_changeable());
    assert_eq!(n.get_keys().own(), a);
    assert!(n.get_keys().has_tail(ab));
    assert!(!n.get_keys().has_head(ab));
    assert!(g.node(b).unwrap().get_id().has_head(ab));
    let e = g.edge(ab).unwrap();
    assert!(e.initialized());
    assert!(!e.pos_changeable());
    assert_eq!(*e.get_keys(), EdgeKeys::new(ab, a, b));
    assert_eq!(e.get_length(), 5);
}

#[test]
fn attached_node_is_refused() {
    let mut g = Graph::new();
    let a = g.add_node(Node::new(0, 0)).unwrap();
    let copy = g.node(a).unwrap().clone();
    assert_eq!(copy.get_id().own(), a);
    assert_eq!(g.add_node(copy), Err(GraphError::InvariantViolation));
    assert_eq!(g.node_count(), 1);
    let mut other = Graph::new();
    let copy = g.node(a).unwrap().clone();
    assert_eq!(other.add_node(copy), Err(GraphError::InvariantViolation));
    assert_eq!(other.node_count(), 0);
}

#[test]
fn attached_edge_is_refused_unless_the_edge_exists() {
    let mut g = Graph::new();
    let a = g.add_node(Node::new(0, 0)).unwrap();
    let b = g.add_node(Node::new(3, 4)).unwrap();
    let ab = g.add_edge(Edge::default(), a, b).unwrap();
    let copy = *g.edge(ab).unwrap();
    assert_eq!(g.add_edge(copy, b, a), Err(GraphError::InvariantViolation));
    assert_eq!(g.add_edge(copy, a, b), Ok(ab));
    assert_eq!(g.edge_count(), 1);
}

#[test]
fn key_records_can_be_copied_and_changed() {
    let mut g = Graph::new();
    let a = g.add_node(Node::new(0, 0)).unwrap();
    let b = g.add_node(Node::new(3, 4)).unwrap();
    let ab = g.add_edge(Edge::default(), a, b).unwrap();
    let mut copy = g.node(a).unwrap().clone();
    let keys: &mut NodeKeys = copy.get_mut_keys();
    assert_eq!(keys.tails(), vec![ab]);
    let record = copy.get_mut_id().clone();
    assert_eq!(record.own(), a);
    assert_eq!(record.tails(), vec![ab]);
    assert!(record.heads().is_empty());
    let fresh = NodeKeys::new(b);
    assert_eq!(fresh.own(), b);
    assert!(fresh.tails().is_empty());
    let mut edge = *g.edge(ab).unwrap();
    edge.get_mut_keys().to = a;
    assert_eq!(edge.get_id(), (a, a));
    assert_eq!(g.edge(ab).unwrap().get_id(), (a, b));
}

#[test]
fn keys_have_distinct_handles() {
    let mut g = Graph::new();
    let a = g.add_node(Node::new(0, 0)).unwrap();
    let b = g.add_node(Node::new(3, 4)).unwrap();
    assert_ne!(a.as_ffi(), b.as_ffi());
    let ab = g.add_edge(Edge::default(), a, b).unwrap();
    let ba = g.add_edge(Edge::default(), b, a).unwrap();
    assert_ne!(ab.as_ffi(), ba.as_ffi());
}

#[test]
fn key_of_another_graph_is_unknown_or_another_node() {
    let mut g = Graph::new();
    let mut h = Graph::new();
    let a = g.add_node(Node::new(0, 0)).unwrap();
    let _ = g.add_node(Node::new(1, 0)).unwrap();
    let second = g.add_node(Node::new(2, 0)).unwrap();
    let x = h.add_node(Node::new(5, 5)).unwrap();
    assert!(h.node(second).is_none());
    assert_eq!(h.remove_node(second), Err(GraphError::UnknownNode));
    assert_eq!(h.set_node_pos(second, &pt(1, 1)), Err(GraphError::UnknownNode));
    assert_eq!(h.add_edge(Edge::default(), x, second), Err(GraphError::UnknownNode));
    assert_eq!(h.node(a).map(|n| *n.get_pos()), Some(pt(5, 5)));
}

#[test]
fn integer_square_root_of_large_numbers() {
    assert_eq!(isqrt(u64::MAX), 4_294_967_295);
    assert_eq!(isqrt(4_294_967_295 * 4_294_967_295), 4_294_967_295);
    assert_eq!(isqrt(4_294_967_295 * 4_294_967_295 - 1), 4_294_967_294);
    assert_eq!(isqrt(1 << 62), 1 << 31);
}
