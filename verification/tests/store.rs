use planar_graph::edge::Edge;
use planar_graph::error::GraphError;
use planar_graph::graph::Graph;
use planar_graph::node::Node;
use planar_graph::point::Point;

fn pt(x: i32, y: i32) -> Point {
    Point::new(x, y).unwrap()
}

#[test]
fn new_graph_is_empty() {
    let g = Graph::new();
    assert_eq!(g.node_count(), 0);
    assert_eq!(g.edge_count(), 0);
    assert!(g.node_keys().is_empty());
    assert!(g.edge_keys().is_empty());
}

#[test]
fn add_node_stores_position_and_empty_adjacency() {
    let mut g = Graph::new();
    let k = g.add_node(Node::new(3, -4)).unwrap();
    let n = g.node(k).unwrap();
    assert_eq!(*n.get_pos(), pt(3, -4));
    assert_eq!(n.get_id().own(), k);
    assert!(n.get_id().tails().is_empty());
    assert!(n.get_id().heads().is_empty());
    assert_eq!(g.node_count(), 1);
}

#[test]
fn add_edge_wires_both_ends() {
    let mut g = Graph::new();
    let a = g.add_node(Node::new(0, 0)).unwrap();
    let b = g.add_node(Node::new(3, 0)).unwrap();
    let e = g.add_edge(Edge::new(9, 9, 9, 9), a, b).unwrap();
    let edge = g.edge(e).unwrap();
    assert_eq!(edge.get_id(), (a, b));
    assert_eq!(edge.get_pos(), (&pt(0, 0), &pt(3, 0)));
    assert_eq!(g.node(a).unwrap().get_id().tails(), vec![e]);
    assert!(g.node(a).unwrap().get_id().heads().is_empty());
    assert_eq!(g.node(b).unwrap().get_id().heads(), vec![e]);
    assert!(g.node(b).unwrap().get_id().tails().is_empty());
}

#[test]
fn add_edge_twice_returns_the_same_key() {
    let mut g = Graph::new();
    let a = g.add_node(Node::new(0, 0)).unwrap();
    let b = g.add_node(Node::new(3, 0)).unwrap();
    let before = g.edge_count();
    let e1 = g.add_edge(Edge::from(pt(0, 0), pt(3, 0)), a, b).unwrap();
    let e2 = g.add_edge(Edge::from(pt(0, 0), pt(3, 0)), a, b).unwrap();
    assert_eq!(e1, e2);
    assert_eq!(g.edge_count(), before + 1);
    let back = g.add_edge(Edge::from(pt(3, 0), pt(0, 0)), b, a).unwrap();
    assert_ne!(back, e1);
    assert_eq!(g.edge_count(), before + 2);
}

#[test]
fn add_edge_with_unknown_node_fails() {
    let mut g = Graph::new();
    let a = g.add_node(Node::new(0, 0)).unwrap();
    let b = g.add_node(Node::new(1, 0)).unwrap();
    g.remove_node(b).unwrap();
    assert_eq!(g.add_edge(Edge::new(0, 0, 0, 0), a, b), Err(GraphError::UnknownNode));
    assert_eq!(g.add_edge(Edge::new(0, 0, 0, 0), b, a), Err(GraphError::UnknownNode));
    assert_eq!(g.edge_count(), 0);
}

#[test]
fn remove_edge_unwires_both_ends() {
    let mut g = Graph::new();
    let a = g.add_node(Node::new(0, 0)).unwrap();
    let b = g.add_node(Node::new(3, 0)).unwrap();
    let e = g.add_edge(Edge::new(0, 0, 0, 0), a, b).unwrap();
    assert_eq!(g.remove_edge(e), Ok(()));
    assert!(g.edge(e).is_none());
    assert!(g.node(a).unwrap().get_id().tails().is_empty());
    assert!(g.node(b).unwrap().get_id().heads().is_empty());
    assert_eq!(g.remove_edge(e), Err(GraphError::UnknownEdge));
}

#[test]
fn remove_node_cascades() {
    let mut g = Graph::new();
    let a = g.add_node(Node::new(0, 0)).unwrap();
    let b = g.add_node(Node::new(3, 0)).unwrap();
    let c = g.add_node(Node::new(3, 4)).unwrap();
    let ab = g.add_edge(Edge::new(0, 0, 0, 0), a, b).unwrap();
    let bc = g.add_edge(Edge::new(0, 0, 0, 0), b, c).unwrap();
    let ca = g.add_edge(Edge::new(0, 0, 0, 0), c, a).unwrap();
    assert_eq!(g.remove_node(b), Ok(()));
    assert!(g.node(b).is_none());
    assert!(g.edge(ab).is_none());
    assert!(g.edge(bc).is_none());
    assert_eq!(g.edge_keys(), vec![ca]);
    assert!(g.node(a).unwrap().get_id().tails().is_empty());
    assert_eq!(g.node(a).unwrap().get_id().heads(), vec![ca]);
    assert!(g.node(c).unwrap().get_id().heads().is_empty());
    assert_eq!(g.node(c).unwrap().get_id().tails(), vec![ca]);
    assert_eq!(g.remove_node(b), Err(GraphError::UnknownNode));
}

#[test]
fn remove_node_with_a_self_loop() {
    let mut g = Graph::new();
    let a = g.add_node(Node::new(0, 0)).unwrap();
    let b = g.add_node(Node::new(1, 1)).unwrap();
    let aa = g.add_edge(Edge::new(0, 0, 0, 0), a, a).unwrap();
    let ab = g.add_edge(Edge::new(0, 0, 0, 0), a, b).unwrap();
    assert_eq!(g.remove_node(a), Ok(()));
    assert!(g.edge(aa).is_none());
    assert!(g.edge(ab).is_none());
    assert_eq!(g.edge_count(), 0);
    assert!(g.node(b).unwrap().get_id().heads().is_empty());
}

#[test]
fn set_node_pos_moves_cached_ends() {
    let mut g = Graph::new();
    let a = g.add_node(Node::new(0, 0)).unwrap();
    let b = g.add_node(Node::new(3, 0)).unwrap();
    let c = g.add_node(Node::new(3, 4)).unwrap();
    let ab = g.add_edge(Edge::new(0, 0, 0, 0), a, b).unwrap();
    let bc = g.add_edge(Edge::new(0, 0, 0, 0), b, c).unwrap();
    let ca = g.add_edge(Edge::new(0, 0, 0, 0), c, a).unwrap();
    assert_eq!(g.set_node_pos(b, &pt(7, 7)), Ok(()));
    assert_eq!(*g.node(b).unwrap().get_pos(), pt(7, 7));
    assert_eq!(g.edge(ab).unwrap().get_pos(), (&pt(0, 0), &pt(7, 7)));
    assert_eq!(g.edge(bc).unwrap().get_pos(), (&pt(7, 7), &pt(3, 4)));
    assert_eq!(g.edge(ca).unwrap().get_pos(), (&pt(3, 4), &pt(0, 0)));
    g.remove_node(b).unwrap();
    assert_eq!(g.set_node_pos(b, &pt(1, 1)), Err(GraphError::UnknownNode));
}

#[test]
fn stale_key_stays_invalid_after_slot_reuse() {
    let mut g = Graph::new();
    let a = g.add_node(Node::new(1, 1)).unwrap();
    g.remove_node(a).unwrap();
    let b = g.add_node(Node::new(2, 2)).unwrap();
    assert_ne!(a, b);
    assert!(g.node(a).is_none());
    assert_eq!(*g.node(b).unwrap().get_pos(), pt(2, 2));
}

#[test]
fn removed_keys_do_not_come_again() {
    let mut g = Graph::new();
    let a = g.add_node(Node::new(0, 0)).unwrap();
    let b = g.add_node(Node::new(1, 0)).unwrap();
    let mut gone_nodes = Vec::new();
    let mut gone_edges = Vec::new();
    let mut last = g.add_node(Node::new(2, 0)).unwrap();
    let mut edge = g.add_edge(Edge::new(0, 0, 0, 0), a, b).unwrap();
    for _ in 0..200 {
        assert!(!last.worn());
        assert!(!edge.worn());
        g.remove_node(last).unwrap();
        g.remove_edge(edge).unwrap();
        gone_nodes.push(last);
        gone_edges.push(edge);
        last = g.add_node(Node::new(2, 0)).unwrap();
        edge = g.add_edge(Edge::new(0, 0, 0, 0), a, b).unwrap();
        assert!(!gone_nodes.contains(&last));
        assert!(!gone_edges.contains(&edge));
        for k in &gone_nodes {
            assert!(g.node(*k).is_none());
        }
        for k in &gone_edges {
            assert!(g.edge(*k).is_none());
        }
    }
    assert_eq!(g.node_count(), 3);
    assert_eq!(g.edge_count(), 1);
}
