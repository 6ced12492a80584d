use planar_graph::{Edge, Graph, GraphError, Node, Point};

fn pt(x: i32, y: i32) -> Point {
    Point::new(x, y).unwrap()
}

#[test]
fn lists_of_a_graph() {
    let mut g = Graph::new();
    let a = g.add_node(Node::new(0, 0)).unwrap();
    let b = g.add_node(Node::new(3, 0)).unwrap();
    let c = g.add_node(Node::new(3, 4)).unwrap();
    g.add_edge(Edge::default(), a, b).unwrap();
    g.add_edge(Edge::default(), b, c).unwrap();
    g.add_edge(Edge::default(), c, a).unwrap();
    let (nodes, links) = g.to_lists();
    assert_eq!(nodes, vec![pt(0, 0), pt(3, 0), pt(3, 4)]);
    assert_eq!(links, vec![(0, 1), (1, 2), (2, 0)]);
}

#[test]
fn graph_of_two_lists() {
    let nodes = vec![pt(0, 0), pt(3, 0), pt(3, 4)];
    let links = vec![(0, 1), (1, 2), (0, 1), (2, 2)];
    let (g, keys) = Graph::from_lists(&nodes, &links).unwrap();
    assert_eq!(keys.len(), 3);
    assert_eq!(g.node_count(), 3);
    assert_eq!(g.edge_count(), 3);
    for i in 0..3 {
        assert_eq!(*g.node(keys[i]).unwrap().get_pos(), nodes[i]);
    }
    let e01 = g.find_edge(keys[0], keys[1]).unwrap();
    let e12 = g.find_edge(keys[1], keys[2]).unwrap();
    let e22 = g.find_edge(keys[2], keys[2]).unwrap();
    assert_eq!(g.find_edge(keys[1], keys[0]), None);
    assert_eq!(g.find_edge(keys[0], keys[2]), None);
    assert_eq!(g.node(keys[0]).unwrap().get_id().tails(), vec![e01]);
    assert_eq!(g.node(keys[1]).unwrap().get_id().heads(), vec![e01]);
    assert_eq!(g.node(keys[1]).unwrap().get_id().tails(), vec![e12]);
    let mut into_2 = g.node(keys[2]).unwrap().get_id().heads();
    into_2.sort_by_key(|k| k.as_ffi());
    let mut want = vec![e12, e22];
    want.sort_by_key(|k| k.as_ffi());
    assert_eq!(into_2, want);
    assert_eq!(g.edge(e12).unwrap().get_pos(), (&pt(3, 0), &pt(3, 4)));
}

#[test]
fn pair_beyond_the_list_is_refused() {
    let nodes = vec![pt(0, 0), pt(1, 1)];
    assert_eq!(Graph::from_lists(&nodes, &vec![(0, 2)]).err(), Some(GraphError::UnknownNode));
    assert_eq!(Graph::from_lists(&nodes, &vec![(0, 1), (2, 0)]).err(), Some(GraphError::UnknownNode));
    assert_eq!(Graph::from_lists(&vec![], &vec![(0, 0)]).err(), Some(GraphError::UnknownNode));
    assert!(Graph::from_lists(&vec![], &vec![]).is_ok());
}

#[test]
fn reloading_keeps_positions_and_edges() {
    let mut g = Graph::new();
    let a = g.add_node(Node::new(0, 0)).unwrap();
    let b = g.add_node(Node::new(3, 0)).unwrap();
    let c = g.add_node(Node::new(3, 4)).unwrap();
    let d = g.add_node(Node::new(0, 4)).unwrap();
    g.add_edge(Edge::default(), a, b).unwrap();
    g.add_edge(Edge::default(), b, c).unwrap();
    g.add_edge(Edge::default(), a, d).unwrap();
    g.add_edge(Edge::default(), d, c).unwrap();
    g.remove_node(b).unwrap();
    let e = g.add_node(Node::new(-8, 9)).unwrap();
    g.add_edge(Edge::default(), e, a).unwrap();
    let (nodes, links) = g.to_lists();
    let (h, keys) = Graph::from_lists(&nodes, &links).unwrap();
    let walk = g.node_keys();
    assert_eq!(keys.len(), walk.len());
    assert_eq!(h.node_count(), g.node_count());
    assert_eq!(h.edge_count(), g.edge_count());
    for i in 0..walk.len() {
        assert_eq!(h.node(keys[i]).unwrap().get_pos(), g.node(walk[i]).unwrap().get_pos());
        assert_eq!(
            h.node(keys[i]).unwrap().get_id().tails().len(),
            g.node(walk[i]).unwrap().get_id().tails().len()
        );
        assert_eq!(
            h.node(keys[i]).unwrap().get_id().heads().len(),
            g.node(walk[i]).unwrap().get_id().heads().len()
        );
        for j in 0..walk.len() {
            assert_eq!(
                h.find_edge(keys[i], keys[j]).is_some(),
                g.find_edge(walk[i], walk[j]).is_some()
            );
        }
    }
    let (nodes_again, links_again) = h.to_lists();
    assert_eq!(nodes_again, nodes);
    let mut sorted = links.clone();
    sorted.sort();
    let mut sorted_again = links_again.clone();
    sorted_again.sort();
    assert_eq!(sorted_again, sorted);
}
