use planar_graph::{Edge, Graph, GraphError, Node, NodeKey, Point, SL};

fn pt(x: i32, y: i32) -> Point {
    Point::new(x, y).unwrap()
}

fn scattered() -> (Graph, NodeKey, NodeKey, NodeKey, NodeKey) {
    let mut g = Graph::new();
    let a = g.add_node(Node::new(0, 0)).unwrap();
    let b = g.add_node(Node::new(10, 0)).unwrap();
    let c = g.add_node(Node::new(0, 5)).unwrap();
    let d = g.add_node(Node::new(5, 0)).unwrap();
    (g, a, b, c, d)
}

#[test]
fn nearest_node_is_the_first_of_the_nearest() {
    let (g, a, b, c, d) = scattered();
    assert_eq!(g.find_nearest_node(a), Ok(Some(c)));
    assert_eq!(g.find_nearest_node(b), Ok(Some(d)));
    assert_eq!(g.find_nearest_node(d), Ok(Some(a)));
    assert_eq!(g.find_nearest_node(c), Ok(Some(a)));
}

#[test]
fn nearest_node_of_a_lone_node_is_none() {
    let mut g = Graph::new();
    let a = g.add_node(Node::new(1, 1)).unwrap();
    assert_eq!(g.find_nearest_node(a), Ok(None));
}

#[test]
fn nearest_node_of_an_unknown_key_fails() {
    let (mut g, a, _b, _c, _d) = scattered();
    g.remove_node(a).unwrap();
    assert_eq!(g.find_nearest_node(a), Err(GraphError::UnknownNode));
    assert_eq!(g.find_near_nodes_by_key(a, 10), Err(GraphError::UnknownNode));
}

#[test]
fn near_nodes_are_strictly_within_the_radius() {
    let (g, a, b, c, d) = scattered();
    assert_eq!(g.find_near_nodes_by_key(a, 10), Ok(vec![c, d]));
    assert_eq!(g.find_near_nodes_by_key(a, -10), Ok(vec![c, d]));
    assert_eq!(g.find_near_nodes_by_key(a, 11), Ok(vec![b, c, d]));
    assert_eq!(g.find_near_nodes_by_key(a, 5), Ok(vec![]));
    assert_eq!(g.find_near_nodes_by_key(a, 0), Ok(vec![]));
}

#[test]
fn nodes_in_a_ring_leave_out_the_centre_and_the_rims() {
    let (g, a, b, c, d) = scattered();
    assert_eq!(g.find_nodes(pt(0, 0), 0, 11), vec![b, c, d]);
    assert_eq!(g.find_nodes(pt(0, 0), 5, 11), vec![b]);
    assert_eq!(g.find_nodes(pt(0, 0), 5, 10), Vec::<NodeKey>::new());
    assert_eq!(g.find_nodes(pt(1, 0), 0, 2), vec![a]);
    assert_eq!(g.find_nodes(pt(100, 100), 0, 10), Vec::<NodeKey>::new());
}

#[test]
fn point_picks_the_closest_node_in_reach() {
    let (g, _a, _b, _c, d) = scattered();
    assert_eq!(g.selected_n_k(&pt(3, 0)), Some(d));
    assert_eq!(g.selected_n_k(&pt(100, 100)), None);
}

#[test]
fn node_reach_is_twice_the_radius_exclusive() {
    let mut g = Graph::new();
    let a = g.add_node(Node::new(0, 0)).unwrap();
    assert_eq!(g.selected_n_k(&pt(19, 0)), Some(a));
    assert_eq!(g.selected_n_k(&pt(20, 0)), None);
    assert_eq!(g.selected_n_k(&pt(12, 16)), None);
    assert_eq!(g.selected_n_k(&pt(12, 15)), Some(a));
}

#[test]
fn point_picks_an_edge_within_its_band() {
    let mut g = Graph::new();
    let a = g.add_node(Node::new(0, 0)).unwrap();
    let b = g.add_node(Node::new(100, 0)).unwrap();
    let ab = g.add_edge(Edge::default(), a, b).unwrap();
    assert_eq!(g.selected_e_k(&pt(50, 3)), Some(ab));
    assert_eq!(g.selected_e_k(&pt(50, 5)), Some(ab));
    assert_eq!(g.selected_e_k(&pt(50, -5)), Some(ab));
    assert_eq!(g.selected_e_k(&pt(50, 6)), None);
    assert_eq!(g.selected_e_k(&pt(-1, 0)), None);
    assert_eq!(g.selected_e_k(&pt(101, 0)), None);
    assert_eq!(g.selected_e_k(&pt(0, 0)), Some(ab));
    assert_eq!(g.selected_e_k(&pt(100, 0)), Some(ab));
}

#[test]
fn edge_without_length_is_never_picked() {
    let mut g = Graph::new();
    let a = g.add_node(Node::new(7, 7)).unwrap();
    g.add_edge(Edge::default(), a, a).unwrap();
    assert_eq!(g.selected_e_k(&pt(7, 7)), None);
}

#[test]
fn point_picks_the_edge_it_is_nearest_to_whatever_the_lengths() {
    let mut g = Graph::new();
    let a = g.add_node(Node::new(0, 0)).unwrap();
    let b = g.add_node(Node::new(100, 0)).unwrap();
    let c = g.add_node(Node::new(0, 1)).unwrap();
    let d = g.add_node(Node::new(10, 1)).unwrap();
    let short = g.add_edge(Edge::default(), c, d).unwrap();
    let long = g.add_edge(Edge::default(), a, b).unwrap();
    assert_eq!(g.selected_e_k(&pt(5, -1)), Some(long));
    assert_eq!(g.selected_e_k(&pt(5, 3)), Some(short));
    assert_eq!(g.selected_e_k(&pt(5, 2)), Some(short));
    assert_eq!(g.selected_e_k(&pt(50, 3)), Some(long));
}

#[test]
fn point_picks_the_nearer_edge_on_either_side() {
    let mut g = Graph::new();
    let a = g.add_node(Node::new(0, 0)).unwrap();
    let b = g.add_node(Node::new(100, 0)).unwrap();
    let c = g.add_node(Node::new(0, 4)).unwrap();
    let d = g.add_node(Node::new(50, 4)).unwrap();
    let low = g.add_edge(Edge::default(), a, b).unwrap();
    let high = g.add_edge(Edge::default(), c, d).unwrap();
    assert_eq!(g.selected_e_k(&pt(20, 1)), Some(low));
    assert_eq!(g.selected_e_k(&pt(20, 3)), Some(high));
    assert_eq!(g.selected_e_k(&pt(20, 5)), Some(high));
    assert_eq!(g.selected_e_k(&pt(20, -1)), Some(low));
    assert_eq!(g.selected_e_k(&pt(20, 2)), Some(low));
}

#[test]
fn point_tells_an_edge_from_its_reverse_by_the_side_it_is_on() {
    let mut g = Graph::new();
    let a = g.add_node(Node::new(0, 0)).unwrap();
    let b = g.add_node(Node::new(100, 0)).unwrap();
    let back = g.add_edge(Edge::default(), b, a).unwrap();
    let forth = g.add_edge(Edge::default(), a, b).unwrap();
    assert_eq!(g.selected_e_k(&pt(50, 2)), Some(forth));
    assert_eq!(g.selected_e_k(&pt(50, -2)), Some(back));
    assert_eq!(g.selected_e_k(&pt(50, 0)), Some(back));
}

#[test]
fn pick_at_a_node_centre_returns_the_node() {
    let mut g = Graph::new();
    let a = g.add_node(Node::new(0, 0)).unwrap();
    let b = g.add_node(Node::new(100, 0)).unwrap();
    let c = g.add_node(Node::new(50, 0)).unwrap();
    g.add_edge(Edge::default(), a, b).unwrap();
    assert_eq!(g.selected_k_v(&pt(0, 0)), SL::Node(a));
    assert_eq!(g.selected_k_v(&pt(100, 0)), SL::Node(b));
    assert_eq!(g.selected_k_v(&pt(50, 0)), SL::Node(c));
}

#[test]
fn pick_settles_between_node_and_edge() {
    let mut g = Graph::new();
    let a = g.add_node(Node::new(0, 0)).unwrap();
    let b = g.add_node(Node::new(100, 0)).unwrap();
    let ab = g.add_edge(Edge::default(), a, b).unwrap();
    assert_eq!(g.selected_k_v(&pt(5, 1)), SL::Node(a));
    assert_eq!(g.selected_k_v(&pt(11, 4)), SL::Node(a));
    assert_eq!(g.selected_k_v(&pt(12, 0)), SL::Edge(ab));
    assert_eq!(g.selected_k_v(&pt(15, 1)), SL::Edge(ab));
    assert_eq!(g.selected_k_v(&pt(15, -4)), SL::Edge(ab));
    assert_eq!(g.selected_k_v(&pt(50, 2)), SL::Edge(ab));
    assert_eq!(g.selected_k_v(&pt(-15, 0)), SL::Node(a));
    assert_eq!(g.selected_k_v(&pt(50, 50)), SL::Nothing);
}

#[test]
fn queries_walk_the_nodes_in_arena_order() {
    let (mut g, a, b, c, d) = scattered();
    assert_eq!(g.node_keys(), vec![a, b, c, d]);
    g.remove_node(b).unwrap();
    assert_eq!(g.node_keys(), vec![a, c, d]);
    let e = g.add_node(Node::new(0, -5)).unwrap();
    assert_eq!(g.node_keys().len(), 4);
    assert!(g.node_keys().contains(&e));
    let nearest = g.find_nearest_node(a).unwrap().unwrap();
    let walk = g.node_keys();
    let first_nearest = walk.iter().find(|k| **k == c || **k == d || **k == e).unwrap();
    assert_eq!(nearest, *first_nearest);
}

fn dist_sq(a: &Point, b: &Point) -> i128 {
    let dx = (a.x() - b.x()) as i128;
    let dy = (a.y() - b.y()) as i128;
    dx * dx + dy * dy
}

#[test]
fn picks_agree_with_plain_arithmetic() {
    let mut state: u64 = 99;
    let mut below = move |bound: u64| -> u64 {
        state = state.wrapping_mul(6364136223846793005).wrapping_add(1442695040888963407);
        (state >> 33) % bound
    };
    for _ in 0..30 {
        let mut g = Graph::new();
        let n = 1 + below(8) as usize;
        let mut keys = Vec::new();
        for _ in 0..n {
            keys.push(g.add_node(Node::new(below(80) as i32 - 40, below(80) as i32 - 40)).unwrap());
        }
        for _ in 0..n {
            let a = keys[below(n as u64) as usize];
            let b = keys[below(n as u64) as usize];
            g.add_edge(Edge::default(), a, b).unwrap();
        }
        if n > 3 {
            g.remove_node(keys[1]).unwrap();
        }
        for _ in 0..60 {
            let q = pt(below(100) as i32 - 50, below(100) as i32 - 50);
            let mut best_node: Option<(i128, planar_graph::NodeKey)> = None;
            for k in g.node_keys() {
                let d = dist_sq(g.node(k).unwrap().get_pos(), &q);
                if d < 400 && best_node.map_or(true, |b| d < b.0) {
                    best_node = Some((d, k));
                }
            }
            assert_eq!(g.selected_n_k(&q), best_node.map(|b| b.1));
            let mut best_edge: Option<(i128, i128, planar_graph::EdgeKey)> = None;
            for k in g.edge_keys() {
                let (p1, p2) = g.edge(k).unwrap().get_pos();
                let ex = (p2.x() - p1.x()) as i128;
                let ey = (p2.y() - p1.y()) as i128;
                let qx = (q.x() - p1.x()) as i128;
                let qy = (q.y() - p1.y()) as i128;
                let along = qx * ex + qy * ey;
                let across = qx * ey - qy * ex;
                let len2 = ex * ex + ey * ey;
                let near = 0 <= along && along <= len2 && len2 > 0 && across * across <= 25 * len2;
                let less = |b: (i128, i128, planar_graph::EdgeKey)| {
                    let mine = across * across * b.1;
                    let held = b.0 * b.0 * len2;
                    mine < held || (mine == held && across < 0 && 0 < b.0)
                };
                if near && best_edge.map_or(true, less) {
                    best_edge = Some((across, len2, k));
                }
            }
            assert_eq!(g.selected_e_k(&q), best_edge.map(|b| b.2));
            let want = match (best_node, best_edge) {
                (Some((nd2, nk)), Some((across, len2, ek))) => {
                    if (across > 0 && nd2 * len2 < across * across) || nd2 < 144 {
                        SL::Node(nk)
                    } else {
                        SL::Edge(ek)
                    }
                }
                (Some((_, nk)), None) => SL::Node(nk),
                (None, Some((_, _, ek))) => SL::Edge(ek),
                (None, None) => SL::Nothing,
            };
            assert_eq!(g.selected_k_v(&q), want);
            let ring: Vec<planar_graph::NodeKey> = g
                .node_keys()
                .into_iter()
                .filter(|k| {
                    let d = dist_sq(g.node(*k).unwrap().get_pos(), &q);
                    d != 0 && 25 < d && d < 900
                })
                .collect();
            assert_eq!(g.find_nodes(q, -5, 30), ring);
        }
        for k in g.node_keys() {
            let here = *g.node(k).unwrap().get_pos();
            let mut best: Option<(i128, planar_graph::NodeKey)> = None;
            for other in g.node_keys() {
                if other == k {
                    continue;
                }
                let d = dist_sq(g.node(other).unwrap().get_pos(), &here);
                if best.map_or(true, |b| d < b.0) {
                    best = Some((d, other));
                }
            }
            assert_eq!(g.find_nearest_node(k), Ok(best.map(|b| b.1)));
        }
    }
}
