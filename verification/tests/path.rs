use planar_graph::edge::{Edge, EdgeGetSet};
use planar_graph::error::GraphError;
use planar_graph::graph::Graph;
use planar_graph::keys::{EdgeKey, NodeKey};
use planar_graph::node::Node;
use planar_graph::path::{find_shortest_path, UNREACHABLE};
use planar_graph::point::LENGTH_SCALE;

struct Square {
    g: Graph,
    a: NodeKey,
    b: NodeKey,
    c: NodeKey,
    d: NodeKey,
    ab: EdgeKey,
    bc: EdgeKey,
    ad: EdgeKey,
    dc: EdgeKey,
}

fn square() -> Square {
    let mut g = Graph::new();
    let a = g.add_node(Node::new(0, 0)).unwrap();
    let b = g.add_node(Node::new(3, 0)).unwrap();
    let c = g.add_node(Node::new(3, 4)).unwrap();
    let d = g.add_node(Node::new(0, 4)).unwrap();
    let ab = g.add_edge(Edge::new(0, 0, 0, 0), a, b).unwrap();
    let bc = g.add_edge(Edge::new(0, 0, 0, 0), b, c).unwrap();
    let ad = g.add_edge(Edge::new(0, 0, 0, 0), a, d).unwrap();
    let dc = g.add_edge(Edge::new(0, 0, 0, 0), d, c).unwrap();
    Square { g, a, b, c, d, ab, bc, ad, dc }
}

fn assert_connected(g: &Graph, nodes: &[NodeKey], edges: &[EdgeKey]) {
    assert_eq!(nodes.len(), edges.len() + 1);
    for i in 0..edges.len() {
        let e = g.edge(edges[i]).unwrap();
        assert_eq!(e.get_id(), (nodes[i], nodes[i + 1]));
    }
}

#[test]
fn shortest_path_across_the_square() {
    let q = square();
    let (nodes, edges, total) = find_shortest_path(&q.g, q.a, q.c).unwrap();
    assert_eq!(total, 7 * 256);
    assert_eq!(total / LENGTH_SCALE as u128, 7);
    assert_eq!(nodes.len(), 3);
    assert_eq!(nodes[0], q.a);
    assert_eq!(nodes[2], q.c);
    assert!(nodes[1] == q.b || nodes[1] == q.d);
    assert_connected(&q.g, &nodes, &edges);
    let sum: u64 = edges.iter().map(|e| q.g.edge(*e).unwrap().get_length()).sum();
    assert_eq!(sum as u128, total / 256);
}

#[test]
fn shortest_path_prefers_the_shorter_detour() {
    let mut q = square();
    q.g.set_node_pos(q.d, &planar_graph::point::Point::new(0, 40).unwrap()).unwrap();
    let (nodes, edges, total) = find_shortest_path(&q.g, q.a, q.c).unwrap();
    assert_eq!(nodes, vec![q.a, q.b, q.c]);
    assert_eq!(edges, vec![q.ab, q.bc]);
    assert_eq!(total, 1792);
}

#[test]
fn unreachable_target_gives_empty_path() {
    let mut q = square();
    q.g.remove_edge(q.ab).unwrap();
    q.g.remove_edge(q.dc).unwrap();
    let (nodes, edges, total) = find_shortest_path(&q.g, q.a, q.c).unwrap();
    assert!(nodes.is_empty());
    assert!(edges.is_empty());
    assert_eq!(total, UNREACHABLE);
    assert_eq!(total, u128::MAX);
    let _ = (q.bc, q.ad);
}

#[test]
fn edges_are_followed_in_their_direction_only() {
    let q = square();
    let (nodes, edges, total) = find_shortest_path(&q.g, q.c, q.a).unwrap();
    assert!(nodes.is_empty());
    assert!(edges.is_empty());
    assert_eq!(total, UNREACHABLE);
}

#[test]
fn path_from_a_node_to_itself() {
    let q = square();
    let (nodes, edges, total) = find_shortest_path(&q.g, q.b, q.b).unwrap();
    assert_eq!(nodes, vec![q.b]);
    assert!(edges.is_empty());
    assert_eq!(total, 0);
}

#[test]
fn path_with_unknown_end_fails() {
    let mut q = square();
    q.g.remove_node(q.d).unwrap();
    assert_eq!(find_shortest_path(&q.g, q.a, q.d).err(), Some(GraphError::UnknownNode));
    assert_eq!(find_shortest_path(&q.g, q.d, q.a).err(), Some(GraphError::UnknownNode));
    let (nodes, _, total) = find_shortest_path(&q.g, q.a, q.c).unwrap();
    assert_eq!(nodes, vec![q.a, q.b, q.c]);
    assert_eq!(total, 1792);
}

#[test]
fn longer_chain_beats_a_long_direct_edge() {
    let mut g = Graph::new();
    let a = g.add_node(Node::new(0, 0)).unwrap();
    let b = g.add_node(Node::new(10, 0)).unwrap();
    let c = g.add_node(Node::new(20, 0)).unwrap();
    let far = g.add_node(Node::new(10, 100)).unwrap();
    let ab = g.add_edge(Edge::new(0, 0, 0, 0), a, b).unwrap();
    let bc = g.add_edge(Edge::new(0, 0, 0, 0), b, c).unwrap();
    g.add_edge(Edge::new(0, 0, 0, 0), a, far).unwrap();
    g.add_edge(Edge::new(0, 0, 0, 0), far, c).unwrap();
    let (nodes, edges, total) = find_shortest_path(&g, a, c).unwrap();
    assert_eq!(nodes, vec![a, b, c]);
    assert_eq!(edges, vec![ab, bc]);
    assert_eq!(total, 5120);
}

#[test]
fn shortest_paths_agree_with_exhaustive_search() {
    let mut state: u64 = 2024;
    let mut next = move |bound: u64| -> u64 {
        state = state.wrapping_mul(6364136223846793005).wrapping_add(1442695040888963407);
        (state >> 33) % bound
    };
    for _ in 0..40 {
        let n = 2 + next(7) as usize;
        let mut g = Graph::new();
        let mut keys = Vec::new();
        for _ in 0..n {
            let x = next(60) as i32 - 30;
            let y = next(60) as i32 - 30;
            keys.push(g.add_node(Node::new(x, y)).unwrap());
        }
        let inf = u128::MAX / 4;
        let mut best = vec![vec![inf; n]; n];
        for i in 0..n {
            best[i][i] = 0;
        }
        for _ in 0..(n * 2) {
            let a = next(n as u64) as usize;
            let b = next(n as u64) as usize;
            let e = g.add_edge(Edge::new(0, 0, 0, 0), keys[a], keys[b]).unwrap();
            let (p1, p2) = g.edge(e).unwrap().get_pos();
            let w = p1.distance_fine(p2) as u128;
            if w < best[a][b] {
                best[a][b] = w;
            }
        }
        for k in 0..n {
            for i in 0..n {
                for j in 0..n {
                    if best[i][k] + best[k][j] < best[i][j] {
                        best[i][j] = best[i][k] + best[k][j];
                    }
                }
            }
        }
        for i in 0..n {
            for j in 0..n {
                let (nodes, edges, total) = find_shortest_path(&g, keys[i], keys[j]).unwrap();
                if best[i][j] >= inf {
                    assert!(nodes.is_empty());
                    assert!(edges.is_empty());
                    assert_eq!(total, UNREACHABLE);
                } else {
                    assert_eq!(total, best[i][j]);
                    assert_eq!(nodes[0], keys[i]);
                    assert_eq!(*nodes.last().unwrap(), keys[j]);
                    assert_connected(&g, &nodes, &edges);
                    let sum: u128 = edges
                        .iter()
                        .map(|e| {
                            let (p1, p2) = g.edge(*e).unwrap().get_pos();
                            p1.distance_fine(p2) as u128
                        })
                        .sum();
                    assert_eq!(sum, total);
                }
            }
        }
    }
}

#[test]
fn direct_edge_beats_a_zigzag_of_short_edges() {
    let mut g = Graph::new();
    let at = [(0, 0), (1, 1), (2, 1), (3, 2), (4, 3), (5, 4), (5, 5)];
    let keys: Vec<NodeKey> = at.iter().map(|p| g.add_node(Node::new(p.0, p.1)).unwrap()).collect();
    for i in 0..6 {
        g.add_edge(Edge::new(0, 0, 0, 0), keys[i], keys[i + 1]).unwrap();
    }
    let (_, zigzag, along) = find_shortest_path(&g, keys[0], keys[6]).unwrap();
    assert_eq!(zigzag.len(), 6);
    assert_eq!(along, 362 + 256 + 362 + 362 + 362 + 256);
    let direct = g.add_edge(Edge::new(0, 0, 0, 0), keys[0], keys[6]).unwrap();
    let (nodes, edges, total) = find_shortest_path(&g, keys[0], keys[6]).unwrap();
    assert_eq!(nodes, vec![keys[0], keys[6]]);
    assert_eq!(edges, vec![direct]);
    assert_eq!(total, 1810);
}
