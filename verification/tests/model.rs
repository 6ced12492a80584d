use planar_graph::{Edge, EdgeKey, Graph, GraphError, Node, NodeKey, Point};

struct Rng(u64);

impl Rng {
    fn below(&mut self, bound: u64) -> u64 {
        self.0 = self.0.wrapping_mul(6364136223846793005).wrapping_add(1442695040888963407);
        (self.0 >> 33) % bound
    }
}

struct ModelEdge {
    key: EdgeKey,
    from: NodeKey,
    to: NodeKey,
}

struct Model {
    nodes: Vec<(NodeKey, Point)>,
    edges: Vec<ModelEdge>,
}

fn is_subsequence<T: PartialEq>(short: &[T], long: &[T]) -> bool {
    let mut at = 0;
    for x in long {
        if at < short.len() && short[at] == *x {
            at += 1;
        }
    }
    at == short.len()
}

fn check(g: &Graph, m: &Model) {
    assert_eq!(g.node_count(), m.nodes.len());
    assert_eq!(g.edge_count(), m.edges.len());
    let walk = g.node_keys();
    assert_eq!(walk.len(), m.nodes.len());
    for (k, p) in &m.nodes {
        assert!(walk.contains(k));
        let n = g.node(*k).unwrap();
        assert_eq!(n.get_pos(), p);
        assert_eq!(n.get_id().own(), *k);
        let mut tails = n.get_id().tails();
        tails.sort_by_key(|e| e.as_ffi());
        let mut want: Vec<EdgeKey> = m.edges.iter().filter(|e| e.from == *k).map(|e| e.key).collect();
        want.sort_by_key(|e| e.as_ffi());
        assert_eq!(tails, want);
        let mut heads = n.get_id().heads();
        heads.sort_by_key(|e| e.as_ffi());
        let mut want: Vec<EdgeKey> = m.edges.iter().filter(|e| e.to == *k).map(|e| e.key).collect();
        want.sort_by_key(|e| e.as_ffi());
        assert_eq!(heads, want);
    }
    let edge_walk = g.edge_keys();
    assert_eq!(edge_walk.len(), m.edges.len());
    for e in &m.edges {
        assert!(edge_walk.contains(&e.key));
        let stored = g.edge(e.key).unwrap();
        assert_eq!(stored.get_id(), (e.from, e.to));
        let p1 = g.node(e.from).unwrap().get_pos();
        let p2 = g.node(e.to).unwrap().get_pos();
        assert_eq!(stored.get_pos(), (p1, p2));
        assert_eq!(g.find_edge(e.from, e.to), Some(e.key));
    }
}

#[test]
fn store_agrees_with_a_plain_model() {
    let mut rng = Rng(7);
    let mut g = Graph::new();
    let mut m = Model { nodes: Vec::new(), edges: Vec::new() };
    let mut dead_nodes: Vec<NodeKey> = Vec::new();
    let mut dead_edges: Vec<EdgeKey> = Vec::new();
    for _ in 0..3000 {
        let nodes_before = g.node_keys();
        let edges_before = g.edge_keys();
        match rng.below(7) {
            0 | 1 => {
                let p = Point::new(rng.below(200) as i32 - 100, rng.below(200) as i32 - 100).unwrap();
                let k = g.add_node(Node::from(p)).unwrap();
                assert!(!nodes_before.contains(&k));
                m.nodes.push((k, p));
                let after = g.node_keys();
                assert_eq!(after.len(), nodes_before.len() + 1);
                assert!(is_subsequence(&nodes_before, &after));
                assert_eq!(g.edge_keys(), edges_before);
            }
            2 | 3 => {
                if m.nodes.is_empty() {
                    continue;
                }
                let a = m.nodes[rng.below(m.nodes.len() as u64) as usize].0;
                let b = m.nodes[rng.below(m.nodes.len() as u64) as usize].0;
                let known = m.edges.iter().find(|e| e.from == a && e.to == b).map(|e| e.key);
                let k = g.add_edge(Edge::default(), a, b).unwrap();
                match known {
                    Some(e) => {
                        assert_eq!(k, e);
                        assert_eq!(g.edge_keys(), edges_before);
                    }
                    None => {
                        assert!(!edges_before.contains(&k));
                        m.edges.push(ModelEdge { key: k, from: a, to: b });
                        let after = g.edge_keys();
                        assert_eq!(after.len(), edges_before.len() + 1);
                        assert!(is_subsequence(&edges_before, &after));
                    }
                }
                assert_eq!(g.node_keys(), nodes_before);
            }
            4 => {
                if m.nodes.is_empty() {
                    continue;
                }
                let at = rng.below(m.nodes.len() as u64) as usize;
                let k = m.nodes.remove(at).0;
                assert_eq!(g.remove_node(k), Ok(()));
                dead_nodes.push(k);
                for e in m.edges.iter().filter(|e| e.from == k || e.to == k) {
                    dead_edges.push(e.key);
                }
                m.edges.retain(|e| e.from != k && e.to != k);
                let want: Vec<NodeKey> = nodes_before.iter().copied().filter(|x| *x != k).collect();
                assert_eq!(g.node_keys(), want);
                let want: Vec<EdgeKey> = edges_before
                    .iter()
                    .copied()
                    .filter(|x| m.edges.iter().any(|e| e.key == *x))
                    .collect();
                assert_eq!(g.edge_keys(), want);
            }
            5 => {
                if m.edges.is_empty() {
                    continue;
                }
                let at = rng.below(m.edges.len() as u64) as usize;
                let k = m.edges.remove(at).key;
                assert_eq!(g.remove_edge(k), Ok(()));
                dead_edges.push(k);
                let want: Vec<EdgeKey> = edges_before.iter().copied().filter(|x| *x != k).collect();
                assert_eq!(g.edge_keys(), want);
                assert_eq!(g.node_keys(), nodes_before);
            }
            _ => {
                if m.nodes.is_empty() {
                    continue;
                }
                let at = rng.below(m.nodes.len() as u64) as usize;
                let p = Point::new(rng.below(200) as i32 - 100, rng.below(200) as i32 - 100).unwrap();
                assert_eq!(g.set_node_pos(m.nodes[at].0, &p), Ok(()));
                m.nodes[at].1 = p;
                assert_eq!(g.node_keys(), nodes_before);
                assert_eq!(g.edge_keys(), edges_before);
            }
        }
        check(&g, &m);
        for k in &dead_nodes {
            assert!(g.node(*k).is_none());
        }
        for k in &dead_edges {
            assert!(g.edge(*k).is_none());
        }
    }
    for k in dead_nodes.iter().take(20) {
        assert_eq!(g.remove_node(*k), Err(GraphError::UnknownNode));
        assert_eq!(g.find_nearest_node(*k), Err(GraphError::UnknownNode));
    }
    for k in dead_edges.iter().take(20) {
        assert_eq!(g.remove_edge(*k), Err(GraphError::UnknownEdge));
    }
}
