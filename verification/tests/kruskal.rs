use mst::{compute, weight_from_bits, weight_to_bits, Edge, Graph, MstError, Node};

fn nodes(n: usize) -> Vec<Node> {
    (0..n).map(|i| Node::new(i as i32, 0)).collect()
}

fn graph(n: usize, edges: &[(usize, usize, i64)]) -> Graph {
    Graph::new(
        nodes(n),
        edges.iter().map(|&(s, t, w)| Edge::new(s, t, w)).collect(),
    )
}

fn triples(edges: &[Edge]) -> Vec<(usize, usize, i64)> {
    edges.iter().map(|e| (e.source, e.target, e.weight)).collect()
}

fn total(edges: &[(usize, usize, i64)]) -> i64 {
    edges.iter().map(|e| e.2).sum()
}

/// The number of components that `edges` leave among `n` nodes, or `None`
/// where an edge closes a cycle.
fn components_of_forest(n: usize, edges: &[(usize, usize, i64)]) -> Option<usize> {
    let mut label: Vec<usize> = (0..n).collect();
    let mut count = n;
    for &(s, t, _) in edges {
        let (a, b) = (label[s], label[t]);
        if a == b {
            return None;
        }
        for l in label.iter_mut() {
            if *l == b {
                *l = a;
            }
        }
        count -= 1;
    }
    Some(count)
}

fn is_spanning_tree(n: usize, all: &[(usize, usize, i64)], tree: &[(usize, usize, i64)]) -> bool {
    tree.iter().all(|e| all.contains(e)) && components_of_forest(n, tree) == Some(1)
}

/// The least total weight of a spanning tree, by trying every choice of
/// `n - 1` edges.
fn lightest_by_enumeration(n: usize, all: &[(usize, usize, i64)]) -> Option<i64> {
    let mut best: Option<i64> = None;
    for mask in 0u32..(1u32 << all.len()) {
        if mask.count_ones() as usize != n - 1 {
            continue;
        }
        let chosen: Vec<(usize, usize, i64)> = (0..all.len())
            .filter(|k| mask & (1 << k) != 0)
            .map(|k| all[k])
            .collect();
        if components_of_forest(n, &chosen) == Some(1) {
            let w = total(&chosen);
            if best.map_or(true, |b| w < b) {
                best = Some(w);
            }
        }
    }
    best
}

#[test]
fn triangle_with_distinct_weights() {
    let g = Graph::new(
        vec![Node::new(0, 0), Node::new(1, 0), Node::new(1, 1)],
        vec![Edge::new(0, 1, 1), Edge::new(1, 2, 2), Edge::new(0, 2, 3)],
    );
    let tree = compute(&g).unwrap();
    assert_eq!(triples(&tree), vec![(0, 1, 1), (1, 2, 2)]);
    assert_eq!(total(&triples(&tree)), 3);
}

#[test]
fn triangle_with_equal_weights() {
    let all = [(0, 1, 1), (1, 2, 1), (0, 2, 1)];
    let tree = triples(&compute(&graph(3, &all)).unwrap());
    assert_eq!(tree.len(), 2);
    assert!(is_spanning_tree(3, &all, &tree));
    assert_eq!(total(&tree), 2);
    assert_eq!(lightest_by_enumeration(3, &all), Some(2));
}

#[test]
fn graph_without_nodes_has_the_empty_tree() {
    assert_eq!(triples(&compute(&graph(0, &[])).unwrap()), vec![]);
}

#[test]
fn graph_without_nodes_ignores_its_edges() {
    let g = graph(0, &[(0, 1, 5), (3, 3, 1)]);
    assert_eq!(triples(&compute(&g).unwrap()), vec![]);
}

#[test]
fn graph_of_one_node_has_the_empty_tree() {
    assert_eq!(triples(&compute(&graph(1, &[])).unwrap()), vec![]);
}

#[test]
fn graph_of_one_node_ignores_its_edges() {
    assert_eq!(triples(&compute(&graph(1, &[(0, 0, 4)])).unwrap()), vec![]);
    assert_eq!(triples(&compute(&graph(1, &[(0, 7, 4), (9, 0, 1)])).unwrap()), vec![]);
}

#[test]
fn two_triangles_apart_are_disconnected() {
    let g = graph(
        6,
        &[(0, 1, 1), (1, 2, 1), (0, 2, 1), (3, 4, 1), (4, 5, 1), (3, 5, 1)],
    );
    assert_eq!(compute(&g).err(), Some(MstError::DisconnectedGraph));
}

#[test]
fn nodes_without_edges_are_disconnected() {
    assert_eq!(compute(&graph(2, &[])).err(), Some(MstError::DisconnectedGraph));
    assert_eq!(
        compute(&graph(3, &[(0, 1, 1)])).err(),
        Some(MstError::DisconnectedGraph)
    );
}

#[test]
fn loops_and_doubled_edges_do_not_connect_a_graph() {
    let g = graph(3, &[(0, 0, 1), (1, 1, 1), (0, 1, 2), (1, 0, 3), (2, 2, 0)]);
    assert_eq!(compute(&g).err(), Some(MstError::DisconnectedGraph));
}

#[test]
fn edge_out_of_range_is_an_invalid_index() {
    assert_eq!(
        compute(&graph(3, &[(0, 1, 1), (1, 3, 1), (1, 2, 1)])).err(),
        Some(MstError::InvalidIndex)
    );
    assert_eq!(
        compute(&graph(2, &[(2, 0, 1)])).err(),
        Some(MstError::InvalidIndex)
    );
}

#[test]
fn edge_out_of_range_is_reported_even_where_a_tree_exists_without_it() {
    let g = graph(3, &[(0, 1, 1), (1, 2, 2), (0, 9, 100)]);
    assert_eq!(compute(&g).err(), Some(MstError::InvalidIndex));
}

#[test]
fn edge_out_of_range_is_reported_before_disconnection() {
    let g = graph(4, &[(0, 1, 1), (5, 2, 1)]);
    assert_eq!(compute(&g).err(), Some(MstError::InvalidIndex));
}

#[test]
fn input_graph_is_left_as_it_was() {
    let all = [(2, 3, 9), (0, 1, 7), (1, 2, 8), (0, 3, 1), (0, 2, 1)];
    let g = graph(4, &all);
    let before_nodes: Vec<(i32, i32)> = g.nodes().iter().map(|n| (n.0, n.1)).collect();
    let before_edges = triples(g.edges());
    let tree = compute(&g).unwrap();
    assert_eq!(tree.len(), 3);
    let after_nodes: Vec<(i32, i32)> = g.nodes().iter().map(|n| (n.0, n.1)).collect();
    assert_eq!(after_nodes, before_nodes);
    assert_eq!(triples(g.edges()), before_edges);
    assert_eq!(triples(g.edges()), all.to_vec());
}

#[test]
fn edges_given_heaviest_first_are_taken_lightest_first() {
    let all = [(0, 3, 40), (2, 3, 30), (1, 2, 20), (0, 1, 10)];
    let tree = triples(&compute(&graph(4, &all)).unwrap());
    assert_eq!(tree, vec![(0, 1, 10), (1, 2, 20), (2, 3, 30)]);
}

#[test]
fn result_comes_in_ascending_order_of_weight() {
    let all = [
        (0, 1, 7),
        (0, 3, 5),
        (1, 2, 8),
        (1, 3, 9),
        (1, 4, 7),
        (2, 4, 5),
        (3, 4, 15),
        (3, 5, 6),
        (4, 5, 8),
        (4, 6, 9),
        (5, 6, 11),
    ];
    let tree = triples(&compute(&graph(7, &all)).unwrap());
    assert_eq!(tree.len(), 6);
    assert!(tree.windows(2).all(|w| w[0].2 <= w[1].2));
    assert!(is_spanning_tree(7, &all, &tree));
    assert_eq!(total(&tree), 39);
}

#[test]
fn loops_and_doubled_edges_are_passed_over() {
    let all = [(1, 1, -5), (0, 1, 4), (1, 0, 3), (0, 1, 3), (1, 2, 6), (2, 2, 0), (2, 1, 6)];
    let tree = triples(&compute(&graph(3, &all)).unwrap());
    assert_eq!(tree.len(), 2);
    assert_eq!(total(&tree), 9);
    assert!(is_spanning_tree(3, &all, &tree));
    assert!(tree.iter().all(|e| e.0 != e.1));
}

#[test]
fn negative_weights_are_weights_like_any_other() {
    let all = [(0, 1, -3), (1, 2, -1), (0, 2, -2), (2, 3, 0), (1, 3, i64::MIN), (0, 3, i64::MAX)];
    let tree = triples(&compute(&graph(4, &all)).unwrap());
    assert_eq!(tree, vec![(1, 3, i64::MIN), (0, 1, -3), (0, 2, -2)]);
}

#[test]
fn two_nodes_take_the_lightest_edge_between_them() {
    let tree = triples(&compute(&graph(2, &[(0, 1, 5), (1, 0, 2), (0, 1, 9)])).unwrap());
    assert_eq!(tree, vec![(1, 0, 2)]);
}

#[test]
fn a_path_is_its_own_tree() {
    let all = [(0, 1, 3), (1, 2, 1), (2, 3, 2)];
    let tree = triples(&compute(&graph(4, &all)).unwrap());
    assert_eq!(tree, vec![(1, 2, 1), (2, 3, 2), (0, 1, 3)]);
}

#[test]
fn no_choice_of_edges_is_lighter() {
    // Graphs drawn by a fixed linear congruential sequence.
    let mut state: u64 = 0x2545_f491_4f6c_dd1d;
    let mut next = |bound: u64| {
        state = state
            .wrapping_mul(6364136223846793005)
            .wrapping_add(1442695040888963407);
        (state >> 33) % bound
    };
    let mut connected_seen = 0;
    let mut disconnected_seen = 0;
    for _ in 0..300 {
        let n = 2 + next(5) as usize;
        let m = next(11) as usize;
        let all: Vec<(usize, usize, i64)> = (0..m)
            .map(|_| (next(n as u64) as usize, next(n as u64) as usize, next(7) as i64 - 3))
            .collect();
        let expected = lightest_by_enumeration(n, &all);
        match compute(&graph(n, &all)) {
            Ok(tree) => {
                let tree = triples(&tree);
                assert_eq!(tree.len(), n - 1);
                assert!(is_spanning_tree(n, &all, &tree));
                assert!(tree.windows(2).all(|w| w[0].2 <= w[1].2));
                assert_eq!(Some(total(&tree)), expected);
                connected_seen += 1;
            }
            Err(e) => {
                assert_eq!(e, MstError::DisconnectedGraph);
                assert_eq!(expected, None);
                disconnected_seen += 1;
            }
        }
    }
    assert!(connected_seen > 20);
    assert!(disconnected_seen > 20);
}

#[test]
fn real_weights_go_through_their_keys() {
    let real: [(usize, usize, f64); 5] = [
        (0, 1, 0.5),
        (1, 2, -1.25),
        (0, 2, 0.25),
        (2, 3, 1e-9),
        (1, 3, -0.0),
    ];
    let edges: Vec<Edge> = real
        .iter()
        .map(|&(s, t, w)| Edge::new(s, t, weight_from_bits(w.to_bits())))
        .collect();
    let tree = compute(&Graph::new(nodes(4), edges)).unwrap();
    let back: Vec<(usize, usize, f64)> = tree
        .iter()
        .map(|e| (e.source, e.target, f64::from_bits(weight_to_bits(e.weight))))
        .collect();
    assert_eq!(back.len(), 3);
    assert_eq!((back[0].0, back[0].1), (1, 2));
    assert_eq!(back[0].2, -1.25);
    assert_eq!((back[1].0, back[1].1), (1, 3));
    assert_eq!(back[1].2.to_bits(), (-0.0f64).to_bits());
    assert_eq!((back[2].0, back[2].1), (0, 2));
    assert_eq!(back[2].2, 0.25);
}
