use mst::{Edge, Graph, Node};
use std::cmp::Ordering;

#[test]
fn node_keeps_its_coordinates() {
    let node = Node::new(3, -4);
    assert_eq!(node.0, 3);
    assert_eq!(node.1, -4);
}

#[test]
fn edge_keeps_its_fields() {
    let edge = Edge::new(2, 5, -7);
    assert_eq!(edge.source, 2);
    assert_eq!(edge.target, 5);
    assert_eq!(edge.weight, -7);
}

#[test]
fn edges_are_equal_by_weight_alone() {
    let a = Edge::new(0, 1, 4);
    let b = Edge::new(7, 9, 4);
    let c = Edge::new(0, 1, 5);
    assert!(a == b);
    assert!(a != c);
    assert!(!(a == c));
}

#[test]
fn edges_are_ordered_by_weight_alone() {
    let light = Edge::new(8, 9, -1);
    let heavy = Edge::new(0, 1, 6);
    let twin = Edge::new(3, 4, 6);
    assert_eq!(light.partial_cmp(&heavy), Some(Ordering::Less));
    assert_eq!(heavy.partial_cmp(&light), Some(Ordering::Greater));
    assert_eq!(heavy.partial_cmp(&twin), Some(Ordering::Equal));
    assert!(light < heavy);
    assert!(heavy > light);
    assert!(heavy <= twin);
    assert!(heavy >= twin);
    assert!(!(heavy < twin));
}

#[test]
fn graph_holds_what_it_was_given() {
    let nodes = vec![Node::new(0, 0), Node::new(1, 0)];
    let edges = vec![Edge::new(0, 1, 10), Edge::new(1, 0, 20)];
    let graph = Graph::new(nodes, edges);
    assert_eq!(graph.nodes().len(), 2);
    assert_eq!(graph.nodes()[1].0, 1);
    assert_eq!(graph.edges().len(), 2);
    assert_eq!(graph.edges()[0].source, 0);
    assert_eq!(graph.edges()[0].target, 1);
    assert_eq!(graph.edges()[0].weight, 10);
    assert_eq!(graph.edges()[1].source, 1);
    assert_eq!(graph.edges()[1].target, 0);
    assert_eq!(graph.edges()[1].weight, 20);
}

#[test]
fn graph_is_built_without_validation() {
    let graph = Graph::new(vec![Node::new(0, 0)], vec![Edge::new(0, 9, 1)]);
    assert_eq!(graph.edges()[0].target, 9);
    assert!(!graph.check_bounds());
}

#[test]
fn check_bounds_accepts_edges_between_nodes() {
    let nodes = vec![Node::new(0, 0), Node::new(1, 0), Node::new(2, 0)];
    let edges = vec![Edge::new(0, 2, 1), Edge::new(2, 2, 1), Edge::new(1, 0, 1)];
    assert!(Graph::new(nodes, edges).check_bounds());
}

#[test]
fn check_bounds_rejects_a_source_out_of_range() {
    let nodes = vec![Node::new(0, 0), Node::new(1, 0)];
    let edges = vec![Edge::new(0, 1, 1), Edge::new(2, 1, 1)];
    assert!(!Graph::new(nodes, edges).check_bounds());
}

#[test]
fn check_bounds_rejects_a_target_out_of_range() {
    let nodes = vec![Node::new(0, 0), Node::new(1, 0)];
    let edges = vec![Edge::new(0, 2, 1), Edge::new(0, 1, 1)];
    assert!(!Graph::new(nodes, edges).check_bounds());
}

#[test]
fn check_bounds_of_graphs_without_edges() {
    assert!(Graph::new(vec![], vec![]).check_bounds());
    assert!(Graph::new(vec![Node::new(0, 0)], vec![]).check_bounds());
    assert!(!Graph::new(vec![], vec![Edge::new(0, 0, 1)]).check_bounds());
}
