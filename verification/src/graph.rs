//! The graph model: nodes, weighted edges, and the graph that holds them.

use std::cmp::Ordering;
use vstd::prelude::*;

verus! {

/// A node of a graph. It is known to the algorithms only by its position in
/// the graph's node list; the two coordinates are carried for the host.
#[derive(Debug, Clone, Copy)]
pub struct Node(pub i32, pub i32);

impl Node {
    /// The node with the coordinates `x` and `y`.
    pub fn new(x: i32, y: i32) -> (node: Node)
        ensures
            node == Node(x, y),
    {
        Node(x, y)
    }
}

/// An undirected edge between the nodes at positions `source` and `target`.
///
/// Weights are integers. A host whose weights are real numbers hands each
/// over as its key (see the module `weight`): the keys are ordered as the
/// numbers are, and the tree that is chosen is a lightest one under any scale
/// that keeps the order of the weights.
#[derive(Debug, Clone, Copy)]
pub struct Edge {
    pub source: usize,
    pub target: usize,
    pub weight: i64,
}

impl Edge {
    /// The edge of weight `weight` between the nodes at `source` and `target`.
    pub fn new(source: usize, target: usize, weight: i64) -> (edge: Edge)
        ensures
            edge == (Edge { source, target, weight }),
    {
        Edge { source, target, weight }
    }

    /// Whether the edge runs between `a` and `b`, in either direction.
    pub open spec fn joins(self, a: int, b: int) -> bool {
        (self.source == a && self.target == b) || (self.source == b && self.target == a)
    }
}

/// Edges compare by weight alone: two edges of equal weight are equal to
/// `==`, whatever their endpoints.
impl PartialEq for Edge {
    fn eq(&self, other: &Edge) -> (r: bool) {
        self.weight == other.weight
    }
}

impl vstd::std_specs::cmp::PartialEqSpecImpl for Edge {
    open spec fn obeys_eq_spec() -> bool {
        true
    }

    open spec fn eq_spec(&self, other: &Edge) -> bool {
        self.weight == other.weight
    }
}

/// Edges are ordered by weight alone.
impl PartialOrd for Edge {
    fn partial_cmp(&self, other: &Edge) -> (r: Option<Ordering>) {
        if self.weight < other.weight {
            Some(Ordering::Less)
        } else if self.weight > other.weight {
            Some(Ordering::Greater)
        } else {
            Some(Ordering::Equal)
        }
    }
}

impl vstd::std_specs::cmp::PartialOrdSpecImpl for Edge {
    open spec fn obeys_partial_cmp_spec() -> bool {
        true
    }

    open spec fn partial_cmp_spec(&self, other: &Edge) -> Option<Ordering> {
        if self.weight < other.weight {
            Some(Ordering::Less)
        } else if self.weight > other.weight {
            Some(Ordering::Greater)
        } else {
            Some(Ordering::Equal)
        }
    }
}

/// A graph: a list of nodes and a list of edges between positions of that
/// list. Nothing is checked when a graph is built; an edge may name a
/// position that the node list does not have.
#[derive(Debug)]
pub struct Graph {
    nodes: Vec<Node>,
    edges: Vec<Edge>,
}

impl Graph {
    /// The nodes, in order.
    pub closed spec fn node_seq(&self) -> Seq<Node> {
        self.nodes@
    }

    /// The edges, in order.
    pub closed spec fn edge_seq(&self) -> Seq<Edge> {
        self.edges@
    }

    /// The number of nodes.
    pub open spec fn node_count(&self) -> nat {
        self.node_seq().len()
    }

    /// Every edge runs between two positions of the node list.
    pub open spec fn in_bounds(&self) -> bool {
        edges_in_bounds(self.node_count(), self.edge_seq())
    }

    /// The graph of these nodes and edges, taken as they are.
    pub fn new(nodes: Vec<Node>, edges: Vec<Edge>) -> (graph: Graph)
        ensures
            graph.node_seq() == nodes@,
            graph.edge_seq() == edges@,
    {
        Graph { nodes, edges }
    }

    /// The nodes, in the order in which they were given.
    pub fn nodes(&self) -> (nodes: &Vec<Node>)
        ensures
            nodes@ == self.node_seq(),
    {
        &self.nodes
    }

    /// The edges, in the order in which they were given.
    pub fn edges(&self) -> (edges: &Vec<Edge>)
        ensures
            edges@ == self.edge_seq(),
    {
        &self.edges
    }

    /// Tells whether every edge runs between two positions of the node list.
    pub fn check_bounds(&self) -> (ok: bool)
        ensures
            ok == self.in_bounds(),
    {
        let n: usize = self.nodes.len();
        let mut k: usize = 0;
        while k < self.edges.len()
            invariant
                n == self.nodes@.len(),
                k <= self.edges@.len(),
                forall|j: int|
                    0 <= j < k ==> (#[trigger] self.edges@[j]).source < n && self.edges@[j].target
                        < n,
            decreases self.edges@.len() - k,
        {
            if self.edges[k].source >= n || self.edges[k].target >= n {
                return false;
            }
            k += 1;
        }
        true
    }
}

/// Every edge of `edges` runs between two of the nodes `0..n`.
pub open spec fn edges_in_bounds(n: nat, edges: Seq<Edge>) -> bool {
    forall|k: int| 0 <= k < edges.len() ==> (#[trigger] edges[k]).source < n && edges[k].target < n
}

} // verus!
