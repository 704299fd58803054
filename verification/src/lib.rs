//! Minimum spanning trees of weighted undirected graphs.
//!
//! A [`Graph`] is a list of nodes and a list of weighted edges between node
//! indices. [`compute`] runs Kruskal's algorithm over a [`DisjointSet`] and
//! returns the edges of a minimum spanning tree, or says why none exists.
//! Every function carries a contract that Verus proves; the one step taken on
//! trust is the sort of the standard library.
//!
//! - `graph`: nodes, edges and graphs.
//! - `disjoint_set`: the union-find forest, with `make`, `find` and `union`.
//! - `connectivity`: which nodes a sequence of edges connects.
//! - `spanning_tree`: spanning trees, their weight, and the exchange argument.
//! - `mst`: `compute`.
//! - `weight`: integer keys for real-valued weights.
//! - `error`: what can go wrong.

pub mod connectivity;
pub mod disjoint_set;
pub mod error;
pub mod graph;
pub mod mst;
pub mod spanning_tree;
pub mod weight;

pub use error::MstError;
pub use disjoint_set::{find, make, union, DisjointSet, Subset};
pub use graph::{Edge, Graph, Node};
pub use mst::compute;
pub use weight::{weight_from_bits, weight_to_bits};
