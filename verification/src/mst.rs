//! Kruskal's algorithm: the lightest edges first, each taken unless it would
//! close a cycle.

use crate::connectivity::{
    connected, covered_by, lemma_connected_covered, lemma_connected_edge, lemma_connected_empty,
    lemma_connected_push, lemma_connected_refl, lemma_covered_by_contains,
};
use crate::disjoint_set::{
    find, is_forest, lemma_merged, lemma_merged_same_set, lemma_root_count_one, lemma_root_of,
    lemma_singletons, make, merged, root_count, root_of, same_set, singletons, union, Subset,
};
use crate::error::MstError;
use crate::graph::{edges_in_bounds, Edge, Graph};
use crate::spanning_tree::{
    ascending, bypasses, bypasses_all, is_greedy_forest, is_minimum_spanning_tree, is_spanning_tree,
    lemma_bypass_prefix, lemma_bypassing_tree_is_minimum, lemma_greedy_forest_acyclic,
    lemma_subset_in_bounds,
    lemma_tree_size, spans, total_weight,
};
use vstd::prelude::*;

verus! {

/// Sorts the edges by weight with `sort_unstable_by_key` of the standard
/// library. Trusted: the edges afterwards are the edges before, in an order
/// in which the weights never fall. Nothing is said of the order among edges
/// of equal weight.
#[verifier::external_body]
fn sort_by_weight(edges: &mut Vec<Edge>)
    ensures
        final(edges)@.to_multiset() == old(edges)@.to_multiset(),
        ascending(final(edges)@),
{
    edges.sort_unstable_by_key(|e| e.weight);
}

/// What holds while the edges `sorted` are walked: the first `i` have been
/// looked at, `forest` holds those that were taken, and `sets` holds two
/// nodes in one set exactly where `forest` connects them.
spec fn kruskal_state(
    n: nat,
    sorted: Seq<Edge>,
    i: int,
    sets: Seq<Subset>,
    forest: Seq<Edge>,
) -> bool {
    &&& 0 <= i <= sorted.len()
    &&& is_forest(sets)
    &&& sets.len() == n
    &&& root_count(sets) == n - forest.len()
    &&& forall|u: int, v: int|
        0 <= u < n && 0 <= v < n ==> (same_set(sets, u, v) <==> connected(forest, u, v))
    &&& is_greedy_forest(forest)
    &&& ascending(forest)
    &&& forall|k: int| 0 <= k < i ==> bypasses(forest, #[trigger] sorted[k])
    &&& forall|j: int| 0 <= j < forest.len() ==> sorted.contains(#[trigger] forest[j])
    &&& forall|j: int, k: int|
        0 <= j < forest.len() && i <= k < sorted.len() ==> (#[trigger] forest[j]).weight <= (
        #[trigger] sorted[k]).weight
}

/// Before any edge is looked at, every node is a set of its own.
proof fn lemma_kruskal_start(n: nat, sorted: Seq<Edge>)
    requires
        n <= usize::MAX,
    ensures
        kruskal_state(n, sorted, 0, singletons(n), Seq::empty()),
{
    lemma_singletons(n);
    assert forall|u: int, v: int| 0 <= u < n && 0 <= v < n implies (same_set(singletons(n), u, v)
        <==> connected(Seq::<Edge>::empty(), u, v)) by {
        lemma_connected_empty(u, v);
    }
}

/// A forest still bypasses an edge after one more edge has been taken.
proof fn lemma_bypasses_push(forest: Seq<Edge>, taken: Edge, e: Edge)
    requires
        bypasses(forest, e),
    ensures
        bypasses(forest.push(taken), e),
{
    let m: int = lemma_bypass_prefix(forest, e);
    let grown = forest.push(taken);
    assert(grown.take(m) =~= forest.take(m));
    assert forall|j: int| 0 <= j < m implies grown[j].weight <= e.weight by {
        assert(grown[j] == forest[j]);
    }
}

/// The edge at `i` joins two sets: it is taken, and the two sets are merged.
proof fn lemma_kruskal_take(
    n: nat,
    sorted: Seq<Edge>,
    i: int,
    sets: Seq<Subset>,
    forest: Seq<Edge>,
)
    requires
        kruskal_state(n, sorted, i, sets, forest),
        edges_in_bounds(n, sorted),
        ascending(sorted),
        i < sorted.len(),
        !same_set(sets, sorted[i].source as int, sorted[i].target as int),
    ensures
        kruskal_state(
            n,
            sorted,
            i + 1,
            merged(
                sets,
                root_of(sets, sorted[i].source as int),
                root_of(sets, sorted[i].target as int),
            ),
            forest.push(sorted[i]),
        ),
{
    let e = sorted[i];
    let c: int = e.source as int;
    let d: int = e.target as int;
    let x: int = root_of(sets, c);
    let y: int = root_of(sets, d);
    let grown = forest.push(e);
    let joined = merged(sets, x, y);
    lemma_root_of(sets, c);
    lemma_root_of(sets, d);
    lemma_merged(sets, x, y);
    lemma_merged_same_set(sets, x, y);
    assert forall|u: int, v: int| 0 <= u < n && 0 <= v < n implies (same_set(joined, u, v)
        <==> connected(grown, u, v)) by {
        lemma_connected_push(forest, e, u, v);
        assert(same_set(sets, u, x) <==> same_set(sets, u, c));
        assert(same_set(sets, y, v) <==> same_set(sets, d, v));
        assert(same_set(sets, u, y) <==> same_set(sets, u, d));
        assert(same_set(sets, x, v) <==> same_set(sets, c, v));
    }
    assert forall|j: int| 0 <= j < grown.len() implies !connected(
        grown.take(j),
        (#[trigger] grown[j]).source as int,
        grown[j].target as int,
    ) by {
        if j < forest.len() {
            assert(grown.take(j) =~= forest.take(j));
            assert(grown[j] == forest[j]);
        } else {
            assert(grown.take(j) =~= forest);
        }
    }
    assert forall|a: int, b: int| 0 <= a <= b < grown.len() implies grown[a].weight
        <= grown[b].weight by {
        if b < forest.len() {
            assert(grown[a] == forest[a] && grown[b] == forest[b]);
        } else if a < forest.len() {
            assert(grown[a] == forest[a]);
            assert(forest[a].weight <= sorted[i].weight);
        }
    }
    assert forall|k: int| 0 <= k < i + 1 implies bypasses(grown, #[trigger] sorted[k]) by {
        if k < i {
            lemma_bypasses_push(forest, e, sorted[k]);
        } else {
            let m: int = grown.len() as int;
            assert(grown.take(m) =~= grown);
            lemma_connected_edge(grown, forest.len() as int);
            assert forall|j: int| 0 <= j < m implies grown[j].weight <= e.weight by {
                if j < forest.len() {
                    assert(grown[j] == forest[j]);
                    assert(forest[j].weight <= sorted[i].weight);
                }
            }
        }
    }
    assert forall|j: int| 0 <= j < grown.len() implies sorted.contains(#[trigger] grown[j]) by {
        if j < forest.len() {
            assert(grown[j] == forest[j]);
        }
    }
    assert forall|j: int, k: int|
        0 <= j < grown.len() && i + 1 <= k < sorted.len() implies (#[trigger] grown[j]).weight <= (
    #[trigger] sorted[k]).weight by {
        if j < forest.len() {
            assert(grown[j] == forest[j]);
        }
    }
}

/// The edge at `i` lies within one set: it would close a cycle, and is left.
proof fn lemma_kruskal_leave(
    n: nat,
    sorted: Seq<Edge>,
    i: int,
    sets: Seq<Subset>,
    forest: Seq<Edge>,
)
    requires
        kruskal_state(n, sorted, i, sets, forest),
        edges_in_bounds(n, sorted),
        i < sorted.len(),
        same_set(sets, sorted[i].source as int, sorted[i].target as int),
    ensures
        kruskal_state(n, sorted, i + 1, sets, forest),
{
    assert forall|k: int| 0 <= k < i + 1 implies bypasses(forest, #[trigger] sorted[k]) by {
        if k == i {
            let m: int = forest.len() as int;
            assert(forest.take(m) =~= forest);
            assert forall|j: int| 0 <= j < m implies forest[j].weight <= sorted[i].weight by {
                assert(forest[j].weight <= sorted[i].weight);
            }
        }
    }
}

/// What the forest connects, the edges it was taken from connect, and the
/// other way round once all of them have been looked at.
proof fn lemma_kruskal_covers(n: nat, sorted: Seq<Edge>, sets: Seq<Subset>, forest: Seq<Edge>)
    requires
        kruskal_state(n, sorted, sorted.len() as int, sets, forest),
    ensures
        covered_by(forest, sorted),
        covered_by(sorted, forest),
{
    lemma_covered_by_contains(forest, sorted);
    assert forall|k: int| 0 <= k < sorted.len() implies connected(
        forest,
        (#[trigger] sorted[k]).source as int,
        sorted[k].target as int,
    ) by {
        lemma_bypassed_connected(forest, sorted[k]);
    }
}

/// A forest connects the two ends of an edge that it bypasses.
proof fn lemma_bypassed_connected(forest: Seq<Edge>, e: Edge)
    requires
        bypasses(forest, e),
    ensures
        connected(forest, e.source as int, e.target as int),
{
    let m: int = lemma_bypass_prefix(forest, e);
    let few = forest.take(m);
    assert forall|k: int| 0 <= k < few.len() implies forest.contains(#[trigger] few[k]) by {
        assert(forest[k] == few[k]);
    }
    lemma_covered_by_contains(few, forest);
    lemma_connected_covered(few, forest, e.source as int, e.target as int);
}

/// Two sequences with the same edges, in whatever order, cover each other.
proof fn lemma_same_edges_cover(es: Seq<Edge>, fs: Seq<Edge>)
    requires
        es.to_multiset() == fs.to_multiset(),
    ensures
        forall|e: Edge| es.contains(e) <==> fs.contains(e),
        covered_by(es, fs),
        covered_by(fs, es),
        forall|n: nat| edges_in_bounds(n, es) <==> edges_in_bounds(n, fs),
{
    assert forall|e: Edge| es.contains(e) <==> fs.contains(e) by {
        vstd::seq_lib::to_multiset_contains(es, e);
        vstd::seq_lib::to_multiset_contains(fs, e);
    }
    assert forall|k: int| 0 <= k < es.len() implies fs.contains(#[trigger] es[k]) by {
        assert(es.contains(es[k]));
    }
    assert forall|k: int| 0 <= k < fs.len() implies es.contains(#[trigger] fs[k]) by {
        assert(fs.contains(fs[k]));
    }
    lemma_covered_by_contains(es, fs);
    lemma_covered_by_contains(fs, es);
    assert forall|n: nat| edges_in_bounds(n, es) <==> edges_in_bounds(n, fs) by {
        if edges_in_bounds(n, es) {
            lemma_subset_in_bounds(n, es, fs);
        }
        if edges_in_bounds(n, fs) {
            lemma_subset_in_bounds(n, fs, es);
        }
    }
}

/// With one edge fewer than there are nodes, the forest is a spanning tree of
/// the graph, and a lightest one.
proof fn lemma_kruskal_complete(
    n: nat,
    edges: Seq<Edge>,
    sorted: Seq<Edge>,
    i: int,
    sets: Seq<Subset>,
    forest: Seq<Edge>,
)
    requires
        2 <= n <= usize::MAX,
        edges_in_bounds(n, edges),
        sorted.to_multiset() == edges.to_multiset(),
        kruskal_state(n, sorted, i, sets, forest),
        forest.len() == n - 1,
    ensures
        is_minimum_spanning_tree(n, edges, forest),
        bypasses_all(forest, edges),
        spans(n, edges),
{
    lemma_same_edges_cover(sorted, edges);
    lemma_root_count_one(sets);
    assert(spans(n, forest));
    lemma_greedy_forest_acyclic(forest);
    assert forall|j: int| 0 <= j < forest.len() implies edges.contains(#[trigger] forest[j]) by {
        assert(sorted.contains(forest[j]));
    }
    assert(is_spanning_tree(n, edges, forest));
    lemma_covered_by_contains(forest, edges);
    assert forall|u: int, v: int| 0 <= u < n && 0 <= v < n implies connected(edges, u, v) by {
        lemma_connected_covered(forest, edges, u, v);
    }
    assert forall|k: int| 0 <= k < edges.len() implies bypasses(forest, #[trigger] edges[k]) by {
        assert(sorted.contains(edges[k]));
        let at: int = choose|at: int| 0 <= at < sorted.len() && sorted[at] == edges[k];
        if at < i {
            assert(bypasses(forest, sorted[at]));
        } else {
            let m: int = forest.len() as int;
            assert(forest.take(m) =~= forest);
            assert(edges[k].source < n && edges[k].target < n);
            assert forall|j: int| 0 <= j < m implies forest[j].weight <= edges[k].weight by {
                assert(forest[j].weight <= sorted[at].weight);
            }
        }
    }
    lemma_bypassing_tree_is_minimum(n, edges, forest);
}

/// With all edges looked at and the forest still short of a tree, the graph is
/// not connected.
proof fn lemma_kruskal_exhausted(
    n: nat,
    edges: Seq<Edge>,
    sorted: Seq<Edge>,
    sets: Seq<Subset>,
    forest: Seq<Edge>,
)
    requires
        2 <= n <= usize::MAX,
        sorted.to_multiset() == edges.to_multiset(),
        kruskal_state(n, sorted, sorted.len() as int, sets, forest),
        forest.len() < n - 1,
    ensures
        !spans(n, edges),
{
    lemma_same_edges_cover(sorted, edges);
    lemma_kruskal_covers(n, sorted, sets, forest);
    lemma_root_count_one(sets);
    let (u, v) = choose|u: int, v: int|
        0 <= u < n && 0 <= v < n && !#[trigger] same_set(sets, u, v);
    assert(!connected(forest, u, v));
    if connected(edges, u, v) {
        lemma_connected_covered(edges, sorted, u, v);
        lemma_connected_covered(sorted, forest, u, v);
    }
}

/// A graph of at most one node has the tree without edges as its one spanning
/// tree.
proof fn lemma_trivial_tree(n: nat, edges: Seq<Edge>)
    requires
        n <= 1,
        edges_in_bounds(n, edges),
    ensures
        is_minimum_spanning_tree(n, edges, Seq::empty()),
        bypasses_all(Seq::empty(), edges),
{
    let none = Seq::<Edge>::empty();
    assert forall|k: int| 0 <= k < edges.len() implies bypasses(none, #[trigger] edges[k]) by {
        assert(none.take(0) =~= none);
        lemma_connected_refl(none, edges[k].source as int);
    }
    assert forall|u: int, v: int| 0 <= u < n && 0 <= v < n implies connected(none, u, v) by {
        lemma_connected_refl(none, u);
    }
    assert forall|other: Seq<Edge>| #[trigger]
        is_spanning_tree(n, edges, other) implies total_weight(none) <= total_weight(other) by {
        lemma_subset_in_bounds(n, edges, other);
        lemma_tree_size(n, other);
    }
}

/// Computes a minimum spanning tree of `graph` by Kruskal's algorithm: the
/// edges are sorted by weight, and each in turn is taken unless its two ends
/// are connected already, until the tree is complete.
///
/// A graph of no node or of one node has the empty tree, whatever its edges.
/// A larger graph has a tree where its edges are in bounds and connect all its
/// nodes; an edge out of bounds is reported first, wherever it stands. The
/// edges of the tree come in the order in which they were taken, lightest
/// first. Among edges of equal weight the choice is open: any minimum spanning
/// tree may come out. The tree bypasses every edge of the graph, which makes
/// it a lightest one under any scale that keeps the order of the weights. The
/// graph itself is only read.
pub fn compute(graph: &Graph) -> (result: Result<Vec<Edge>, MstError>)
    ensures
        result is Ok <==> graph.node_count() <= 1 || (graph.in_bounds() && spans(
            graph.node_count(),
            graph.edge_seq(),
        )),
        result == Err::<Vec<Edge>, MstError>(MstError::InvalidIndex) <==> graph.node_count() >= 2
            && !graph.in_bounds(),
        result == Err::<Vec<Edge>, MstError>(MstError::DisconnectedGraph) <==> graph.node_count()
            >= 2 && graph.in_bounds() && !spans(graph.node_count(), graph.edge_seq()),
        result matches Ok(tree) ==> {
            &&& tree@.len() == if graph.node_count() == 0 {
                0
            } else {
                graph.node_count() - 1
            }
            &&& ascending(tree@)
            &&& graph.in_bounds() ==> is_minimum_spanning_tree(
                graph.node_count(),
                graph.edge_seq(),
                tree@,
            ) && bypasses_all(tree@, graph.edge_seq())
        },
{
    let n: usize = graph.nodes().len();
    let mut tree: Vec<Edge> = Vec::new();
    if n <= 1 {
        proof {
            if graph.in_bounds() {
                lemma_trivial_tree(n as nat, graph.edge_seq());
            }
        }
        return Ok(tree);
    }
    if !graph.check_bounds() {
        return Err(MstError::InvalidIndex);
    }
    let mut sorted = graph.edges().clone();
    assert(sorted@ =~= graph.edge_seq());
    sort_by_weight(&mut sorted);
    let mut sets = make(n);
    proof {
        lemma_kruskal_start(n as nat, sorted@);
        lemma_same_edges_cover(sorted@, graph.edge_seq());
    }
    let mut i: usize = 0;
    while tree.len() < n - 1
        invariant
            2 <= n == graph.node_count(),
            graph.in_bounds(),
            sorted@.to_multiset() == graph.edge_seq().to_multiset(),
            edges_in_bounds(n as nat, sorted@),
            ascending(sorted@),
            tree@.len() <= n - 1,
            kruskal_state(n as nat, sorted@, i as int, sets@, tree@),
        decreases sorted@.len() - i,
    {
        if i >= sorted.len() {
            proof {
                lemma_kruskal_exhausted(n as nat, graph.edge_seq(), sorted@, sets@, tree@);
            }
            return Err(MstError::DisconnectedGraph);
        }
        let next = sorted[i];
        let x: usize = match find(&sets, next.source) {
            Ok(root) => root,
            Err(e) => {
                return Err(e);
            },
        };
        let y: usize = match find(&sets, next.target) {
            Ok(root) => root,
            Err(e) => {
                return Err(e);
            },
        };
        if x != y {
            proof {
                lemma_kruskal_take(n as nat, sorted@, i as int, sets@, tree@);
                lemma_root_of(sets@, next.source as int);
                lemma_root_of(sets@, next.target as int);
            }
            tree.push(next);
            match union(&mut sets, x, y) {
                Ok(_) => {},
                Err(e) => {
                    return Err(e);
                },
            }
        } else {
            proof {
                lemma_kruskal_leave(n as nat, sorted@, i as int, sets@, tree@);
            }
        }
        i += 1;
    }
    proof {
        lemma_kruskal_complete(n as nat, graph.edge_seq(), sorted@, i as int, sets@, tree@);
    }
    Ok(tree)
}

} // verus!
