//! Spanning trees, their weight, and why the greedy choice is a lightest one.

use crate::connectivity::{
    adjacent, connected, is_walk, lemma_connected_covered, lemma_connected_edge,
    lemma_connected_empty, lemma_connected_push, lemma_connected_refl, lemma_connected_step,
    lemma_connected_sym, lemma_connected_trans, lemma_connected_walk, lemma_covered_by_contains,
};
use crate::disjoint_set::{
    is_forest, lemma_merged, lemma_merged_same_set, lemma_root_count_one, lemma_singletons,
    merged, root_count, same_set, singletons, Subset,
};
use crate::graph::{edges_in_bounds, Edge};
use vstd::prelude::*;

verus! {

/// The edges `es` connect every two of the nodes `0..n`.
pub open spec fn spans(n: nat, es: Seq<Edge>) -> bool {
    forall|u: int, v: int| 0 <= u < n && 0 <= v < n ==> connected(es, u, v)
}

/// No edge of `es` closes a cycle: without it, the others leave its two ends
/// apart.
pub open spec fn acyclic(es: Seq<Edge>) -> bool {
    forall|j: int|
        0 <= j < es.len() ==> !connected(
            es.remove(j),
            (#[trigger] es[j]).source as int,
            es[j].target as int,
        )
}

/// `tree` is a spanning tree of the graph with nodes `0..n` and the edges
/// `edges`: it is made of edges of the graph, connects every two nodes, and
/// has no cycle.
pub open spec fn is_spanning_tree(n: nat, edges: Seq<Edge>, tree: Seq<Edge>) -> bool {
    &&& forall|j: int| 0 <= j < tree.len() ==> edges.contains(#[trigger] tree[j])
    &&& spans(n, tree)
    &&& acyclic(tree)
}

/// The sum of the weights of `es`.
pub open spec fn total_weight(es: Seq<Edge>) -> int
    decreases es.len(),
{
    if es.len() == 0 {
        0
    } else {
        total_weight(es.drop_last()) + es.last().weight
    }
}

/// The sum of what `scale` makes of the weights of `es`.
pub open spec fn scaled_weight(es: Seq<Edge>, scale: spec_fn(i64) -> int) -> int
    decreases es.len(),
{
    if es.len() == 0 {
        0
    } else {
        scaled_weight(es.drop_last(), scale) + scale(es.last().weight)
    }
}

/// `scale` keeps the order of the weights: of two weights, it never makes
/// more of the lighter one.
pub open spec fn is_monotone(scale: spec_fn(i64) -> int) -> bool {
    forall|a: i64, b: i64| #![trigger scale(a), scale(b)] a <= b ==> scale(a) <= scale(b)
}

/// `tree` is a spanning tree, and no spanning tree of the graph weighs less.
pub open spec fn is_minimum_spanning_tree(n: nat, edges: Seq<Edge>, tree: Seq<Edge>) -> bool {
    &&& is_spanning_tree(n, edges, tree)
    &&& forall|other: Seq<Edge>| #[trigger]
        is_spanning_tree(n, edges, other) ==> total_weight(tree) <= total_weight(other)
}

/// The weights of `es` never fall from one edge to the next.
pub open spec fn ascending(es: Seq<Edge>) -> bool {
    forall|i: int, j: int| 0 <= i <= j < es.len() ==> es[i].weight <= es[j].weight
}

/// Each edge of `es` joins two nodes that the edges before it leave apart.
pub open spec fn is_greedy_forest(es: Seq<Edge>) -> bool {
    forall|j: int|
        0 <= j < es.len() ==> !connected(
            es.take(j),
            (#[trigger] es[j]).source as int,
            es[j].target as int,
        )
}

/// The two ends of `e` are connected by the first few edges of `tree`, none
/// of them heavier than `e`.
pub open spec fn bypasses(tree: Seq<Edge>, e: Edge) -> bool {
    exists|m: int|
        0 <= m <= tree.len() && connected(#[trigger] tree.take(m), e.source as int, e.target as int)
            && forall|j: int| 0 <= j < m ==> tree[j].weight <= e.weight
}

/// `tree` bypasses every edge of `edges`.
pub open spec fn bypasses_all(tree: Seq<Edge>, edges: Seq<Edge>) -> bool {
    forall|k: int| 0 <= k < edges.len() ==> bypasses(tree, #[trigger] edges[k])
}

/// How many of the first edges of `tree` bypass `e`.
pub proof fn lemma_bypass_prefix(tree: Seq<Edge>, e: Edge) -> (m: int)
    requires
        bypasses(tree, e),
    ensures
        0 <= m <= tree.len(),
        connected(tree.take(m), e.source as int, e.target as int),
        forall|j: int| 0 <= j < m ==> tree[j].weight <= e.weight,
{
    choose|m: int|
        0 <= m <= tree.len() && connected(#[trigger] tree.take(m), e.source as int, e.target as int)
            && forall|j: int| 0 <= j < m ==> tree[j].weight <= e.weight
}

/// An edge connects `a` and `b` in whichever direction it joins them.
proof fn lemma_joins_connected(es: Seq<Edge>, e: Edge, a: int, b: int)
    requires
        e.joins(a, b),
        connected(es, e.source as int, e.target as int),
    ensures
        connected(es, a, b),
        connected(es, b, a),
{
    lemma_connected_sym(es, e.source as int, e.target as int);
}

/// Where the edges of `es` never close a cycle in the order given, no edge of
/// `es` closes a cycle with all the others.
pub proof fn lemma_greedy_forest_acyclic(es: Seq<Edge>)
    requires
        is_greedy_forest(es),
    ensures
        acyclic(es),
    decreases es.len(),
{
    if es.len() > 0 {
        let pre = es.drop_last();
        let last = es.last();
        let top: int = es.len() - 1;
        let c: int = last.source as int;
        let d: int = last.target as int;
        assert(es.take(top) =~= pre);
        assert(!connected(pre, c, d));
        assert forall|j: int| 0 <= j < pre.len() implies !connected(
            pre.take(j),
            (#[trigger] pre[j]).source as int,
            pre[j].target as int,
        ) by {
            assert(pre.take(j) =~= es.take(j));
            assert(pre[j] == es[j]);
        }
        lemma_greedy_forest_acyclic(pre);
        assert forall|j: int| 0 <= j < es.len() implies !connected(
            es.remove(j),
            (#[trigger] es[j]).source as int,
            es[j].target as int,
        ) by {
            let x: int = es[j].source as int;
            let y: int = es[j].target as int;
            if j == top {
                assert(es.remove(j) =~= pre);
            } else {
                let rest = pre.remove(j);
                assert(es.remove(j) =~= rest.push(last));
                assert(pre[j] == es[j]);
                assert(!connected(rest, x, y));
                lemma_connected_push(rest, last, x, y);
                if connected(es.remove(j), x, y) {
                    // The walk from `x` to `y` runs over `last`, so `pre` would
                    // connect the two ends of `last`.
                    assert forall|k: int| 0 <= k < rest.len() implies pre.contains(
                        #[trigger] rest[k],
                    ) by {
                        if k < j {
                            assert(rest[k] == pre[k]);
                        } else {
                            assert(rest[k] == pre[k + 1]);
                        }
                    }
                    lemma_covered_by_contains(rest, pre);
                    lemma_connected_edge(pre, j);
                    if connected(rest, x, c) && connected(rest, d, y) {
                        lemma_connected_covered(rest, pre, x, c);
                        lemma_connected_covered(rest, pre, d, y);
                        lemma_connected_sym(pre, x, c);
                        lemma_connected_sym(pre, d, y);
                        lemma_connected_trans(pre, c, x, y);
                        lemma_connected_trans(pre, c, y, d);
                    } else {
                        lemma_connected_covered(rest, pre, x, d);
                        lemma_connected_covered(rest, pre, c, y);
                        lemma_connected_sym(pre, x, d);
                        lemma_connected_trans(pre, c, y, x);
                        lemma_connected_trans(pre, c, x, d);
                    }
                    assert(false);
                }
            }
        }
    }
}

/// Where no edge of `es` closes a cycle with all the others, none closes one
/// with the edges before it.
pub proof fn lemma_acyclic_greedy_forest(es: Seq<Edge>)
    requires
        acyclic(es),
    ensures
        is_greedy_forest(es),
{
    assert forall|j: int| 0 <= j < es.len() implies !connected(
        es.take(j),
        (#[trigger] es[j]).source as int,
        es[j].target as int,
    ) by {
        let pre = es.take(j);
        let rest = es.remove(j);
        assert forall|k: int| 0 <= k < pre.len() implies rest.contains(#[trigger] pre[k]) by {
            assert(rest[k] == pre[k]);
        }
        lemma_covered_by_contains(pre, rest);
        if connected(pre, es[j].source as int, es[j].target as int) {
            lemma_connected_covered(pre, rest, es[j].source as int, es[j].target as int);
        }
    }
}

/// A forest of sets that holds two nodes in one set exactly where the greedy
/// forest `es` connects them; each edge has merged two sets.
pub proof fn lemma_forest_sets(n: nat, es: Seq<Edge>) -> (s: Seq<Subset>)
    requires
        n <= usize::MAX,
        edges_in_bounds(n, es),
        is_greedy_forest(es),
    ensures
        is_forest(s),
        s.len() == n,
        root_count(s) == n - es.len(),
        forall|u: int, v: int|
            0 <= u < n && 0 <= v < n ==> (same_set(s, u, v) <==> connected(es, u, v)),
    decreases es.len(),
{
    if es.len() == 0 {
        let s = singletons(n);
        lemma_singletons(n);
        assert(es =~= Seq::<Edge>::empty());
        assert forall|u: int, v: int| 0 <= u < n && 0 <= v < n implies (same_set(s, u, v)
            <==> connected(es, u, v)) by {
            lemma_connected_empty(u, v);
        }
        s
    } else {
        let pre = es.drop_last();
        let last = es.last();
        let c: int = last.source as int;
        let d: int = last.target as int;
        assert(es.take(es.len() - 1) =~= pre);
        assert forall|j: int| 0 <= j < pre.len() implies !connected(
            pre.take(j),
            (#[trigger] pre[j]).source as int,
            pre[j].target as int,
        ) by {
            assert(pre.take(j) =~= es.take(j));
            assert(pre[j] == es[j]);
        }
        assert forall|k: int| 0 <= k < pre.len() implies (#[trigger] pre[k]).source < n
            && pre[k].target < n by {
            assert(pre[k] == es[k]);
        }
        let t = lemma_forest_sets(n, pre);
        let s = merged(t, c, d);
        lemma_merged(t, c, d);
        lemma_merged_same_set(t, c, d);
        assert(es =~= pre.push(last));
        assert forall|u: int, v: int| 0 <= u < n && 0 <= v < n implies (same_set(s, u, v)
            <==> connected(es, u, v)) by {
            lemma_connected_push(pre, last, u, v);
        }
        s
    }
}

/// A tree on the nodes `0..n` has `n - 1` edges.
pub proof fn lemma_tree_size(n: nat, tree: Seq<Edge>)
    requires
        n <= usize::MAX,
        edges_in_bounds(n, tree),
        spans(n, tree),
        acyclic(tree),
    ensures
        tree.len() == if n == 0 {
            0
        } else {
            n - 1
        },
{
    lemma_acyclic_greedy_forest(tree);
    let s = lemma_forest_sets(n, tree);
    if n == 0 {
        if tree.len() > 0 {
            assert(tree[0].source < n);
        }
    } else {
        lemma_root_count_one(s);
    }
}

/// Replacing one edge changes the sum by the difference of the two.
pub proof fn lemma_scaled_weight_update(
    es: Seq<Edge>,
    i: int,
    e: Edge,
    scale: spec_fn(i64) -> int,
)
    requires
        0 <= i < es.len(),
    ensures
        scaled_weight(es.update(i, e), scale) == scaled_weight(es, scale) - scale(es[i].weight)
            + scale(e.weight),
    decreases es.len(),
{
    let fs = es.update(i, e);
    if i == es.len() - 1 {
        assert(fs.drop_last() =~= es.drop_last());
    } else {
        assert(fs.drop_last() =~= es.drop_last().update(i, e));
        lemma_scaled_weight_update(es.drop_last(), i, e, scale);
    }
}

/// The total weight is the sum under the scale that takes each weight as it
/// is.
pub proof fn lemma_total_weight_scaled(es: Seq<Edge>)
    ensures
        total_weight(es) == scaled_weight(es, |w: i64| w as int),
    decreases es.len(),
{
    if es.len() > 0 {
        lemma_total_weight_scaled(es.drop_last());
    }
}

/// On a walk that starts inside a region and ends outside of it, the last
/// step that leaves the region: it goes from `a` to `b`, and from `b` on the
/// walk `q` stays outside.
proof fn lemma_last_crossing(es: Seq<Edge>, p: Seq<int>, inside: spec_fn(int) -> bool) -> (r: (
    int,
    int,
    Seq<int>,
))
    requires
        is_walk(es, p),
        inside(p[0]),
        !inside(p.last()),
    ensures
        inside(r.0),
        !inside(r.1),
        adjacent(es, r.0, r.1),
        is_walk(es, r.2),
        r.2[0] == r.1,
        r.2.last() == p.last(),
        forall|i: int| 0 <= i < r.2.len() ==> !inside(#[trigger] r.2[i]),
    decreases p.len(),
{
    let top: int = p.len() - 1;
    assert(adjacent(es, p[top - 1], p[top - 1 + 1]));
    if inside(p[top - 1]) {
        let q = seq![p[top]];
        assert(is_walk(es, q));
        (p[top - 1], p[top], q)
    } else {
        let shorter = p.drop_last();
        assert forall|k: int| 0 <= k < shorter.len() - 1 implies adjacent(
            es,
            #[trigger] shorter[k],
            shorter[k + 1],
        ) by {
            assert(shorter[k] == p[k] && shorter[k + 1] == p[k + 1]);
        }
        let (a, b, q0) = lemma_last_crossing(es, shorter, inside);
        let q = q0.push(p[top]);
        assert forall|k: int| 0 <= k < q.len() - 1 implies adjacent(
            es,
            #[trigger] q[k],
            q[k + 1],
        ) by {
            if k < q0.len() - 1 {
                assert(q[k] == q0[k] && q[k + 1] == q0[k + 1]);
            }
        }
        (a, b, q)
    }
}

/// A walk along `es` that stays outside a region is matched by a walk along
/// `fs`, where `fs` has every step that `es` has outside the region.
proof fn lemma_walk_outside(es: Seq<Edge>, fs: Seq<Edge>, q: Seq<int>, inside: spec_fn(int) -> bool)
    requires
        is_walk(es, q),
        forall|i: int| 0 <= i < q.len() ==> !inside(#[trigger] q[i]),
        forall|a: int, b: int|
            !inside(a) && !inside(b) && #[trigger] adjacent(es, a, b) ==> adjacent(fs, a, b),
    ensures
        connected(fs, q[0], q.last()),
    decreases q.len(),
{
    if q.len() == 1 {
        lemma_connected_refl(fs, q[0]);
    } else {
        let shorter = q.drop_last();
        assert forall|k: int| 0 <= k < shorter.len() - 1 implies adjacent(
            es,
            #[trigger] shorter[k],
            shorter[k + 1],
        ) by {
            assert(shorter[k] == q[k] && shorter[k + 1] == q[k + 1]);
        }
        assert forall|i: int| 0 <= i < shorter.len() implies !inside(#[trigger] shorter[i]) by {
            assert(shorter[i] == q[i]);
        }
        lemma_walk_outside(es, fs, shorter, inside);
        let top: int = q.len() - 1;
        assert(adjacent(es, q[top - 1], q[top - 1 + 1]));
        assert(!inside(q[top - 1]) && !inside(q[top]));
        lemma_connected_step(fs, q[0], q[top - 1], q[top]);
    }
}

/// What the exchange argument keeps while it turns a spanning set of edges
/// into `tree`, one position at a time: `cur` agrees with `tree` on the first
/// `j` positions, still spans, and `tree` bypasses the edges it has not yet
/// replaced.
spec fn exchange_state(n: nat, tree: Seq<Edge>, cur: Seq<Edge>, j: int) -> bool {
    &&& cur.len() == tree.len()
    &&& 0 <= j <= tree.len()
    &&& forall|i: int| 0 <= i < j ==> #[trigger] cur[i] == tree[i]
    &&& forall|i: int| j <= i < cur.len() ==> bypasses(tree, #[trigger] cur[i])
    &&& spans(n, cur)
}

/// One exchange: the edge `tree[j]` takes the place of an edge of `cur` that is
/// no lighter, and the result still spans.
proof fn lemma_exchange_step(
    n: nat,
    tree: Seq<Edge>,
    cur: Seq<Edge>,
    j: int,
    scale: spec_fn(i64) -> int,
) -> (next: Seq<Edge>)
    requires
        edges_in_bounds(n, tree),
        is_greedy_forest(tree),
        exchange_state(n, tree, cur, j),
        j < tree.len(),
        is_monotone(scale),
    ensures
        exchange_state(n, tree, next, j + 1),
        scaled_weight(next, scale) <= scaled_weight(cur, scale),
{
    let e = tree[j];
    let x: int = e.source as int;
    let y: int = e.target as int;
    let pre = tree.take(j);
    let inside = |z: int| connected(pre, x, z);
    lemma_connected_refl(pre, x);
    assert(!connected(pre, x, y));
    assert(connected(cur, x, y));
    let p = lemma_connected_walk(cur, x, y);
    let (a, b, q) = lemma_last_crossing(cur, p, inside);
    let k: int = choose|k: int| 0 <= k < cur.len() && (#[trigger] cur[k]).joins(a, b);
    // The crossing edge is none of the first `j`, which lie inside.
    if k < j {
        assert(pre[k] == cur[k]);
        assert(adjacent(pre, a, b));
        lemma_connected_step(pre, x, a, b);
        assert(false);
    }
    // It is no lighter than `tree[j]`.
    let m: int = lemma_bypass_prefix(tree, cur[k]);
    if m <= j {
        let few = tree.take(m);
        assert forall|i: int| 0 <= i < few.len() implies pre.contains(#[trigger] few[i]) by {
            assert(pre[i] == few[i]);
        }
        lemma_covered_by_contains(few, pre);
        lemma_connected_covered(few, pre, cur[k].source as int, cur[k].target as int);
        lemma_joins_connected(pre, cur[k], a, b);
        lemma_connected_trans(pre, x, a, b);
        assert(false);
    }
    assert(tree[j].weight <= cur[k].weight);
    assert(scale(tree[j].weight) <= scale(cur[k].weight));
    let moved = cur.update(k, cur[j]);
    let next = moved.update(j, e);
    lemma_scaled_weight_update(cur, k, cur[j], scale);
    lemma_scaled_weight_update(moved, j, e, scale);
    // `next` connects the two ends of every edge of `cur`.
    assert forall|i: int| 0 <= i < pre.len() implies next.contains(#[trigger] pre[i]) by {
        assert(next[i] == pre[i]);
    }
    lemma_covered_by_contains(pre, next);
    lemma_connected_covered(pre, next, x, a);
    lemma_connected_sym(next, x, a);
    lemma_connected_edge(next, j);
    assert forall|c: int, d: int|
        !inside(c) && !inside(d) && #[trigger] adjacent(cur, c, d) implies adjacent(next, c, d) by {
        let i: int = choose|i: int| 0 <= i < cur.len() && (#[trigger] cur[i]).joins(c, d);
        if i == k {
            assert(false);
        } else if i == j {
            assert(next[k].joins(c, d));
        } else {
            assert(next[i].joins(c, d));
        }
    }
    lemma_walk_outside(cur, next, q, inside);
    lemma_connected_sym(next, b, y);
    lemma_connected_trans(next, a, x, y);
    lemma_connected_trans(next, a, y, b);
    assert forall|i: int| 0 <= i < cur.len() implies connected(
        next,
        (#[trigger] cur[i]).source as int,
        cur[i].target as int,
    ) by {
        if i == k {
            lemma_connected_sym(next, a, b);
        } else if i == j {
            assert(next[k] == cur[j]);
            lemma_connected_edge(next, k);
        } else {
            assert(next[i] == cur[i]);
            lemma_connected_edge(next, i);
        }
    }
    assert forall|u: int, v: int| 0 <= u < n && 0 <= v < n implies connected(next, u, v) by {
        lemma_connected_covered(cur, next, u, v);
    }
    assert forall|i: int| j + 1 <= i < next.len() implies bypasses(tree, #[trigger] next[i]) by {
        if i == k {
            assert(next[i] == cur[j]);
        } else {
            assert(next[i] == cur[i]);
        }
    }
    next
}

/// The exchange argument: from position `j` on, edge after edge of `cur` gives
/// way to the edge of `tree` at that position, and the weight never grows.
proof fn lemma_exchange(
    n: nat,
    tree: Seq<Edge>,
    cur: Seq<Edge>,
    j: int,
    scale: spec_fn(i64) -> int,
)
    requires
        edges_in_bounds(n, tree),
        is_greedy_forest(tree),
        exchange_state(n, tree, cur, j),
        is_monotone(scale),
    ensures
        scaled_weight(tree, scale) <= scaled_weight(cur, scale),
    decreases tree.len() - j,
{
    if j == tree.len() {
        assert(cur =~= tree);
    } else {
        let next = lemma_exchange_step(n, tree, cur, j, scale);
        lemma_exchange(n, tree, next, j + 1, scale);
    }
}

/// A spanning tree that bypasses every edge of the graph is a lightest one
/// however the weights are scaled, as long as the scale keeps their order: no
/// spanning tree of the graph has a smaller sum.
pub proof fn lemma_bypassing_tree_is_lightest(
    n: nat,
    edges: Seq<Edge>,
    tree: Seq<Edge>,
    other: Seq<Edge>,
    scale: spec_fn(i64) -> int,
)
    requires
        n <= usize::MAX,
        edges_in_bounds(n, edges),
        is_spanning_tree(n, edges, tree),
        bypasses_all(tree, edges),
        is_spanning_tree(n, edges, other),
        is_monotone(scale),
    ensures
        scaled_weight(tree, scale) <= scaled_weight(other, scale),
{
    lemma_subset_in_bounds(n, edges, tree);
    lemma_subset_in_bounds(n, edges, other);
    lemma_tree_size(n, tree);
    lemma_tree_size(n, other);
    lemma_acyclic_greedy_forest(tree);
    assert forall|i: int| 0 <= i < other.len() implies bypasses(tree, #[trigger] other[i]) by {
        assert(edges.contains(other[i]));
        let k: int = choose|k: int| 0 <= k < edges.len() && edges[k] == other[i];
        assert(bypasses(tree, edges[k]));
    }
    lemma_exchange(n, tree, other, 0, scale);
}

/// A spanning tree that bypasses every edge of the graph is a minimum
/// spanning tree.
pub proof fn lemma_bypassing_tree_is_minimum(n: nat, edges: Seq<Edge>, tree: Seq<Edge>)
    requires
        n <= usize::MAX,
        edges_in_bounds(n, edges),
        is_spanning_tree(n, edges, tree),
        bypasses_all(tree, edges),
    ensures
        is_minimum_spanning_tree(n, edges, tree),
{
    let plain = |w: i64| w as int;
    assert forall|other: Seq<Edge>| #[trigger]
        is_spanning_tree(n, edges, other) implies total_weight(tree) <= total_weight(other) by {
        lemma_bypassing_tree_is_lightest(n, edges, tree, other, plain);
        lemma_total_weight_scaled(tree);
        lemma_total_weight_scaled(other);
    }
}

/// Two minimum spanning trees of one graph may differ, as where weights are
/// equal, but they weigh the same.
pub proof fn lemma_minimum_weight_is_unique(
    n: nat,
    edges: Seq<Edge>,
    tree: Seq<Edge>,
    other: Seq<Edge>,
)
    requires
        is_minimum_spanning_tree(n, edges, tree),
        is_minimum_spanning_tree(n, edges, other),
    ensures
        total_weight(tree) == total_weight(other),
{
}

/// Edges taken from a graph whose edges are in bounds are in bounds.
pub proof fn lemma_subset_in_bounds(n: nat, edges: Seq<Edge>, es: Seq<Edge>)
    requires
        edges_in_bounds(n, edges),
        forall|j: int| 0 <= j < es.len() ==> edges.contains(#[trigger] es[j]),
    ensures
        edges_in_bounds(n, es),
{
    assert forall|j: int| 0 <= j < es.len() implies (#[trigger] es[j]).source < n
        && es[j].target < n by {
        assert(edges.contains(es[j]));
        let k: int = choose|k: int| 0 <= k < edges.len() && edges[k] == es[j];
        assert(edges[k].source < n);
    }
}

} // verus!
