//! Which nodes a set of edges connects.
//!
//! Two nodes are connected by a sequence of edges where a walk leads from one
//! to the other, each step along one of the edges, in either direction. The
//! lemmas here are the algebra of that relation: it is an equivalence, it
//! grows with the edges, and one more edge merges two of its classes.

use crate::graph::Edge;
use vstd::prelude::*;

verus! {

/// Some edge of `es` runs between `a` and `b`.
pub open spec fn adjacent(es: Seq<Edge>, a: int, b: int) -> bool {
    exists|k: int| 0 <= k < es.len() && (#[trigger] es[k]).joins(a, b)
}

/// `p` is a walk along edges of `es`: a node, and then any number of steps,
/// each from a node to an adjacent one.
pub open spec fn is_walk(es: Seq<Edge>, p: Seq<int>) -> bool {
    p.len() > 0 && forall|k: int| 0 <= k < p.len() - 1 ==> adjacent(es, #[trigger] p[k], p[k + 1])
}

/// A walk along edges of `es` leads from `u` to `v`.
#[verifier::opaque]
pub open spec fn connected(es: Seq<Edge>, u: int, v: int) -> bool {
    exists|p: Seq<int>| #[trigger] is_walk(es, p) && p[0] == u && p.last() == v
}

/// Every edge of `es` runs between two nodes that `fs` connects.
pub open spec fn covered_by(es: Seq<Edge>, fs: Seq<Edge>) -> bool {
    forall|k: int|
        0 <= k < es.len() ==> connected(fs, (#[trigger] es[k]).source as int, es[k].target as int)
}

/// A walk connects the node it starts at with the node it ends at.
pub proof fn lemma_walk_connects(es: Seq<Edge>, p: Seq<int>)
    requires
        is_walk(es, p),
    ensures
        connected(es, p[0], p.last()),
{
    reveal(connected);
}

/// Every node is connected to itself.
pub proof fn lemma_connected_refl(es: Seq<Edge>, u: int)
    ensures
        connected(es, u, u),
{
    lemma_walk_connects(es, seq![u]);
}

/// A walk can be taken one step further.
pub proof fn lemma_connected_step(es: Seq<Edge>, u: int, a: int, b: int)
    requires
        connected(es, u, a),
        adjacent(es, a, b),
    ensures
        connected(es, u, b),
{
    let p = lemma_connected_walk(es, u, a);
    let q = p.push(b);
    assert forall|k: int| 0 <= k < q.len() - 1 implies adjacent(es, #[trigger] q[k], q[k + 1]) by {
        if k < p.len() - 1 {
            assert(q[k] == p[k] && q[k + 1] == p[k + 1]);
        }
    }
    lemma_walk_connects(es, q);
}

/// The two ends of an edge are connected.
pub proof fn lemma_connected_edge(es: Seq<Edge>, k: int)
    requires
        0 <= k < es.len(),
    ensures
        connected(es, es[k].source as int, es[k].target as int),
        connected(es, es[k].target as int, es[k].source as int),
{
    let a: int = es[k].source as int;
    let b: int = es[k].target as int;
    assert(es[k].joins(a, b) && es[k].joins(b, a));
    lemma_connected_refl(es, a);
    lemma_connected_refl(es, b);
    lemma_connected_step(es, a, a, b);
    lemma_connected_step(es, b, b, a);
}

/// What holds of the first node of a walk, and of every node adjacent to one
/// of which it holds, holds of the last.
proof fn lemma_walk_induction(es: Seq<Edge>, p: Seq<int>, holds: spec_fn(int) -> bool)
    requires
        is_walk(es, p),
        holds(p[0]),
        forall|a: int, b: int| holds(a) && #[trigger] adjacent(es, a, b) ==> holds(b),
    ensures
        holds(p.last()),
    decreases p.len(),
{
    if p.len() > 1 {
        let q = p.drop_last();
        assert forall|k: int| 0 <= k < q.len() - 1 implies adjacent(
            es,
            #[trigger] q[k],
            q[k + 1],
        ) by {
            assert(q[k] == p[k] && q[k + 1] == p[k + 1]);
        }
        lemma_walk_induction(es, q, holds);
        let k: int = p.len() - 2;
        assert(adjacent(es, p[k], p[k + 1]));
    }
}

/// What holds of `u`, and of every node adjacent to one of which it holds,
/// holds of every node connected to `u`.
pub proof fn lemma_connected_induction(
    es: Seq<Edge>,
    u: int,
    v: int,
    holds: spec_fn(int) -> bool,
)
    requires
        connected(es, u, v),
        holds(u),
        forall|a: int, b: int| holds(a) && #[trigger] adjacent(es, a, b) ==> holds(b),
    ensures
        holds(v),
{
    let p = lemma_connected_walk(es, u, v);
    lemma_walk_induction(es, p, holds);
}

/// A walk between two connected nodes.
pub proof fn lemma_connected_walk(es: Seq<Edge>, u: int, v: int) -> (p: Seq<int>)
    requires
        connected(es, u, v),
    ensures
        is_walk(es, p),
        p[0] == u,
        p.last() == v,
{
    reveal(connected);
    choose|p: Seq<int>| #[trigger] is_walk(es, p) && p[0] == u && p.last() == v
}

/// Connection is symmetric.
pub proof fn lemma_connected_sym(es: Seq<Edge>, u: int, v: int)
    requires
        connected(es, u, v),
    ensures
        connected(es, v, u),
{
    let holds = |z: int| connected(es, z, u);
    lemma_connected_refl(es, u);
    assert forall|a: int, b: int| holds(a) && #[trigger] adjacent(es, a, b) implies holds(b) by {
        let k: int = choose|k: int| 0 <= k < es.len() && (#[trigger] es[k]).joins(a, b);
        assert(es[k].joins(b, a));
        lemma_connected_refl(es, b);
        lemma_connected_step(es, b, b, a);
        lemma_connected_trans(es, b, a, u);
    }
    lemma_connected_induction(es, u, v, holds);
}

/// Connection is transitive.
pub proof fn lemma_connected_trans(es: Seq<Edge>, u: int, v: int, w: int)
    requires
        connected(es, u, v),
        connected(es, v, w),
    ensures
        connected(es, u, w),
{
    let holds = |z: int| connected(es, u, z);
    assert forall|a: int, b: int| holds(a) && #[trigger] adjacent(es, a, b) implies holds(b) by {
        lemma_connected_step(es, u, a, b);
    }
    lemma_connected_induction(es, v, w, holds);
}

/// Nodes that `es` connects are connected by any `fs` that covers `es`.
pub proof fn lemma_connected_covered(es: Seq<Edge>, fs: Seq<Edge>, u: int, v: int)
    requires
        covered_by(es, fs),
        connected(es, u, v),
    ensures
        connected(fs, u, v),
{
    let holds = |z: int| connected(fs, u, z);
    lemma_connected_refl(fs, u);
    assert forall|a: int, b: int| holds(a) && #[trigger] adjacent(es, a, b) implies holds(b) by {
        let k: int = choose|k: int| 0 <= k < es.len() && (#[trigger] es[k]).joins(a, b);
        let s: int = es[k].source as int;
        let t: int = es[k].target as int;
        assert(connected(fs, s, t));
        if a == s && b == t {
            lemma_connected_trans(fs, u, a, b);
        } else {
            lemma_connected_sym(fs, s, t);
            lemma_connected_trans(fs, u, a, b);
        }
    }
    lemma_connected_induction(es, u, v, holds);
}

/// A sequence of edges covers every sequence made of some of its edges.
pub proof fn lemma_covered_by_contains(es: Seq<Edge>, fs: Seq<Edge>)
    requires
        forall|k: int| 0 <= k < es.len() ==> fs.contains(#[trigger] es[k]),
    ensures
        covered_by(es, fs),
{
    assert forall|k: int| 0 <= k < es.len() implies connected(
        fs,
        (#[trigger] es[k]).source as int,
        es[k].target as int,
    ) by {
        assert(fs.contains(es[k]));
        let j: int = choose|j: int| 0 <= j < fs.len() && fs[j] == es[k];
        lemma_connected_edge(fs, j);
    }
}

/// Without edges a node is connected to itself alone.
pub proof fn lemma_connected_empty(u: int, v: int)
    ensures
        connected(Seq::<Edge>::empty(), u, v) <==> u == v,
{
    let es = Seq::<Edge>::empty();
    lemma_connected_refl(es, u);
    if connected(es, u, v) {
        let holds = |z: int| z == u;
        lemma_connected_induction(es, u, v, holds);
    }
}

/// What `es` connects, `es` with one more edge connects too, and that edge
/// connects its two ends.
pub proof fn lemma_connected_push_grows(es: Seq<Edge>, e: Edge, u: int, v: int)
    requires
        connected(es, u, v),
    ensures
        connected(es.push(e), u, v),
        connected(es.push(e), e.source as int, e.target as int),
        connected(es.push(e), e.target as int, e.source as int),
{
    let fs = es.push(e);
    assert forall|k: int| 0 <= k < es.len() implies fs.contains(#[trigger] es[k]) by {
        assert(fs[k] == es[k]);
    }
    lemma_covered_by_contains(es, fs);
    lemma_connected_covered(es, fs, u, v);
    assert(fs[es.len() as int] == e);
    lemma_connected_edge(fs, es.len() as int);
}

/// What one more edge `e` makes of the connection by `es`: two nodes are
/// connected as before, or each to one end of `e`.
pub open spec fn connected_with(es: Seq<Edge>, e: Edge, u: int, v: int) -> bool {
    ||| connected(es, u, v)
    ||| (connected(es, u, e.source as int) && connected(es, e.target as int, v))
    ||| (connected(es, u, e.target as int) && connected(es, e.source as int, v))
}

/// The relation `connected_with` is kept by every step along `es` or `e`.
proof fn lemma_connected_with_step(es: Seq<Edge>, e: Edge, u: int, a: int, b: int)
    requires
        connected_with(es, e, u, a),
        adjacent(es.push(e), a, b),
    ensures
        connected_with(es, e, u, b),
{
    let fs = es.push(e);
    let c: int = e.source as int;
    let d: int = e.target as int;
    let k: int = choose|k: int| 0 <= k < fs.len() && (#[trigger] fs[k]).joins(a, b);
    if k < es.len() {
        // A step along an edge of `es` lengthens whichever walk led to `a`.
        assert(es[k].joins(a, b));
        assert(adjacent(es, a, b));
        if connected(es, u, a) {
            lemma_connected_step(es, u, a, b);
        } else if connected(es, u, c) && connected(es, d, a) {
            lemma_connected_step(es, d, a, b);
        } else {
            lemma_connected_step(es, c, a, b);
        }
    } else {
        // A step along `e` itself ends at one of its two ends.
        assert(e.joins(a, b));
        lemma_connected_refl(es, c);
        lemma_connected_refl(es, d);
    }
}

/// One more edge connects what was connected before, and what was connected
/// to its two ends.
pub proof fn lemma_connected_push(es: Seq<Edge>, e: Edge, u: int, v: int)
    ensures
        connected(es.push(e), u, v) <==> connected_with(es, e, u, v),
{
    let fs = es.push(e);
    let c: int = e.source as int;
    let d: int = e.target as int;
    if connected(es, u, v) {
        lemma_connected_push_grows(es, e, u, v);
    }
    if connected(es, u, c) && connected(es, d, v) {
        lemma_connected_push_grows(es, e, u, c);
        lemma_connected_push_grows(es, e, d, v);
        lemma_connected_trans(fs, u, c, d);
        lemma_connected_trans(fs, u, d, v);
    }
    if connected(es, u, d) && connected(es, c, v) {
        lemma_connected_push_grows(es, e, u, d);
        lemma_connected_push_grows(es, e, c, v);
        lemma_connected_trans(fs, u, d, c);
        lemma_connected_trans(fs, u, c, v);
    }
    if connected(fs, u, v) {
        let holds = |z: int| connected_with(es, e, u, z);
        lemma_connected_refl(es, u);
        assert forall|a: int, b: int| holds(a) && #[trigger] adjacent(fs, a, b) implies holds(
            b,
        ) by {
            lemma_connected_with_step(es, e, u, a, b);
        }
        lemma_connected_induction(fs, u, v, holds);
    }
}

} // verus!
