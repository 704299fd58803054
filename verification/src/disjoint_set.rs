//! A disjoint-set forest over the elements `0..n`, merged by rank.
//!
//! Each element points to a parent; an element that points to itself is the
//! root of its set. `find` walks the parent links and leaves them be, and
//! `union` hangs the root of lower rank below the root of higher rank.

use crate::error::MstError;
use vstd::prelude::*;

verus! {

/// One element of the forest: its parent, and its rank.
#[derive(Debug, Clone, Copy)]
pub struct Subset {
    pub parent: usize,
    pub rank: usize,
}

/// The forest in which each of `0..n` is a set of its own.
pub open spec fn singletons(n: nat) -> Seq<Subset> {
    Seq::new(n, |i: int| Subset { parent: i as usize, rank: 0 })
}

/// Element `i` is the root of its set.
pub open spec fn is_root(s: Seq<Subset>, i: int) -> bool {
    0 <= i < s.len() && s[i].parent == i
}

/// The number of roots among the first `k` elements.
pub open spec fn roots_below(s: Seq<Subset>, k: int) -> int
    decreases k,
{
    if k <= 0 {
        0
    } else {
        roots_below(s, k - 1) + if is_root(s, k - 1) {
            1int
        } else {
            0int
        }
    }
}

/// The number of sets.
pub open spec fn root_count(s: Seq<Subset>) -> int {
    roots_below(s, s.len() as int)
}

/// Parents are elements, and the rank grows along every parent link.
pub open spec fn well_linked(s: Seq<Subset>) -> bool {
    forall|i: int|
        0 <= i < s.len() ==> {
            &&& (#[trigger] s[i]).parent < s.len()
            &&& s[i].parent != i ==> s[i].rank < s[s[i].parent as int].rank
        }
}

/// No rank exceeds the number of merges made so far, which is the number of
/// elements less the number of sets.
pub open spec fn ranks_bounded(s: Seq<Subset>) -> bool {
    forall|i: int| 0 <= i < s.len() ==> (#[trigger] s[i]).rank + root_count(s) <= s.len()
}

/// What every forest satisfies: it is well linked, its ranks are bounded by
/// the number of merges, and its elements can be counted in a `usize`.
pub open spec fn is_forest(s: Seq<Subset>) -> bool {
    &&& s.len() <= usize::MAX
    &&& well_linked(s)
    &&& ranks_bounded(s)
}

/// The root that the parent links lead to from `i`.
pub open spec fn root_of(s: Seq<Subset>, i: int) -> int
    decreases usize::MAX - s[i].rank,
{
    if 0 <= i < s.len() && s[i].parent != i && s[i].parent < s.len() && s[i].rank
        < s[s[i].parent as int].rank {
        root_of(s, s[i].parent as int)
    } else {
        i
    }
}

/// `u` and `v` are in one set.
pub open spec fn same_set(s: Seq<Subset>, u: int, v: int) -> bool {
    root_of(s, u) == root_of(s, v)
}

/// The forest after root `child` has been hung below root `parent`.
pub open spec fn linked(s: Seq<Subset>, child: int, parent: int) -> Seq<Subset> {
    s.update(child, Subset { parent: parent as usize, rank: s[child].rank })
}

/// The forest after the rank of root `r` has grown by one.
pub open spec fn promoted(s: Seq<Subset>, r: int) -> Seq<Subset> {
    s.update(r, Subset { parent: s[r].parent, rank: (s[r].rank + 1) as usize })
}

/// The forest after the sets of `x` and `y` have been merged: unchanged if
/// they were one set; else the root of lower rank hangs below the other, and
/// on equal ranks the root of `y` hangs below the root of `x`, whose rank
/// grows by one.
pub open spec fn merged(s: Seq<Subset>, x: int, y: int) -> Seq<Subset> {
    let rx: int = root_of(s, x);
    let ry: int = root_of(s, y);
    if rx == ry {
        s
    } else if s[rx].rank < s[ry].rank {
        linked(s, rx, ry)
    } else if s[rx].rank > s[ry].rank {
        linked(s, ry, rx)
    } else {
        linked(promoted(s, rx), ry, rx)
    }
}

/// The root that stands for the merged set of `x` and `y`.
pub open spec fn surviving_root(s: Seq<Subset>, x: int, y: int) -> int {
    if s[root_of(s, x)].rank < s[root_of(s, y)].rank {
        root_of(s, y)
    } else {
        root_of(s, x)
    }
}

/// The root that `merged` hangs below the surviving one.
pub open spec fn absorbed_root(s: Seq<Subset>, x: int, y: int) -> int {
    if s[root_of(s, x)].rank < s[root_of(s, y)].rank {
        root_of(s, x)
    } else {
        root_of(s, y)
    }
}

/// A disjoint-set forest. Every value of this type is a forest: it can only
/// be made by [`make`] and changed by [`union`].
#[derive(Debug)]
pub struct DisjointSet {
    subsets: Vec<Subset>,
}

impl View for DisjointSet {
    type V = Seq<Subset>;

    closed spec fn view(&self) -> Seq<Subset> {
        self.subsets@
    }
}

impl DisjointSet {
    /// Holds of every value of the type, at every point of every program.
    #[verifier::type_invariant]
    spec fn valid(self) -> bool {
        is_forest(self.subsets@)
    }

    /// The number of elements.
    pub fn len(&self) -> (n: usize)
        ensures
            n == self@.len(),
    {
        self.subsets.len()
    }

    /// The elements, each with its parent and rank.
    pub fn subsets(&self) -> (subsets: &Vec<Subset>)
        ensures
            subsets@ == self@,
            is_forest(self@),
    {
        proof {
            use_type_invariant(self);
        }
        &self.subsets
    }
}

/// Makes `n` sets of one element each: every element is its own root and has
/// rank 0.
pub fn make(n: usize) -> (sets: DisjointSet)
    ensures
        sets@ == singletons(n as nat),
        is_forest(sets@),
{
    let mut subsets: Vec<Subset> = Vec::new();
    for i in 0..n
        invariant
            subsets@ == singletons(i as nat),
    {
        subsets.push(Subset { parent: i, rank: 0 });
    }
    proof {
        lemma_singletons(n as nat);
    }
    DisjointSet { subsets }
}

/// The root of the set that holds `i`, found by following the parent links;
/// the links are left as they are. Fails where `i` is no element. That the
/// sets are a forest holds of every value of the type, and is restated for
/// the proofs of callers.
pub fn find(sets: &DisjointSet, i: usize) -> (result: Result<usize, MstError>)
    ensures
        is_forest(sets@),
        match result {
            Ok(root) => i < sets@.len() && root == root_of(sets@, i as int),
            Err(e) => i >= sets@.len() && e == MstError::InvalidIndex,
        },
{
    proof {
        use_type_invariant(sets);
    }
    if i >= sets.subsets.len() {
        return Err(MstError::InvalidIndex);
    }
    let mut cur: usize = i;
    while sets.subsets[cur].parent != cur
        invariant
            is_forest(sets.subsets@),
            cur < sets.subsets@.len(),
            root_of(sets.subsets@, cur as int) == root_of(sets.subsets@, i as int),
        decreases usize::MAX - sets.subsets@[cur as int].rank,
    {
        cur = sets.subsets[cur].parent;
    }
    Ok(cur)
}

/// Merges the set of `x` with the set of `y`. Where they are one set already
/// nothing changes. Else the root of lower rank is hung below the root of
/// higher rank; on equal ranks the root of `y` is hung below the root of `x`,
/// whose rank grows by one. Fails, and changes nothing, where `x` or `y` is no
/// element.
pub fn union(sets: &mut DisjointSet, x: usize, y: usize) -> (result: Result<(), MstError>)
    ensures
        is_forest(final(sets)@),
        match result {
            Ok(_) => {
                &&& x < old(sets)@.len() && y < old(sets)@.len()
                &&& final(sets)@ == merged(old(sets)@, x as int, y as int)
                &&& forall|u: int, v: int|
                    0 <= u < old(sets)@.len() && 0 <= v < old(sets)@.len() ==> (#[trigger] same_set(
                        final(sets)@,
                        u,
                        v,
                    ) <==> same_set(old(sets)@, u, v) || (same_set(old(sets)@, u, x as int)
                        && same_set(old(sets)@, y as int, v)) || (same_set(
                        old(sets)@,
                        u,
                        y as int,
                    ) && same_set(old(sets)@, x as int, v)))
            },
            Err(e) => (x >= old(sets)@.len() || y >= old(sets)@.len()) && e
                == MstError::InvalidIndex && final(sets)@ == old(sets)@,
        },
{
    proof {
        use_type_invariant(&*sets);
        if x < sets@.len() && y < sets@.len() {
            lemma_merged_same_set(sets@, x as int, y as int);
        }
    }
    let x_root: usize = match find(sets, x) {
        Ok(root) => root,
        Err(e) => {
            return Err(e);
        },
    };
    let y_root: usize = match find(sets, y) {
        Ok(root) => root,
        Err(e) => {
            return Err(e);
        },
    };
    if x_root == y_root {
        return Ok(());
    }
    proof {
        lemma_root_of(sets@, x as int);
        lemma_root_of(sets@, y as int);
        lemma_merged(sets@, x as int, y as int);
    }
    let x_rank: usize = sets.subsets[x_root].rank;
    let y_rank: usize = sets.subsets[y_root].rank;
    let mut subsets: Vec<Subset> = Vec::new();
    std::mem::swap(&mut subsets, &mut sets.subsets);
    if x_rank < y_rank {
        subsets.set(x_root, Subset { parent: y_root, rank: x_rank });
    } else if x_rank > y_rank {
        subsets.set(y_root, Subset { parent: x_root, rank: y_rank });
    } else {
        proof {
            let n: int = old(sets)@.len() as int;
            if x_root < y_root {
                lemma_two_roots_counted(old(sets)@, x_root as int, y_root as int, n);
            } else {
                lemma_two_roots_counted(old(sets)@, y_root as int, x_root as int, n);
            }
        }
        subsets.set(y_root, Subset { parent: x_root, rank: y_rank });
        subsets.set(x_root, Subset { parent: x_root, rank: x_rank + 1 });
    }
    assert(subsets@ =~= merged(old(sets)@, x as int, y as int));
    sets.subsets = subsets;
    Ok(())
}

/// Following the parent links from an element of a forest ends at a root.
pub proof fn lemma_root_of(s: Seq<Subset>, i: int)
    requires
        well_linked(s),
        0 <= i < s.len(),
    ensures
        is_root(s, root_of(s, i)),
        root_of(s, root_of(s, i)) == root_of(s, i),
        s[i].rank <= s[root_of(s, i)].rank,
        is_root(s, i) <==> root_of(s, i) == i,
    decreases usize::MAX - s[i].rank,
{
    if s[i].parent != i {
        lemma_root_of(s, s[i].parent as int);
    }
}

/// Among the first `k` elements there are between none and `k` roots.
proof fn lemma_roots_below_range(s: Seq<Subset>, k: int)
    requires
        0 <= k,
    ensures
        0 <= roots_below(s, k) <= k,
    decreases k,
{
    if k > 0 {
        lemma_roots_below_range(s, k - 1);
    }
}

/// A root below `k` is counted.
proof fn lemma_root_counted(s: Seq<Subset>, r: int, k: int)
    requires
        is_root(s, r),
        r < k,
    ensures
        roots_below(s, k) >= 1,
    decreases k,
{
    lemma_roots_below_range(s, k - 1);
    if r < k - 1 {
        lemma_root_counted(s, r, k - 1);
    }
}

/// Two roots below `k` are both counted.
proof fn lemma_two_roots_counted(s: Seq<Subset>, r1: int, r2: int, k: int)
    requires
        is_root(s, r1),
        is_root(s, r2),
        r1 < r2 < k,
    ensures
        roots_below(s, k) >= 2,
    decreases k,
{
    if r2 < k - 1 {
        lemma_two_roots_counted(s, r1, r2, k - 1);
    } else {
        lemma_root_counted(s, r1, k - 1);
    }
}

/// Where two or more roots are counted below `k`, two can be named.
proof fn lemma_name_two_roots(s: Seq<Subset>, k: int) -> (pair: (int, int))
    requires
        roots_below(s, k) >= 2,
    ensures
        is_root(s, pair.0),
        is_root(s, pair.1),
        pair.0 < pair.1 < k,
    decreases k,
{
    if k <= 0 {
        (0, 0)
    } else if roots_below(s, k - 1) >= 2 {
        lemma_name_two_roots(s, k - 1)
    } else {
        let r = lemma_name_root(s, k - 1);
        (r, k - 1)
    }
}

/// Where a root is counted below `k`, it can be named.
proof fn lemma_name_root(s: Seq<Subset>, k: int) -> (r: int)
    requires
        roots_below(s, k) >= 1,
    ensures
        is_root(s, r),
        r < k,
    decreases k,
{
    if k <= 0 {
        0
    } else if is_root(s, k - 1) {
        k - 1
    } else {
        lemma_name_root(s, k - 1)
    }
}

/// A forest with a single set holds any two of its elements in that set, and
/// a forest with more sets has two elements that are apart.
pub proof fn lemma_root_count_one(s: Seq<Subset>)
    requires
        is_forest(s),
        s.len() > 0,
    ensures
        root_count(s) >= 1,
        root_count(s) == 1 <==> (forall|u: int, v: int|
            0 <= u < s.len() && 0 <= v < s.len() ==> same_set(s, u, v)),
{
    let n: int = s.len() as int;
    lemma_root_of(s, 0);
    lemma_root_counted(s, root_of(s, 0), n);
    if root_count(s) == 1 {
        assert forall|u: int, v: int| 0 <= u < n && 0 <= v < n implies same_set(s, u, v) by {
            lemma_root_of(s, u);
            lemma_root_of(s, v);
            let ru: int = root_of(s, u);
            let rv: int = root_of(s, v);
            if ru < rv {
                lemma_two_roots_counted(s, ru, rv, n);
            } else if rv < ru {
                lemma_two_roots_counted(s, rv, ru, n);
            }
        }
    } else {
        let (r1, r2) = lemma_name_two_roots(s, n);
        lemma_root_of(s, r1);
        lemma_root_of(s, r2);
        assert(!same_set(s, r1, r2));
    }
}

/// In the forest of singletons every element is a root.
pub proof fn lemma_singletons(n: nat)
    requires
        n <= usize::MAX,
    ensures
        is_forest(singletons(n)),
        root_count(singletons(n)) == n,
        forall|i: int| 0 <= i < n ==> root_of(singletons(n), i) == i,
{
    lemma_singletons_roots(n, n as int);
}

proof fn lemma_singletons_roots(n: nat, k: int)
    requires
        n <= usize::MAX,
        0 <= k <= n,
    ensures
        roots_below(singletons(n), k) == k,
    decreases k,
{
    if k > 0 {
        lemma_singletons_roots(n, k - 1);
    }
}

/// Writing element `j` changes the count of roots by what it does to `j`.
proof fn lemma_roots_below_update(s: Seq<Subset>, j: int, v: Subset, k: int)
    requires
        0 <= j < s.len(),
        0 <= k <= s.len(),
    ensures
        roots_below(s.update(j, v), k) == roots_below(s, k) + if j < k {
            (if v.parent == j {
                1int
            } else {
                0int
            }) - (if is_root(s, j) {
                1int
            } else {
                0int
            })
        } else {
            0int
        },
    decreases k,
{
    if k > 0 {
        lemma_roots_below_update(s, j, v, k - 1);
    }
}

/// Raising the rank of a root leaves every set as it was.
proof fn lemma_promoted(s: Seq<Subset>, r: int)
    requires
        well_linked(s),
        is_root(s, r),
        s[r].rank < usize::MAX,
    ensures
        well_linked(promoted(s, r)),
        root_count(promoted(s, r)) == root_count(s),
        forall|u: int| 0 <= u < s.len() ==> root_of(promoted(s, r), u) == root_of(s, u),
{
    let t = promoted(s, r);
    lemma_roots_below_update(s, r, t[r], s.len() as int);
    assert forall|u: int| 0 <= u < s.len() implies root_of(t, u) == root_of(s, u) by {
        lemma_promoted_root(s, r, u);
    }
}

proof fn lemma_promoted_root(s: Seq<Subset>, r: int, u: int)
    requires
        well_linked(s),
        is_root(s, r),
        s[r].rank < usize::MAX,
        0 <= u < s.len(),
    ensures
        root_of(promoted(s, r), u) == root_of(s, u),
    decreases usize::MAX - s[u].rank,
{
    if s[u].parent != u {
        lemma_promoted_root(s, r, s[u].parent as int);
    }
}

/// Hanging one root below another of higher rank merges their two sets and
/// leaves the others as they were.
proof fn lemma_linked(s: Seq<Subset>, child: int, parent: int)
    requires
        s.len() <= usize::MAX,
        well_linked(s),
        is_root(s, child),
        is_root(s, parent),
        child != parent,
        s[child].rank < s[parent].rank,
    ensures
        well_linked(linked(s, child, parent)),
        root_count(linked(s, child, parent)) == root_count(s) - 1,
        forall|u: int|
            0 <= u < s.len() ==> root_of(linked(s, child, parent), u) == if root_of(s, u)
                == child {
                parent
            } else {
                root_of(s, u)
            },
{
    let t = linked(s, child, parent);
    lemma_roots_below_update(s, child, t[child], s.len() as int);
    assert forall|u: int| 0 <= u < s.len() implies root_of(t, u) == if root_of(s, u) == child {
        parent
    } else {
        root_of(s, u)
    } by {
        lemma_linked_root(s, child, parent, u);
    }
}

proof fn lemma_linked_root(s: Seq<Subset>, child: int, parent: int, u: int)
    requires
        s.len() <= usize::MAX,
        well_linked(s),
        is_root(s, child),
        is_root(s, parent),
        child != parent,
        s[child].rank < s[parent].rank,
        0 <= u < s.len(),
    ensures
        root_of(linked(s, child, parent), u) == if root_of(s, u) == child {
            parent
        } else {
            root_of(s, u)
        },
    decreases usize::MAX - s[u].rank,
{
    let t = linked(s, child, parent);
    if s[u].parent != u {
        lemma_linked_root(s, child, parent, s[u].parent as int);
    } else if u == child {
        assert(root_of(t, parent) == parent);
    }
}

/// Merging the sets of `x` and `y` in a forest gives a forest in which the
/// elements of the absorbed set have the surviving root, and all others the
/// root they had.
pub proof fn lemma_merged(s: Seq<Subset>, x: int, y: int)
    requires
        is_forest(s),
        0 <= x < s.len(),
        0 <= y < s.len(),
    ensures
        is_forest(merged(s, x, y)),
        merged(s, x, y).len() == s.len(),
        root_count(merged(s, x, y)) == if same_set(s, x, y) {
            root_count(s)
        } else {
            root_count(s) - 1
        },
        forall|u: int|
            0 <= u < s.len() ==> #[trigger] root_of(merged(s, x, y), u) == if !same_set(s, x, y)
                && root_of(s, u) == absorbed_root(s, x, y) {
                surviving_root(s, x, y)
            } else {
                root_of(s, u)
            },
{
    let rx: int = root_of(s, x);
    let ry: int = root_of(s, y);
    lemma_root_of(s, x);
    lemma_root_of(s, y);
    if rx == ry {
    } else if s[rx].rank < s[ry].rank {
        lemma_linked(s, rx, ry);
    } else if s[rx].rank > s[ry].rank {
        lemma_linked(s, ry, rx);
    } else {
        if rx < ry {
            lemma_two_roots_counted(s, rx, ry, s.len() as int);
        } else {
            lemma_two_roots_counted(s, ry, rx, s.len() as int);
        }
        lemma_promoted(s, rx);
        lemma_linked(promoted(s, rx), ry, rx);
    }
}

/// A merge lowers no rank, and raises one only where two roots of equal rank
/// are merged: then the rank of the root of `x` grows by one.
pub proof fn lemma_merged_ranks(s: Seq<Subset>, x: int, y: int, i: int)
    requires
        is_forest(s),
        0 <= x < s.len(),
        0 <= y < s.len(),
        0 <= i < s.len(),
    ensures
        merged(s, x, y)[i].rank >= s[i].rank,
        merged(s, x, y)[i].rank != s[i].rank ==> {
            &&& i == root_of(s, x)
            &&& !same_set(s, x, y)
            &&& s[root_of(s, x)].rank == s[root_of(s, y)].rank
            &&& merged(s, x, y)[i].rank == s[i].rank + 1
        },
{
    lemma_root_of(s, x);
    lemma_root_of(s, y);
    if !same_set(s, x, y) {
        if root_of(s, x) < root_of(s, y) {
            lemma_two_roots_counted(s, root_of(s, x), root_of(s, y), s.len() as int);
        } else {
            lemma_two_roots_counted(s, root_of(s, y), root_of(s, x), s.len() as int);
        }
    }
}

/// After a merge, two elements are in one set where they were before, or
/// where one was with `x` and the other with `y`.
pub proof fn lemma_merged_same_set(s: Seq<Subset>, x: int, y: int)
    requires
        is_forest(s),
        0 <= x < s.len(),
        0 <= y < s.len(),
    ensures
        forall|u: int, v: int|
            0 <= u < s.len() && 0 <= v < s.len() ==> (#[trigger] same_set(merged(s, x, y), u, v)
                <==> same_set(s, u, v) || (same_set(s, u, x) && same_set(s, y, v)) || (same_set(
                s,
                u,
                y,
            ) && same_set(s, x, v))),
{
    lemma_merged(s, x, y);
    lemma_root_of(s, x);
    lemma_root_of(s, y);
}

} // verus!
