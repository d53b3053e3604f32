//! Parent-pointer forests over the integers.
//!
//! A sequence `p` describes a directed graph on the nodes `0 .. p.len()`:
//! `p[i]` is the parent of node `i`, and a node that is its own parent is a
//! root. The sequence is a forest when every parent is itself a node and every
//! node reaches a root by following parents. The root that a node reaches is
//! its canonical representative, and two nodes belong to the same class exactly
//! when they reach the same root.

use vstd::prelude::*;

verus! {

/// `i` is a node of `p`.
pub open spec fn contains(p: Seq<int>, i: int) -> bool {
    0 <= i < p.len()
}

/// `i` is a node of `p` and its own parent.
pub open spec fn is_root(p: Seq<int>, i: int) -> bool {
    contains(p, i) && p[i] == i
}

/// Every parent pointer of `p` names a node of `p`.
pub open spec fn in_bounds(p: Seq<int>) -> bool {
    forall|i: int| contains(p, i) ==> contains(p, #[trigger] p[i])
}

/// The node reached from `i` by following parent pointers `k` times.
pub open spec fn ancestor(p: Seq<int>, i: int, k: nat) -> int
    decreases k,
{
    if k == 0 {
        i
    } else {
        ancestor(p, p[i], (k - 1) as nat)
    }
}

/// Following parent pointers from `i` eventually arrives at a root.
pub open spec fn rooted(p: Seq<int>, i: int) -> bool {
    exists|k: nat| is_root(p, #[trigger] ancestor(p, i, k))
}

/// `p` is a forest: parents are nodes, and every node reaches a root.
pub open spec fn is_forest(p: Seq<int>) -> bool {
    &&& in_bounds(p)
    &&& forall|i: int| contains(p, i) ==> #[trigger] rooted(p, i)
}

/// `k` is the number of the first node on the walk from `i` that is a root.
pub open spec fn first_root_at(p: Seq<int>, i: int, k: nat) -> bool {
    &&& is_root(p, ancestor(p, i, k))
    &&& forall|j: nat| j < k ==> !is_root(p, #[trigger] ancestor(p, i, j))
}

/// The number of parent pointers between `i` and its root.
pub open spec fn depth(p: Seq<int>, i: int) -> nat {
    choose|k: nat| first_root_at(p, i, k)
}

/// The canonical representative of `i`: the root that `i` reaches.
pub open spec fn root_of(p: Seq<int>, i: int) -> int {
    ancestor(p, i, depth(p, i))
}

/// `i` and `j` belong to the same class of `p`.
pub open spec fn same_class(p: Seq<int>, i: int, j: int) -> bool {
    root_of(p, i) == root_of(p, j)
}

/// `j` lies on the walk from `i` to its root, both ends included.
pub open spec fn on_path(p: Seq<int>, i: int, j: int) -> bool {
    exists|k: nat| #[trigger] ancestor(p, i, k) == j
}

/// `j` is one of the first `s` nodes on the walk from `i`.
pub open spec fn on_path_before(p: Seq<int>, i: int, j: int, s: nat) -> bool {
    exists|k: nat| k < s && #[trigger] ancestor(p, i, k) == j
}

/// `p` after the first `s` nodes on the walk from `i` have been pointed
/// straight at the representative of `i`.
pub open spec fn compressed_upto(p: Seq<int>, i: int, s: nat) -> Seq<int> {
    Seq::new(
        p.len(),
        |j: int|
            if on_path_before(p, i, j, s) {
                root_of(p, i)
            } else {
                p[j]
            },
    )
}

/// `p` after path compression from `i`: every node on the walk from `i`
/// points straight at the representative of `i`, and no other node changes.
pub open spec fn compress(p: Seq<int>, i: int) -> Seq<int> {
    Seq::new(
        p.len(),
        |j: int|
            if on_path(p, i, j) {
                root_of(p, i)
            } else {
                p[j]
            },
    )
}

// Walks.

/// Walking `a + b` steps is walking `a` steps and then `b` more.
pub proof fn lemma_ancestor_add(p: Seq<int>, i: int, a: nat, b: nat)
    ensures
        ancestor(p, i, a + b) == ancestor(p, ancestor(p, i, a), b),
    decreases a,
{
    if a > 0 {
        lemma_ancestor_add(p, p[i], (a - 1) as nat, b);
    }
}

/// One more step leads to the parent of where the walk stood.
pub proof fn lemma_ancestor_succ(p: Seq<int>, i: int, k: nat)
    ensures
        ancestor(p, i, k + 1) == p[ancestor(p, i, k)],
{
    lemma_ancestor_add(p, i, k, 1);
    reveal_with_fuel(ancestor, 2);
}

/// A walk that starts at a node never leaves the nodes.
pub proof fn lemma_ancestor_contained(p: Seq<int>, i: int, k: nat)
    requires
        in_bounds(p),
        contains(p, i),
    ensures
        contains(p, ancestor(p, i, k)),
    decreases k,
{
    if k > 0 {
        lemma_ancestor_contained(p, p[i], (k - 1) as nat);
    }
}

/// A walk that starts at a root stays there.
pub proof fn lemma_ancestor_of_root(p: Seq<int>, r: int, k: nat)
    requires
        is_root(p, r),
    ensures
        ancestor(p, r, k) == r,
    decreases k,
{
    if k > 0 {
        lemma_ancestor_of_root(p, r, (k - 1) as nat);
    }
}

/// Two forests that agree on the parents of the first `k` nodes of a walk
/// agree on where the walk stands after `k` steps.
pub proof fn lemma_walk_agrees(p: Seq<int>, q: Seq<int>, i: int, k: nat)
    requires
        forall|j: nat| j < k ==> q[#[trigger] ancestor(p, i, j)] == p[ancestor(p, i, j)],
    ensures
        ancestor(q, i, k) == ancestor(p, i, k),
    decreases k,
{
    if k > 0 {
        let m = (k - 1) as nat;
        lemma_walk_agrees(p, q, i, m);
        lemma_ancestor_succ(p, i, m);
        lemma_ancestor_succ(q, i, m);
    }
}

// Representatives.

/// Among the steps at which a walk stands on a root there is a first one,
/// and `depth` is that step.
pub proof fn lemma_depth_is_first(p: Seq<int>, i: int, k: nat)
    requires
        is_root(p, ancestor(p, i, k)),
    ensures
        first_root_at(p, i, depth(p, i)),
        depth(p, i) <= k,
    decreases k,
{
    if exists|j: nat| j < k && is_root(p, #[trigger] ancestor(p, i, j)) {
        let j = choose|j: nat| j < k && is_root(p, #[trigger] ancestor(p, i, j));
        lemma_depth_is_first(p, i, j);
    } else {
        assert(first_root_at(p, i, k));
    }
}

/// Once a walk stands on a root, that root is the representative.
pub proof fn lemma_root_of_unique(p: Seq<int>, i: int, k: nat)
    requires
        is_root(p, ancestor(p, i, k)),
    ensures
        ancestor(p, i, k) == root_of(p, i),
        is_root(p, root_of(p, i)),
        depth(p, i) <= k,
{
    lemma_depth_is_first(p, i, k);
    let d = depth(p, i);
    lemma_ancestor_add(p, i, d, (k - d) as nat);
    lemma_ancestor_of_root(p, ancestor(p, i, d), (k - d) as nat);
}

/// The representative of a node that reaches a root is a root.
pub proof fn lemma_root_of_is_root(p: Seq<int>, i: int)
    requires
        rooted(p, i),
    ensures
        is_root(p, root_of(p, i)),
        first_root_at(p, i, depth(p, i)),
{
    let k = choose|k: nat| is_root(p, #[trigger] ancestor(p, i, k));
    lemma_depth_is_first(p, i, k);
}

/// A root is its own representative, at depth zero.
pub proof fn lemma_root_of_root(p: Seq<int>, r: int)
    requires
        is_root(p, r),
    ensures
        root_of(p, r) == r,
        depth(p, r) == 0,
        rooted(p, r),
{
    assert(ancestor(p, r, 0) == r);
    lemma_root_of_unique(p, r, 0);
}

/// A node that is no root shares the representative of its parent, one step
/// further away.
pub proof fn lemma_root_of_parent(p: Seq<int>, i: int)
    requires
        rooted(p, i),
        !is_root(p, i),
    ensures
        rooted(p, p[i]),
        root_of(p, i) == root_of(p, p[i]),
        depth(p, i) == depth(p, p[i]) + 1,
{
    lemma_root_of_is_root(p, i);
    let d = depth(p, i);
    assert(ancestor(p, i, 0) == i);
    assert(d > 0);
    let e = (d - 1) as nat;
    assert(ancestor(p, i, d) == ancestor(p, p[i], e));
    lemma_root_of_unique(p, p[i], e);
    let f = depth(p, p[i]);
    assert(ancestor(p, i, f + 1) == ancestor(p, p[i], f));
    if f < e {
        assert(!is_root(p, ancestor(p, i, f + 1)));
    }
}

/// Taking the representative twice is taking it once.
pub proof fn lemma_root_of_idempotent(p: Seq<int>, i: int)
    requires
        rooted(p, i),
    ensures
        root_of(p, root_of(p, i)) == root_of(p, i),
{
    lemma_root_of_is_root(p, i);
    lemma_root_of_root(p, root_of(p, i));
}

/// A node reaches a root as soon as one of the nodes on its walk does.
pub proof fn lemma_rooted_through(p: Seq<int>, i: int, k: nat)
    requires
        rooted(p, ancestor(p, i, k)),
    ensures
        rooted(p, i),
{
    let j = ancestor(p, i, k);
    lemma_root_of_is_root(p, j);
    lemma_ancestor_add(p, i, k, depth(p, j));
}

// The nodes on a walk.

/// Every node on the walk from `i` has the representative of `i`.
pub proof fn lemma_on_path_same_root(p: Seq<int>, i: int, j: int)
    requires
        rooted(p, j),
        on_path(p, i, j),
    ensures
        rooted(p, i),
        root_of(p, i) == root_of(p, j),
{
    let k = choose|k: nat| #[trigger] ancestor(p, i, k) == j;
    lemma_root_of_is_root(p, j);
    lemma_ancestor_add(p, i, k, depth(p, j));
    lemma_root_of_unique(p, i, k + depth(p, j));
}

/// The only node on the walk from a root is the root.
pub proof fn lemma_on_path_of_root(p: Seq<int>, r: int, j: int)
    requires
        is_root(p, r),
    ensures
        on_path(p, r, j) <==> j == r,
{
    if on_path(p, r, j) {
        let k = choose|k: nat| #[trigger] ancestor(p, r, k) == j;
        lemma_ancestor_of_root(p, r, k);
    }
    assert(ancestor(p, r, 0) == r);
}

/// The walk from `i` passes a root `r` exactly when `r` represents `i`.
pub proof fn lemma_on_path_to_root(p: Seq<int>, i: int, r: int)
    requires
        rooted(p, i),
        is_root(p, r),
    ensures
        on_path(p, i, r) <==> root_of(p, i) == r,
{
    if on_path(p, i, r) {
        let k = choose|k: nat| #[trigger] ancestor(p, i, k) == r;
        lemma_root_of_unique(p, i, k);
    }
    assert(ancestor(p, i, depth(p, i)) == root_of(p, i));
}

/// Each step towards the root lowers the depth by one.
pub proof fn lemma_depth_of_ancestor(p: Seq<int>, i: int, k: nat)
    requires
        rooted(p, i),
        k <= depth(p, i),
    ensures
        rooted(p, ancestor(p, i, k)),
        depth(p, ancestor(p, i, k)) == depth(p, i) - k,
    decreases k,
{
    if k > 0 {
        if is_root(p, i) {
            lemma_root_of_root(p, i);
        }
        lemma_root_of_parent(p, i);
        lemma_depth_of_ancestor(p, p[i], (k - 1) as nat);
    }
}

/// Before it arrives at the root, a walk visits no node twice.
pub proof fn lemma_walk_distinct(p: Seq<int>, i: int, j: nat, k: nat)
    requires
        rooted(p, i),
        j < k <= depth(p, i),
    ensures
        ancestor(p, i, j) != ancestor(p, i, k),
{
    lemma_depth_of_ancestor(p, i, j);
    lemma_depth_of_ancestor(p, i, k);
}

/// A walk that stands on a node other than a root has not yet gone as far
/// as the depth of its start.
pub proof fn lemma_walk_below_depth(p: Seq<int>, i: int, k: nat)
    requires
        rooted(p, i),
        !is_root(p, ancestor(p, i, k)),
    ensures
        k < depth(p, i),
{
    lemma_root_of_is_root(p, i);
    let d = depth(p, i);
    if k >= d {
        lemma_ancestor_add(p, i, d, (k - d) as nat);
        lemma_ancestor_of_root(p, root_of(p, i), (k - d) as nat);
    }
}

/// Of `n + 1` numbers below `n`, two are equal.
pub proof fn lemma_two_alike(f: spec_fn(int) -> int, n: nat)
    requires
        forall|k: int| 0 <= k <= n ==> 0 <= #[trigger] f(k) < n,
    ensures
        exists|a: int, b: int| 0 <= a < b <= n && #[trigger] f(a) == #[trigger] f(b),
    decreases n,
{
    if n == 0 {
        assert(0 <= f(0int) < n);
    } else {
        let top = f(n as int);
        if exists|a: int| 0 <= a < n && #[trigger] f(a) == top {
            let a = choose|a: int| 0 <= a < n && #[trigger] f(a) == top;
            assert(0 <= a < n <= n && f(a) == f(n as int));
        } else {
            let g = |k: int|
                if f(k) < top {
                    f(k)
                } else {
                    f(k) - 1
                };
            let m = (n - 1) as nat;
            assert forall|k: int| 0 <= k <= m implies 0 <= #[trigger] g(k) < m by {
                assert(0 <= f(k) < n);
                assert(f(k) != top);
            }
            lemma_two_alike(g, m);
            let (a, b) = choose|a: int, b: int|
                0 <= a < b <= m && #[trigger] g(a) == #[trigger] g(b);
            assert(f(a) != top && f(b) != top);
            assert(0 <= a < b <= n && f(a) == f(b));
        }
    }
}

/// A walk arrives at its root in fewer steps than there are nodes.
pub proof fn lemma_depth_below_len(p: Seq<int>, i: int)
    requires
        in_bounds(p),
        contains(p, i),
        rooted(p, i),
    ensures
        depth(p, i) < p.len(),
{
    let n = p.len();
    if depth(p, i) >= n {
        let f = |k: int| ancestor(p, i, k as nat);
        assert forall|k: int| 0 <= k <= n implies 0 <= #[trigger] f(k) < n by {
            lemma_ancestor_contained(p, i, k as nat);
        }
        lemma_two_alike(f, n);
        let (a, b) = choose|a: int, b: int| 0 <= a < b <= n && #[trigger] f(a) == #[trigger] f(b);
        lemma_walk_distinct(p, i, a as nat, b as nat);
    }
}

// One node gets another parent.

/// A node whose walk avoids `i` keeps its walk, and so its representative,
/// when the parent of `i` changes.
pub proof fn lemma_off_path_unchanged(p: Seq<int>, i: int, a: int, x: int)
    requires
        in_bounds(p),
        contains(p, i),
        contains(p, x),
        rooted(p, x),
        !on_path(p, x, i),
    ensures
        rooted(p.update(i, a), x),
        root_of(p.update(i, a), x) == root_of(p, x),
        forall|k: nat| ancestor(p.update(i, a), x, k) == #[trigger] ancestor(p, x, k),
{
    let q = p.update(i, a);
    assert forall|k: nat| ancestor(q, x, k) == #[trigger] ancestor(p, x, k) by {
        assert forall|j: nat| j < k implies q[#[trigger] ancestor(p, x, j)] == p[ancestor(
            p,
            x,
            j,
        )] by {
            lemma_ancestor_contained(p, x, j);
        }
        lemma_walk_agrees(p, q, x, k);
    }
    lemma_root_of_is_root(p, x);
    let d = depth(p, x);
    let r = root_of(p, x);
    assert(ancestor(q, x, d) == ancestor(p, x, d));
    assert(is_root(q, r));
    lemma_root_of_unique(q, x, d);
}

/// A node whose walk passes `i` is represented, once `i` has the parent
/// `a`, by the representative of `a`, provided the walk from `a` avoids `i`.
proof fn lemma_on_path_redirected(p: Seq<int>, i: int, a: int, x: int, k: nat)
    requires
        in_bounds(p),
        contains(p, i),
        contains(p, a),
        rooted(p, a),
        !on_path(p, a, i),
        contains(p, x),
        ancestor(p, x, k) == i,
    ensures
        rooted(p.update(i, a), x),
        root_of(p.update(i, a), x) == root_of(p, a),
    decreases k,
{
    let q = p.update(i, a);
    lemma_off_path_unchanged(p, i, a, a);
    if x == i {
        let m = depth(q, a);
        lemma_root_of_is_root(q, a);
        assert(ancestor(q, i, m + 1) == ancestor(q, a, m));
        lemma_root_of_unique(q, i, m + 1);
    } else {
        assert(ancestor(p, x, 0) == x);
        lemma_on_path_redirected(p, i, a, p[x], (k - 1) as nat);
        let m = depth(q, p[x]);
        lemma_root_of_is_root(q, p[x]);
        assert(ancestor(q, x, m + 1) == ancestor(q, p[x], m));
        lemma_root_of_unique(q, x, m + 1);
    }
}

/// What `lemma_reparent` says of a single node `x`.
proof fn lemma_reparent_node(p: Seq<int>, i: int, a: int, x: int)
    requires
        is_forest(p),
        contains(p, i),
        contains(p, a),
        !on_path(p, a, i),
        contains(p, x),
    ensures
        rooted(p.update(i, a), x),
        on_path(p, x, i) ==> root_of(p.update(i, a), x) == root_of(p, a),
        !on_path(p, x, i) ==> root_of(p.update(i, a), x) == root_of(p, x),
{
    assert(rooted(p, a));
    assert(rooted(p, x));
    if on_path(p, x, i) {
        let k = choose|k: nat| #[trigger] ancestor(p, x, k) == i;
        lemma_on_path_redirected(p, i, a, x, k);
    } else {
        lemma_off_path_unchanged(p, i, a, x);
    }
}

/// Giving node `i` the parent `a`, whose own walk avoids `i`, leaves a
/// forest. The nodes whose walk passed `i` are now represented by the
/// representative of `a`; all others keep theirs.
pub proof fn lemma_reparent(p: Seq<int>, i: int, a: int)
    requires
        is_forest(p),
        contains(p, i),
        contains(p, a),
        !on_path(p, a, i),
    ensures
        is_forest(p.update(i, a)),
        forall|x: int|
            contains(p, x) && on_path(p, x, i) ==> #[trigger] root_of(p.update(i, a), x) == root_of(
                p,
                a,
            ),
        forall|x: int|
            contains(p, x) && !on_path(p, x, i) ==> #[trigger] root_of(p.update(i, a), x)
                == root_of(p, x),
{
    let q = p.update(i, a);
    assert forall|x: int| contains(p, x) implies #[trigger] root_of(q, x) == (if on_path(p, x, i) {
        root_of(p, a)
    } else {
        root_of(p, x)
    }) by {
        lemma_reparent_node(p, i, a, x);
    }
    assert forall|x: int| contains(q, x) implies #[trigger] rooted(q, x) by {
        lemma_reparent_node(p, i, a, x);
    }
    assert forall|x: int| contains(q, x) implies contains(q, #[trigger] q[x]) by {
        assert(contains(p, p[x]));
    }
}

// A new root, a link between two roots, a compressed path.

/// Adding a node that is its own parent leaves a forest in which the new
/// node is alone in its class and every other representative is unchanged.
pub proof fn lemma_push_root(p: Seq<int>)
    requires
        is_forest(p),
    ensures
        is_forest(p.push(p.len() as int)),
        root_of(p.push(p.len() as int), p.len() as int) == p.len(),
        forall|x: int|
            contains(p, x) ==> #[trigger] root_of(p.push(p.len() as int), x) == root_of(p, x),
{
    let n = p.len() as int;
    let q = p.push(n);
    assert(is_root(q, n));
    lemma_root_of_root(q, n);
    assert forall|x: int| contains(p, x) implies rooted(q, x) && #[trigger] root_of(q, x)
        == root_of(p, x) by {
        assert(rooted(p, x));
        lemma_root_of_is_root(p, x);
        let d = depth(p, x);
        assert forall|j: nat| j < d implies q[#[trigger] ancestor(p, x, j)] == p[ancestor(
            p,
            x,
            j,
        )] by {
            lemma_ancestor_contained(p, x, j);
        }
        lemma_walk_agrees(p, q, x, d);
        lemma_root_of_unique(q, x, d);
    }
    assert forall|x: int| contains(q, x) implies contains(q, #[trigger] q[x]) by {
        if x < n {
            assert(contains(p, p[x]));
        }
    }
    assert forall|x: int| contains(q, x) implies #[trigger] rooted(q, x) by {
        if x < n {
            assert(root_of(q, x) == root_of(p, x));
        }
    }
}

/// Pointing one root at another joins their classes under the second: the
/// nodes that `r2` represented are now represented by `r1`, and all others
/// keep their representative.
pub proof fn lemma_link(p: Seq<int>, r1: int, r2: int)
    requires
        is_forest(p),
        is_root(p, r1),
        is_root(p, r2),
    ensures
        is_forest(p.update(r2, r1)),
        forall|x: int|
            contains(p, x) && root_of(p, x) == r2 ==> #[trigger] root_of(p.update(r2, r1), x) == r1,
        forall|x: int|
            contains(p, x) && root_of(p, x) != r2 ==> #[trigger] root_of(p.update(r2, r1), x)
                == root_of(p, x),
{
    let q = p.update(r2, r1);
    if r1 == r2 {
        assert(q =~= p);
    } else {
        lemma_on_path_of_root(p, r1, r2);
        lemma_reparent(p, r2, r1);
        lemma_root_of_root(p, r1);
        assert forall|x: int| contains(p, x) implies on_path(p, x, r2) == (root_of(p, x) == r2) by {
            assert(rooted(p, x));
            lemma_on_path_to_root(p, x, r2);
        }
    }
}

/// Linking two roots joins their two classes and no others: afterwards two
/// nodes share a class exactly when they did before, or when each of them
/// belonged to one of the two classes.
pub proof fn lemma_link_classes(p: Seq<int>, r1: int, r2: int, x: int, y: int)
    requires
        is_forest(p),
        is_root(p, r1),
        is_root(p, r2),
        contains(p, x),
        contains(p, y),
    ensures
        same_class(p.update(r2, r1), x, y) <==> same_class(p, x, y) || ((root_of(p, x) == r1
            || root_of(p, x) == r2) && (root_of(p, y) == r1 || root_of(p, y) == r2)),
{
    lemma_link(p, r1, r2);
}

/// Pointing a node straight at its representative leaves a forest with the
/// same representatives.
pub proof fn lemma_shortcut(p: Seq<int>, i: int)
    requires
        is_forest(p),
        contains(p, i),
    ensures
        is_forest(p.update(i, root_of(p, i))),
        forall|x: int|
            contains(p, x) ==> #[trigger] root_of(p.update(i, root_of(p, i)), x) == root_of(p, x),
{
    let r = root_of(p, i);
    let q = p.update(i, r);
    assert(rooted(p, i));
    lemma_root_of_is_root(p, i);
    if is_root(p, i) {
        lemma_root_of_root(p, i);
        assert(q =~= p);
    } else {
        lemma_on_path_of_root(p, r, i);
        lemma_reparent(p, i, r);
        lemma_root_of_root(p, r);
        assert forall|x: int| contains(p, x) implies #[trigger] root_of(q, x) == root_of(p, x) by {
            assert(rooted(p, x));
            if on_path(p, x, i) {
                lemma_on_path_same_root(p, x, i);
            }
        }
    }
}

/// Compressing none of the walk changes nothing.
pub proof fn lemma_compressed_upto_zero(p: Seq<int>, i: int)
    ensures
        compressed_upto(p, i, 0) == p,
{
    assert(compressed_upto(p, i, 0) =~= p);
}

/// Compressing one node more is one update: of the node at which the walk
/// stands, which still has its first parent.
pub proof fn lemma_compressed_upto_succ(p: Seq<int>, i: int, s: nat)
    requires
        is_forest(p),
        contains(p, i),
        s < depth(p, i),
    ensures
        compressed_upto(p, i, s)[ancestor(p, i, s)] == p[ancestor(p, i, s)],
        compressed_upto(p, i, s + 1) == compressed_upto(p, i, s).update(
            ancestor(p, i, s),
            root_of(p, i),
        ),
{
    let node = ancestor(p, i, s);
    let c = compressed_upto(p, i, s);
    let d = compressed_upto(p, i, s + 1);
    lemma_ancestor_contained(p, i, s);
    assert(rooted(p, i));
    assert(!on_path_before(p, i, node, s)) by {
        assert forall|k: nat| k < s implies #[trigger] ancestor(p, i, k) != node by {
            lemma_walk_distinct(p, i, k, s);
        }
    }
    assert forall|j: int| 0 <= j < p.len() implies #[trigger] d[j] == c.update(
        node,
        root_of(p, i),
    )[j] by {
        if on_path_before(p, i, j, s + 1) {
            let k = choose|k: nat| k < s + 1 && #[trigger] ancestor(p, i, k) == j;
            if k < s {
                assert(on_path_before(p, i, j, s));
            }
        }
        if on_path_before(p, i, j, s) {
            let k = choose|k: nat| k < s && #[trigger] ancestor(p, i, k) == j;
            assert(k < s + 1 && ancestor(p, i, k) == j);
        }
        if j == node {
            assert(s < s + 1 && ancestor(p, i, s) == j);
        }
    }
    assert(d =~= c.update(node, root_of(p, i)));
}

/// Compressing the walk up to the root is path compression.
pub proof fn lemma_compressed_upto_depth(p: Seq<int>, i: int)
    requires
        is_forest(p),
        contains(p, i),
    ensures
        compressed_upto(p, i, depth(p, i)) == compress(p, i),
{
    let n = depth(p, i);
    let r = root_of(p, i);
    assert(rooted(p, i));
    lemma_root_of_is_root(p, i);
    assert forall|j: int| 0 <= j < p.len() implies #[trigger] compressed_upto(p, i, n)[j]
        == compress(p, i)[j] by {
        if on_path(p, i, j) && !on_path_before(p, i, j, n) {
            let k = choose|k: nat| #[trigger] ancestor(p, i, k) == j;
            assert(k >= n);
            lemma_ancestor_add(p, i, n, (k - n) as nat);
            lemma_ancestor_of_root(p, r, (k - n) as nat);
        }
        if on_path_before(p, i, j, n) {
            let k = choose|k: nat| k < n && #[trigger] ancestor(p, i, k) == j;
            assert(on_path(p, i, j));
        }
    }
    assert(compressed_upto(p, i, n) =~= compress(p, i));
}

/// However far the walk from `i` has been compressed, the result is a
/// forest with the representatives of `p`.
pub proof fn lemma_compressed_upto_forest(p: Seq<int>, i: int, s: nat)
    requires
        is_forest(p),
        contains(p, i),
        s <= depth(p, i),
    ensures
        is_forest(compressed_upto(p, i, s)),
        forall|x: int|
            contains(p, x) ==> #[trigger] root_of(compressed_upto(p, i, s), x) == root_of(p, x),
    decreases s,
{
    if s == 0 {
        lemma_compressed_upto_zero(p, i);
    } else {
        let t = (s - 1) as nat;
        let c = compressed_upto(p, i, t);
        let node = ancestor(p, i, t);
        lemma_compressed_upto_forest(p, i, t);
        lemma_compressed_upto_succ(p, i, t);
        lemma_ancestor_contained(p, i, t);
        assert(rooted(p, node));
        assert(on_path(p, i, node));
        lemma_on_path_same_root(p, i, node);
        assert(root_of(c, node) == root_of(p, i));
        lemma_shortcut(c, node);
    }
}

/// Path compression leaves a forest with the same representatives: the
/// partition into classes is unchanged.
pub proof fn lemma_compress(p: Seq<int>, i: int)
    requires
        is_forest(p),
        contains(p, i),
    ensures
        is_forest(compress(p, i)),
        forall|x: int| contains(p, x) ==> #[trigger] root_of(compress(p, i), x) == root_of(p, x),
{
    lemma_compressed_upto_forest(p, i, depth(p, i));
    lemma_compressed_upto_depth(p, i);
}

} // verus!
