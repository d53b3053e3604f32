//! The union-find that gives every element its canonical representative.

use crate::forest::{
    ancestor, compress, compressed_upto, contains, depth, in_bounds, is_forest, is_root, root_of,
    rooted,
};
use crate::forest::{
    lemma_ancestor_add, lemma_ancestor_contained, lemma_ancestor_succ, lemma_compress,
    lemma_compressed_upto_depth, lemma_compressed_upto_succ, lemma_compressed_upto_zero,
    lemma_depth_below_len, lemma_link, lemma_push_root, lemma_root_of_is_root,
    lemma_root_of_parent, lemma_root_of_root, lemma_root_of_unique, lemma_rooted_through,
    lemma_walk_below_depth,
};
use crate::id::{positions, Id};
use vstd::prelude::*;

verus! {

broadcast use Id::lemma_view;

/// A partition of the elements `0 .. size()` into classes, each with one
/// canonical representative.
///
/// Every element holds the identifier of a parent. An element that is its own
/// parent is the representative of its class; any other element reaches its
/// representative by following parents.
#[derive(Debug)]
pub struct UnionFind {
    parents: Vec<Id>,
}

impl View for UnionFind {
    type V = Seq<int>;

    /// The parent of every element, by position.
    closed spec fn view(&self) -> Seq<int> {
        positions(self.parents@)
    }
}

impl Clone for UnionFind {
    /// A union-find with the same elements and the same parents.
    fn clone(&self) -> (copy: UnionFind)
        ensures
            copy@ == self@,
    {
        let copy = UnionFind { parents: self.parents.clone() };
        assert(copy@ =~= self@);
        copy
    }
}

impl Default for UnionFind {
    /// The union-find without elements.
    fn default() -> (uf: UnionFind)
        ensures
            uf@ == Seq::<int>::empty(),
            uf.wf(),
    {
        let uf = UnionFind { parents: Vec::new() };
        assert(uf@ =~= Seq::<int>::empty());
        uf
    }
}

impl UnionFind {
    /// The parents form a forest, and every element has an identifier.
    pub open spec fn wf(&self) -> bool {
        &&& is_forest(self@)
        &&& self@.len() <= u32::MAX + 1
    }

    /// Allocates a fresh element that is alone in its class.
    pub fn make_set(&mut self) -> (id: Id)
        requires
            old(self).wf(),
            old(self)@.len() <= u32::MAX,
        ensures
            id@ == old(self)@.len(),
            final(self)@ == old(self)@.push(id@),
            final(self).wf(),
            root_of(final(self)@, id@) == id@,
            forall|i: int|
                contains(old(self)@, i) ==> #[trigger] root_of(final(self)@, i) == root_of(
                    old(self)@,
                    i,
                ),
    {
        let id = Id::from(self.parents.len());
        proof {
            Id::lemma_at(self.parents.len() as int);
        }
        self.parents.push(id);
        proof {
            assert(self@ =~= old(self)@.push(id@));
            lemma_push_root(old(self)@);
        }
        id
    }

    /// The number of elements.
    pub fn size(&self) -> (n: usize)
        ensures
            n == self@.len(),
    {
        self.parents.len()
    }

    /// The parent of `query`.
    pub fn parent(&self, query: Id) -> (parent: Id)
        requires
            contains(self@, query@),
        ensures
            parent@ == self@[query@],
    {
        self.parents[usize::from(query)]
    }

    /// The place that holds the parent of `query`.
    fn parent_mut(&mut self, query: Id) -> (slot: &mut Id)
        requires
            contains(old(self)@, query@),
        ensures
            slot@ == old(self)@[query@],
            final(self)@ == old(self)@.update(query@, final(slot)@),
    {
        let i = usize::from(query);
        &mut self.parents[i]
    }

    /// The canonical representative of `current`, found by following parents
    /// up to the root. Nothing is changed.
    pub fn find(&self, current: Id) -> (root: Id)
        requires
            self.wf(),
            contains(self@, current@),
        ensures
            root@ == root_of(self@, current@),
            is_root(self@, root@),
            root_of(self@, root@) == root@,
    {
        let mut current = current;
        let ghost start = current@;
        proof {
            lemma_root_of_is_root(self@, start);
        }
        while current != self.parent(current)
            invariant
                self.wf(),
                contains(self@, current@),
                root_of(self@, current@) == root_of(self@, start),
            decreases depth(self@, current@),
        {
            proof {
                lemma_root_of_parent(self@, current@);
            }
            current = self.parent(current);
        }
        proof {
            lemma_root_of_root(self@, current@);
        }
        current
    }

    /// The canonical representative of `current`, found as `find` finds it.
    /// Every element on the way from `current` to the representative is
    /// then given the representative as its parent. The classes stay as
    /// they were.
    pub fn find_mut(&mut self, current: Id) -> (root: Id)
        requires
            old(self).wf(),
            contains(old(self)@, current@),
        ensures
            root@ == root_of(old(self)@, current@),
            final(self)@ == compress(old(self)@, current@),
            final(self).wf(),
            forall|i: int|
                contains(old(self)@, i) ==> #[trigger] root_of(final(self)@, i) == root_of(
                    old(self)@,
                    i,
                ),
    {
        let root = self.find(current);
        let mut node = current;
        let ghost before = self@;
        let ghost start = current@;
        let ghost mut steps: nat = 0;
        proof {
            lemma_compressed_upto_zero(before, start);
        }
        while node != root
            invariant
                is_forest(before),
                contains(before, start),
                root@ == root_of(before, start),
                steps <= depth(before, start),
                node@ == ancestor(before, start, steps),
                self@ == compressed_upto(before, start, steps),
            decreases depth(before, start) - steps,
        {
            proof {
                lemma_ancestor_contained(before, start, steps);
                if is_root(before, node@) {
                    lemma_root_of_unique(before, start, steps);
                }
                lemma_walk_below_depth(before, start, steps);
                lemma_compressed_upto_succ(before, start, steps);
                lemma_ancestor_succ(before, start, steps);
            }
            let parent = self.parent(node);
            *self.parent_mut(node) = root;
            node = parent;
            proof {
                steps = steps + 1;
            }
        }
        proof {
            lemma_root_of_is_root(before, start);
            lemma_root_of_unique(before, start, steps);
            lemma_compressed_upto_depth(before, start);
            lemma_compress(before, start);
        }
        root
    }

    /// Joins the classes of two representatives: `root2` gets the parent
    /// `root1`, which survives as the representative of both classes.
    pub fn union(&mut self, root1: Id, root2: Id) -> (root: Id)
        requires
            old(self).wf(),
            is_root(old(self)@, root1@),
            is_root(old(self)@, root2@),
        ensures
            root == root1,
            final(self)@ == old(self)@.update(root2@, root1@),
            final(self).wf(),
            forall|i: int|
                contains(old(self)@, i) && root_of(old(self)@, i) == root2@ ==> #[trigger] root_of(
                    final(self)@,
                    i,
                ) == root1@,
            forall|i: int|
                contains(old(self)@, i) && root_of(old(self)@, i) != root2@ ==> #[trigger] root_of(
                    final(self)@,
                    i,
                ) == root_of(old(self)@, i),
    {
        *self.parent_mut(root2) = root1;
        proof {
            lemma_link(old(self)@, root1@, root2@);
        }
        root1
    }

    /// The union-find whose elements have the given parents, element `i`
    /// the parent `parents[i]`, provided that these parents form a forest.
    pub fn from_parents(parents: Vec<Id>) -> (made: Option<UnionFind>)
        ensures
            made is Some <==> is_forest(positions(parents@)) && parents@.len() <= u32::MAX + 1,
            made matches Some(uf) ==> uf@ == positions(parents@) && uf.wf(),
    {
        let n = parents.len();
        let ghost p = positions(parents@);
        if n > 0 && n - 1 > u32::MAX as usize {
            return None;
        }
        let mut i: usize = 0;
        while i < n
            invariant
                n == parents.len(),
                p == positions(parents@),
                i <= n,
                forall|j: int| 0 <= j < i ==> contains(p, #[trigger] p[j]),
            decreases n - i,
        {
            if usize::from(parents[i]) >= n {
                assert(!contains(p, p[i as int]));
                return None;
            }
            i += 1;
        }
        // Every element that is marked reaches a root.
        let mut settled: Vec<bool> = vec![false; n];
        let mut i: usize = 0;
        while i < n
            invariant
                n == parents.len(),
                p == positions(parents@),
                in_bounds(p),
                i <= n,
                settled.len() == n,
                forall|j: int| 0 <= j < i ==> #[trigger] rooted(p, j),
                forall|j: int| 0 <= j < n && settled[j] ==> #[trigger] rooted(p, j),
            decreases n - i,
        {
            // Walk until a marked element or a root; a walk of `n` steps
            // that meets neither runs round a cycle.
            let mut node: usize = i;
            let mut steps: usize = 0;
            while steps < n && !settled[node] && usize::from(parents[node]) != node
                invariant
                    n == parents.len(),
                    p == positions(parents@),
                    in_bounds(p),
                    settled.len() == n,
                    i < n,
                    steps <= n,
                    node < n,
                    node == ancestor(p, i as int, steps as nat),
                    forall|k: nat| k < steps ==> !is_root(p, #[trigger] ancestor(p, i as int, k)),
                decreases n - steps,
            {
                proof {
                    lemma_ancestor_succ(p, i as int, steps as nat);
                }
                node = usize::from(parents[node]);
                steps += 1;
            }
            if !settled[node] && usize::from(parents[node]) != node {
                proof {
                    if rooted(p, i as int) {
                        lemma_depth_below_len(p, i as int);
                        lemma_root_of_is_root(p, i as int);
                    }
                }
                return None;
            }
            proof {
                if !settled[node as int] {
                    lemma_root_of_root(p, node as int);
                }
                lemma_rooted_through(p, i as int, steps as nat);
            }
            // Mark what the walk passed.
            let mut passed: usize = i;
            let mut k: usize = 0;
            while k < steps
                invariant
                    n == parents.len(),
                    p == positions(parents@),
                    in_bounds(p),
                    settled.len() == n,
                    i < n,
                    k <= steps,
                    passed < n,
                    passed == ancestor(p, i as int, k as nat),
                    rooted(p, ancestor(p, i as int, steps as nat)),
                    forall|j: int| 0 <= j < n && settled[j] ==> #[trigger] rooted(p, j),
                decreases steps - k,
            {
                proof {
                    lemma_ancestor_add(p, i as int, k as nat, (steps - k) as nat);
                    lemma_rooted_through(p, passed as int, (steps - k) as nat);
                    lemma_ancestor_succ(p, i as int, k as nat);
                }
                settled[passed] = true;
                passed = usize::from(parents[passed]);
                k += 1;
            }
            i += 1;
        }
        Some(UnionFind { parents })
    }
}

} // verus!
