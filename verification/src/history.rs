//! Histories of calls, and what holds of a union-find after any of them.
//!
//! A history is a sequence of the calls that change a union-find. Replaying
//! a history from the empty union-find gives the parents that the calls
//! leave behind, as `UnionFind::make_set`, `UnionFind::union` and
//! `UnionFind::find_mut` state them.

use crate::forest::{compress, contains, is_forest, is_root, root_of, same_class};
use crate::forest::{
    lemma_compress, lemma_link, lemma_push_root, lemma_root_of_idempotent, lemma_root_of_root,
};
use vstd::prelude::*;

verus! {

/// One call that changes a union-find, with its arguments by position.
pub enum Call {
    /// `make_set()`.
    MakeSet,
    /// `union(root1, root2)`.
    Union { root1: int, root2: int },
    /// `find_mut(current)`.
    FindMut { current: int },
}

/// The parents `p` meet what the call demands of its arguments.
pub open spec fn permitted(p: Seq<int>, call: Call) -> bool {
    match call {
        Call::MakeSet => p.len() <= u32::MAX,
        Call::Union { root1, root2 } => is_root(p, root1) && is_root(p, root2),
        Call::FindMut { current } => contains(p, current),
    }
}

/// The parents that the call leaves behind when it starts from `p`.
pub open spec fn after(p: Seq<int>, call: Call) -> Seq<int> {
    match call {
        Call::MakeSet => p.push(p.len() as int),
        Call::Union { root1, root2 } => p.update(root2, root1),
        Call::FindMut { current } => compress(p, current),
    }
}

/// The parents after all of `calls`, made in order on the empty union-find.
pub open spec fn replay(calls: Seq<Call>) -> Seq<int>
    decreases calls.len(),
{
    if calls.len() == 0 {
        Seq::empty()
    } else {
        after(replay(calls.drop_last()), calls.last())
    }
}

/// Every call of the history is permitted at the moment it is made.
pub open spec fn permitted_history(calls: Seq<Call>) -> bool
    decreases calls.len(),
{
    calls.len() > 0 ==> permitted_history(calls.drop_last()) && permitted(
        replay(calls.drop_last()),
        calls.last(),
    )
}

/// One permitted call on a forest leaves a forest. It loses no node, and
/// two nodes that shared a class still share one.
pub proof fn lemma_call_keeps(p: Seq<int>, call: Call)
    requires
        is_forest(p),
        permitted(p, call),
    ensures
        is_forest(after(p, call)),
        p.len() <= after(p, call).len() <= p.len() + 1,
        call !is MakeSet ==> after(p, call).len() == p.len(),
        forall|x: int, y: int|
            contains(p, x) && contains(p, y) && same_class(p, x, y) ==> #[trigger] same_class(
                after(p, call),
                x,
                y,
            ),
{
    match call {
        Call::MakeSet => {
            lemma_push_root(p);
        },
        Call::Union { root1, root2 } => {
            lemma_link(p, root1, root2);
        },
        Call::FindMut { current } => {
            lemma_compress(p, current);
        },
    }
}

/// After any permitted history the parents form a forest, and every
/// element has an identifier.
pub proof fn lemma_replay_forest(calls: Seq<Call>)
    requires
        permitted_history(calls),
    ensures
        is_forest(replay(calls)),
        replay(calls).len() <= u32::MAX + 1,
    decreases calls.len(),
{
    if calls.len() > 0 {
        lemma_replay_forest(calls.drop_last());
        lemma_call_keeps(replay(calls.drop_last()), calls.last());
    }
}

/// After any permitted history, finding is idempotent: the representative
/// of a representative is that representative.
pub proof fn lemma_replay_find_idempotent(calls: Seq<Call>, x: int)
    requires
        permitted_history(calls),
        contains(replay(calls), x),
    ensures
        root_of(replay(calls), root_of(replay(calls), x)) == root_of(replay(calls), x),
{
    lemma_replay_forest(calls);
    lemma_root_of_idempotent(replay(calls), x);
}

/// Classes only grow: two nodes that share a class after the first `k`
/// calls of a permitted history share one after all of it.
pub proof fn lemma_replay_classes_grow(calls: Seq<Call>, k: int, x: int, y: int)
    requires
        permitted_history(calls),
        0 <= k <= calls.len(),
        contains(replay(calls.take(k)), x),
        contains(replay(calls.take(k)), y),
        same_class(replay(calls.take(k)), x, y),
    ensures
        contains(replay(calls), x),
        contains(replay(calls), y),
        same_class(replay(calls), x, y),
    decreases calls.len(),
{
    if k == calls.len() {
        assert(calls.take(k) =~= calls);
    } else {
        let shorter = calls.drop_last();
        assert(shorter.take(k) =~= calls.take(k));
        lemma_replay_classes_grow(shorter, k, x, y);
        lemma_replay_forest(shorter);
        lemma_call_keeps(replay(shorter), calls.last());
    }
}

/// After any permitted history, the two arguments of every `union` in it
/// share one representative.
pub proof fn lemma_replay_unioned_together(calls: Seq<Call>, k: int)
    requires
        permitted_history(calls),
        0 <= k < calls.len(),
        calls[k] is Union,
    ensures
        same_class(replay(calls), calls[k]->root1, calls[k]->root2),
{
    let upto = calls.take(k + 1);
    let root1 = calls[k]->root1;
    let root2 = calls[k]->root2;
    assert(upto.drop_last() =~= calls.take(k));
    assert(upto.last() == calls[k]);
    let p = replay(calls.take(k));
    // The prefix that ends before the call is permitted, and so is the call.
    lemma_prefix_permitted(calls, k + 1);
    lemma_replay_forest(calls.take(k));
    lemma_link(p, root1, root2);
    lemma_root_of_root(p, root1);
    lemma_root_of_root(p, root2);
    assert(replay(upto) == p.update(root2, root1));
    lemma_replay_classes_grow(calls, k + 1, root1, root2);
}

/// Every prefix of a permitted history is a permitted history.
pub proof fn lemma_prefix_permitted(calls: Seq<Call>, k: int)
    requires
        permitted_history(calls),
        0 <= k <= calls.len(),
    ensures
        permitted_history(calls.take(k)),
    decreases calls.len(),
{
    if k == calls.len() {
        assert(calls.take(k) =~= calls);
    } else {
        assert(calls.drop_last().take(k) =~= calls.take(k));
        lemma_prefix_permitted(calls.drop_last(), k);
    }
}

} // verus!
