//! Sequences of insertions and removals, and which values are held after
//! them.
use crate::avl_tree::{AVLTree, Monoid};
use crate::order::total_order;
use crate::sorted::{
    lemma_with_value_member, lemma_with_value_sorted, lemma_without_value_member,
    lemma_without_value_sorted, strictly_sorted, with_value, without_value,
};
use std::fmt::Display;
use vstd::prelude::*;

verus! {

/// One step of a history: the insertion or the removal of a value.
pub enum Edit<T> {
    Insert(T),
    Delete(T),
}

/// The values held after the steps `ops` on what held nothing, in
/// increasing order: the view of a tree after the same calls of `insert`
/// and `delete` on the empty tree.
pub open spec fn replay<T: Ord>(ops: Seq<Edit<T>>) -> Seq<T>
    decreases ops.len(),
{
    if ops.len() == 0 {
        Seq::empty()
    } else {
        match ops.last() {
            Edit::Insert(v) => with_value(replay(ops.drop_last()), v),
            Edit::Delete(v) => without_value(replay(ops.drop_last()), v),
        }
    }
}

/// No step of `ops` after step `i` removes `v`.
pub open spec fn kept_since<T>(ops: Seq<Edit<T>>, i: int, v: T) -> bool {
    forall|j: int| i < j < ops.len() ==> #[trigger] ops[j] != Edit::Delete(v)
}

/// Step `i` of `ops` inserts `v`, and no later step removes it.
pub open spec fn inserted_at<T>(ops: Seq<Edit<T>>, i: int, v: T) -> bool {
    0 <= i < ops.len() && ops[i] == Edit::Insert(v) && kept_since(ops, i, v)
}

/// `ops` inserts `v` and does not remove it later.
pub open spec fn held_after<T>(ops: Seq<Edit<T>>, v: T) -> bool {
    exists|i: int| #[trigger] inserted_at(ops, i, v)
}

/// After any sequence of insertions and removals the values held are
/// sorted, and a value is held exactly where it was inserted and not removed
/// later.
pub proof fn lemma_replay<T: Ord>(ops: Seq<Edit<T>>, v: T)
    requires
        total_order::<T>(),
    ensures
        strictly_sorted(replay(ops)),
        replay(ops).contains(v) <==> held_after(ops, v),
    decreases ops.len(),
{
    if ops.len() == 0 {
        crate::sorted::lemma_empty_bounds(v);
        assert(!held_after(ops, v)) by {
            if held_after(ops, v) {
                let i = choose|i: int| #[trigger] inserted_at(ops, i, v);
            }
        }
    } else {
        let rest = ops.drop_last();
        let n = ops.len() - 1;
        lemma_replay(rest, v);
        assert forall|j: int| 0 <= j < n implies rest[j] == ops[j] by {}
        if held_after(rest, v) {
            let i = choose|i: int| #[trigger] inserted_at(rest, i, v);
            assert(rest[i] == ops[i]);
            assert forall|j: int| i < j < n implies #[trigger] ops[j] != Edit::Delete(v) by {
                assert(rest[j] == ops[j]);
            }
        }
        if held_after(ops, v) {
            let i = choose|i: int| #[trigger] inserted_at(ops, i, v);
            if i < n {
                assert forall|j: int| i < j < rest.len() implies #[trigger] rest[j]
                    != Edit::Delete(v) by {
                    assert(rest[j] == ops[j]);
                }
                assert(inserted_at(rest, i, v));
            }
        }
        match ops.last() {
            Edit::Insert(x) => {
                lemma_with_value_member(replay(rest), x, v);
                lemma_with_value_sorted(replay(rest), x);
                if v == x {
                    assert(inserted_at(ops, n, v));
                }
                if held_after(rest, v) {
                    let i = choose|i: int| #[trigger] inserted_at(rest, i, v);
                    assert(inserted_at(ops, i, v));
                }
            },
            Edit::Delete(x) => {
                lemma_without_value_member(replay(rest), x, v);
                lemma_without_value_sorted(replay(rest), x);
                if held_after(rest, v) && v != x {
                    let i = choose|i: int| #[trigger] inserted_at(rest, i, v);
                    assert(inserted_at(ops, i, v));
                }
                if held_after(ops, v) {
                    let i = choose|i: int| #[trigger] inserted_at(ops, i, v);
                    assert(i < n);
                    assert(ops[n] != Edit::Delete(v));
                }
            },
        }
    }
}

/// The values held after any sequence of steps are no more than the steps.
pub proof fn lemma_replay_len<T: Ord>(ops: Seq<Edit<T>>)
    requires
        total_order::<T>(),
    ensures
        replay(ops).len() <= ops.len(),
    decreases ops.len(),
{
    if ops.len() > 0 {
        let rest = ops.drop_last();
        lemma_replay_len(rest);
        match ops.last() {
            Edit::Insert(x) => {
                lemma_replay(rest, x);
                lemma_with_value_sorted(replay(rest), x);
            },
            Edit::Delete(x) => {
                crate::sorted::lemma_keep_pred(replay(rest), crate::sorted::other_than(x));
            },
        }
    }
}

impl<T: Monoid + Copy + Eq + Display + Ord> AVLTree<T> {
    /// The tree after the steps `ops` on the empty tree, each done by
    /// `insert` or `delete`. It holds a value exactly where `ops` inserts it
    /// and does not remove it later.
    pub fn from_history(ops: &Vec<Edit<T>>) -> (r: Self)
        requires
            total_order::<T>(),
            ops.len() < usize::MAX,
        ensures
            r.well_formed(),
            r@ == replay(ops@),
            forall|v: T| r@.contains(v) <==> #[trigger] held_after(ops@, v),
    {
        let mut tree: AVLTree<T> = AVLTree::Empty();
        proof {
            tree.lemma_view();
            assert(ops@.take(0) =~= Seq::<Edit<T>>::empty());
        }
        let mut k: usize = 0;
        while k < ops.len()
            invariant
                total_order::<T>(),
                ops.len() < usize::MAX,
                k <= ops.len(),
                tree.well_formed(),
                tree@ == replay(ops@.take(k as int)),
            decreases ops.len() - k,
        {
            proof {
                lemma_replay_len(ops@.take(k as int));
                assert(ops@.take(k + 1).drop_last() =~= ops@.take(k as int));
                assert(ops@.take(k + 1).last() == ops@[k as int]);
            }
            match &ops[k] {
                Edit::Insert(v) => {
                    tree.insert(*v);
                },
                Edit::Delete(v) => {
                    tree.delete(*v);
                },
            }
            k = k + 1;
        }
        proof {
            assert(ops@.take(k as int) =~= ops@);
            assert forall|v: T| tree@.contains(v) <==> #[trigger] held_after(ops@, v) by {
                lemma_replay(ops@, v);
            }
        }
        tree
    }
}

} // verus!
