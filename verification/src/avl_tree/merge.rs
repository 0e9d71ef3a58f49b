//! Merging two trees whose values do not interleave, and splitting a tree
//! at a pivot.
use crate::avl_tree::{max_nat, near, AVLTree, Monoid};
use crate::order::{lemma_operators, less, total_order};
use crate::sorted::{
    all_before, after, beyond, lemma_before_ends, lemma_before_join, lemma_bounds_join,
    lemma_bounds_move, lemma_keep_bounds, lemma_split_join, lemma_without_end, not_after, up_to,
};
use std::fmt::Display;
use vstd::prelude::*;

verus! {

impl<T: Monoid + Copy + Eq + Display + Ord> AVLTree<T> {
    /// The tree after `avl_merge_with_root`. Where the two trees differ in
    /// height by at most one: the node of `vert` over them. Else `vert` and
    /// the lower tree are merged into the inner subtree of the higher tree,
    /// under the root of the higher tree, and that node is rotated.
    pub open spec fn merged_with_root(vert: T, left: Self, right: Self) -> Self
        decreases left, right,
    {
        if near(left.spec_height(), right.spec_height(), 1) {
            Self::node_of(vert, left, right)
        } else if left.spec_height() > right.spec_height() {
            Self::node_of(
                left.spec_value(),
                left.spec_left(),
                Self::merged_with_root(vert, left.spec_right(), right),
            ).rotated()
        } else {
            Self::node_of(
                right.spec_value(),
                Self::merged_with_root(vert, left, right.spec_left()),
                right.spec_right(),
            ).rotated()
        }
    }

    /// The tree after `avl_merge`: the empty tree for two empty trees; else
    /// the merge under the greatest value of `left`, taken out of `left`,
    /// where `left` holds a value; else the merge under the least value of
    /// `right`, taken out of `right`.
    pub open spec fn merged(left: Self, right: Self) -> Self {
        if left is Empty && right is Empty {
            AVLTree::Empty()
        } else if left is Node {
            Self::merged_with_root(left@.last(), left.removed(left@.last()), right)
        } else {
            Self::merged_with_root(right@.first(), left, right.removed(right@.first()))
        }
    }

    /// The two trees after `divide`. At a node whose value comes after `k`,
    /// the left subtree is divided, and what of it comes after `k` is merged
    /// with the value of the node and the right subtree. At any other node
    /// the right subtree is divided, and what of it does not come after `k`
    /// is merged with the left subtree and the value of the node.
    pub open spec fn divided(self, k: T) -> (Self, Self)
        decreases self,
    {
        let val = self.spec_value();
        let l = self.spec_left();
        let r = self.spec_right();
        if self is Empty {
            (AVLTree::Empty(), AVLTree::Empty())
        } else if less(k, val) {
            let parts = l.divided(k);
            (parts.0, Self::merged(parts.1, Self::merged(Self::leaf_of(val), r)).rotated())
        } else {
            let parts = r.divided(k);
            (Self::merged(Self::merged(l, Self::leaf_of(val)), parts.0).rotated(), parts.1)
        }
    }

    /// The tree of the values of `left`, then `vert`, then the values of
    /// `right`. Where the two trees differ in height by more than one, the
    /// merge descends into the higher one and rebalances on the way back.
    pub fn avl_merge_with_root(vert: T, left: AVLTree<T>, right: AVLTree<T>) -> (r: Self)
        requires
            total_order::<T>(),
            Self::joinable(vert, left, right),
        ensures
            r == Self::merged_with_root(vert, left, right),
            r.well_formed(),
            r is Node,
            r@ == left@ + seq![vert] + right@,
            max_nat(left.spec_height(), right.spec_height()) <= r.spec_height() <= max_nat(
                left.spec_height(),
                right.spec_height(),
            ) + 1,
        decreases left.spec_height() + right.spec_height(),
    {
        proof {
            left.lemma_size();
            right.lemma_size();
        }
        if left.height() <= right.height() + 1 && right.height() <= left.height() + 1 {
            return AVLTree::from_parts(vert, left, right);
        }
        if left.height() > right.height() {
            proof {
                left.lemma_parts();
                lemma_bounds_join(left.spec_left()@, left.spec_value(), left.spec_right()@, vert);
                lemma_bounds_move(right@, vert, left.spec_value());
            }
            let (var, left_t, mut right_t) = left.destruct();
            let ghost inner = right_t@;
            right_t = AVLTree::avl_merge_with_root(vert, right_t, right);
            proof {
                lemma_bounds_join(inner, vert, right@, var);
                left_t.lemma_size();
                right_t.lemma_size();
            }
            let mut tree = AVLTree::from_parts(var, left_t, right_t);
            proof {
                assert(tree@ =~= left@ + seq![vert] + right@);
            }
            tree.balance();
            proof {
                tree.lemma_parts();
                tree.lemma_refreshed();
            }
            tree.update();
            tree
        } else {
            proof {
                right.lemma_parts();
                lemma_bounds_join(
                    right.spec_left()@,
                    right.spec_value(),
                    right.spec_right()@,
                    vert,
                );
                lemma_bounds_move(left@, vert, right.spec_value());
            }
            let (var, mut left_t, right_t) = right.destruct();
            let ghost inner = left_t@;
            left_t = AVLTree::avl_merge_with_root(vert, left, left_t);
            proof {
                lemma_bounds_join(left@, vert, inner, var);
                left_t.lemma_size();
                right_t.lemma_size();
            }
            let mut tree = AVLTree::from_parts(var, left_t, right_t);
            proof {
                assert(tree@ =~= left@ + seq![vert] + right@);
            }
            tree.balance();
            proof {
                tree.lemma_parts();
                tree.lemma_refreshed();
            }
            tree.update();
            tree
        }
    }

    /// The tree of the values of `left` followed by those of `right`. The
    /// greatest value of `left`, or else the least of `right`, becomes the
    /// root of the merge.
    pub fn avl_merge(left: AVLTree<T>, right: AVLTree<T>) -> (r: Self)
        requires
            total_order::<T>(),
            left.well_formed(),
            right.well_formed(),
            all_before(left@, right@),
            left@.len() + right@.len() <= usize::MAX,
        ensures
            r == Self::merged(left, right),
            r.well_formed(),
            r@ == left@ + right@,
    {
        proof {
            left.lemma_size();
            right.lemma_size();
            left.lemma_sorted();
            right.lemma_sorted();
            lemma_before_ends(left@, right@);
        }
        if left.is_empty() && right.is_empty() {
            proof {
                assert(left@ + right@ =~= Seq::<T>::empty());
            }
            return AVLTree::Empty();
        }
        if !left.is_empty() {
            let mut lft = left;
            let vert = lft.max();
            proof {
                lemma_without_end(left@);
                assert(left@.drop_last() + seq![vert] + right@ =~= left@ + right@);
            }
            lft.delete(vert);
            return AVLTree::avl_merge_with_root(vert, lft, right);
        }
        let mut righ = right;
        let vert = righ.min();
        proof {
            lemma_without_end(right@);
            assert(left@ + seq![vert] + right@.drop_first() =~= left@ + right@);
        }
        righ.delete(vert);
        AVLTree::avl_merge_with_root(vert, left, righ)
    }

    /// A node over `left` and what is left of `right` without its least
    /// value, which becomes the value of the node.
    pub fn from_halves(left: AVLTree<T>, right: AVLTree<T>) -> (r: Self)
        requires
            total_order::<T>(),
            left.well_formed(),
            right.well_formed(),
            right is Node,
            all_before(left@, right@),
            left@.len() + right@.len() <= usize::MAX,
        ensures
            r == Self::node_of(right@.first(), left, right.removed(right@.first())),
            r is Node,
            r@ == left@ + right@,
            r.spec_value() == right@.first(),
            r.spec_left() == left,
            r.spec_right().removal_of(right, right@.first()),
            near(left.spec_height(), r.spec_right().spec_height(), 1) ==> r.well_formed(),
    {
        proof {
            left.lemma_size();
            right.lemma_size();
            right.lemma_sorted();
            lemma_before_ends(left@, right@);
            lemma_without_end(right@);
            assert(left@ + seq![right@.first()] + right@.drop_first() =~= left@ + right@);
        }
        let mut right = right;
        let vert = right.min();
        right.delete(vert);
        AVLTree::from_parts(vert, left, right)
    }

    /// Splits the tree in two: the values that do not come after `k`, and
    /// those that do.
    pub fn divide(self, k: T) -> (r: (Self, Self))
        requires
            total_order::<T>(),
            self.well_formed(),
        ensures
            r == self.divided(k),
            r.0.well_formed(),
            r.1.well_formed(),
            r.0@ == up_to(self@, k),
            r.1@ == beyond(self@, k),
        decreases self,
    {
        proof {
            lemma_operators::<T>();
        }
        if let AVLTree::Empty() = self {
            proof {
                self.lemma_view();
                assert(up_to(self@, k) =~= self@);
                assert(beyond(self@, k) =~= self@);
            }
            return (AVLTree::Empty(), AVLTree::Empty());
        }
        proof {
            self.lemma_parts();
            self.spec_left().lemma_size();
            self.spec_right().lemma_size();
            Self::lemma_leaf(self.spec_value());
            lemma_split_join(self.spec_left()@, self.spec_value(), self.spec_right()@, k);
            lemma_before_join(self.spec_left()@, self.spec_value(), self.spec_right()@);
        }
        let (vert, left, right) = self.destruct();
        if k < vert {
            let mut right_t = AVLTree::avl_merge(AVLTree::from(vert), right);
            let (left_t, right_d) = left.divide(k);
            proof {
                lemma_keep_bounds(left@, after(k), vert);
                lemma_before_join(right_d@, vert, right@);
                assert(right_d@ + (seq![vert] + right@) =~= right_d@ + seq![vert] + right@);
            }
            right_t = AVLTree::avl_merge(right_d, right_t);
            proof {
                if right_t is Node {
                    right_t.lemma_parts();
                }
                right_t.lemma_refreshed();
            }
            right_t.balance();
            (left_t, right_t)
        } else {
            let mut left_t = AVLTree::avl_merge(left, AVLTree::from(vert));
            let (left_d, right_t) = right.divide(k);
            proof {
                lemma_keep_bounds(right@, not_after(k), vert);
                lemma_before_join(left@, vert, left_d@);
                assert((left@ + seq![vert]) + left_d@ =~= left@ + seq![vert] + left_d@);
            }
            left_t = AVLTree::avl_merge(left_t, left_d);
            proof {
                if left_t is Node {
                    left_t.lemma_parts();
                }
                left_t.lemma_refreshed();
            }
            left_t.balance();
            (left_t, right_t)
        }
    }

    /// The two trees that `divide` gives for a tree and a pivot can be
    /// merged, and `avl_merge` of them holds the values of the tree again.
    pub proof fn lemma_divide_merge(self, k: T)
        requires
            total_order::<T>(),
            self.well_formed(),
        ensures
            all_before(up_to(self@, k), beyond(self@, k)),
            up_to(self@, k).len() + beyond(self@, k).len() <= usize::MAX,
            up_to(self@, k) + beyond(self@, k) == self@,
    {
        self.lemma_sorted();
        self.lemma_size();
        crate::sorted::lemma_split_order(self@, k);
        crate::sorted::lemma_split_whole(self@, k);
        assert((up_to(self@, k) + beyond(self@, k)).len() == self@.len());
    }
}

} // verus!
