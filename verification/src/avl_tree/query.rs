//! Lookups: membership, rank, and the least and the greatest value.
use crate::avl_tree::{AVLTree, Monoid, Node};
use crate::order::{lemma_operators, total_order};
use crate::sorted::{lemma_bounds_by_ends, lemma_contains_join, lemma_empty_bounds};
use std::fmt::Display;
use vstd::prelude::*;

verus! {

impl<T: Monoid + Copy + Eq + Display + Ord> AVLTree<T> {
    /// Whether the tree holds `i`.
    pub fn find(&self, i: T) -> (r: bool)
        requires
            total_order::<T>(),
            self.well_formed(),
        ensures
            r == self@.contains(i),
        decreases self,
    {
        proof {
            lemma_operators::<T>();
        }
        match self {
            AVLTree::Empty() => false,
            AVLTree::Node(Node { val, left, right, .. }) => {
                proof {
                    lemma_contains_join(left@, *val, right@, i);
                }
                if i == *val {
                    return true;
                }
                if i > *val {
                    right.find(i)
                } else {
                    left.find(i)
                }
            },
        }
    }

    /// The value of rank `i`, counted from 0 in increasing order.
    pub fn index(&self, i: usize) -> (r: T)
        requires
            self.well_formed(),
            i < self@.len(),
        ensures
            r == self@[i as int],
        decreases self,
    {
        match self {
            AVLTree::Empty() => vstd::pervasive::unreached(),
            AVLTree::Node(Node { val, left, right, .. }) => {
                proof {
                    left.lemma_size();
                    right.lemma_size();
                }
                if i == left.size() {
                    return *val;
                }
                if i < left.size() {
                    left.index(i)
                } else {
                    right.index(i - left.size() - 1)
                }
            },
        }
    }

    /// The leftmost value of a populated tree: its least one.
    pub fn min(&self) -> (r: T)
        requires
            self is Node,
        ensures
            r == self@.first(),
        decreases self,
    {
        match self {
            AVLTree::Empty() => vstd::pervasive::unreached(),
            AVLTree::Node(Node { val, left, .. }) => {
                proof {
                    left.lemma_view();
                }
                if left.is_empty() {
                    return *val;
                }
                left.min()
            },
        }
    }

    /// The rightmost value of a populated tree: its greatest one.
    pub fn max(&self) -> (r: T)
        requires
            self is Node,
        ensures
            r == self@.last(),
        decreases self,
    {
        match self {
            AVLTree::Empty() => vstd::pervasive::unreached(),
            AVLTree::Node(Node { val, right, .. }) => {
                proof {
                    right.lemma_view();
                }
                if right.is_empty() {
                    return *val;
                }
                right.max()
            },
        }
    }

    /// Whether the tree meets its invariant.
    pub fn is_well_formed(&self) -> (r: bool)
        requires
            total_order::<T>(),
        ensures
            r == self.well_formed(),
        decreases self,
    {
        proof {
            lemma_operators::<T>();
        }
        match self {
            AVLTree::Empty() => true,
            AVLTree::Node(Node { val, left, right, height, size, sum }) => {
                if !left.is_well_formed() || !right.is_well_formed() {
                    return false;
                }
                proof {
                    left.lemma_sorted();
                    right.lemma_sorted();
                    left.lemma_size();
                    right.lemma_size();
                    lemma_empty_bounds(*val);
                    if **left is Node {
                        lemma_bounds_by_ends(left@, *val);
                    }
                    if **right is Node {
                        lemma_bounds_by_ends(right@, *val);
                    }
                }
                if !left.is_empty() && !(left.max() < *val) {
                    return false;
                }
                if !right.is_empty() && !(*val < right.min()) {
                    return false;
                }
                let lh = left.height();
                let rh = right.height();
                if (lh > rh && lh - rh > 1) || (rh > lh && rh - lh > 1) {
                    return false;
                }
                let top = if lh >= rh {
                    lh
                } else {
                    rh
                };
                if *height == 0 || *height - 1 != top {
                    return false;
                }
                if *size == 0 || *size - 1 < left.size() || *size - 1 - left.size()
                    != right.size() {
                    return false;
                }
                *sum == val.mappend(left.sum().mappend(right.sum()))
            },
        }
    }
}

} // verus!
