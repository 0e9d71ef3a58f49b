//! Insertion and removal.
use crate::avl_tree::{AVLTree, Monoid};
use crate::order::{lemma_operators, less, total_order};
use crate::sorted::{
    lemma_contains_join, lemma_promote_first, lemma_promote_last, lemma_with_value_bounds,
    lemma_with_value_join, lemma_with_value_sorted, lemma_without_value_join,
    lemma_without_value_side, with_value, without_value,
};
use std::fmt::Display;
use vstd::prelude::*;

verus! {

impl<T: Monoid + Copy + Eq + Display + Ord> AVLTree<T> {
    /// The tree of the one value `val`.
    pub open spec fn leaf_of(val: T) -> Self {
        <AVLTree<T> as vstd::std_specs::convert::FromSpec<T>>::from_spec(val)
    }

    /// The tree after `insert`. Into the empty tree: the tree of `i`. At a
    /// node of `i`: that node. Else `i` is inserted into the left subtree
    /// where it comes before the value of the node and into the right one
    /// where it comes after it, and the node over the new subtree is rotated.
    pub open spec fn inserted(self, i: T) -> Self
        decreases self,
    {
        let val = self.spec_value();
        let l = self.spec_left();
        let r = self.spec_right();
        if self is Empty {
            Self::leaf_of(i)
        } else if i == val {
            Self::node_of(val, l, r)
        } else if less(i, val) {
            Self::node_of(val, l.inserted(i), r).rotated()
        } else {
            Self::node_of(val, l, r.inserted(i)).rotated()
        }
    }

    /// The tree after `delete`. From the empty tree: the empty tree. At a
    /// node of `i` without subtrees: the empty tree. At a node of `i` with a
    /// right subtree, the least value of that subtree takes the place of `i`
    /// and is removed from the subtree; at one with a left subtree only, the
    /// greatest value of that subtree does so. Else `i` is removed from the
    /// subtree on its side. The node over the new subtree is rotated.
    pub open spec fn removed(self, i: T) -> Self
        decreases self,
    {
        let val = self.spec_value();
        let l = self.spec_left();
        let r = self.spec_right();
        if self is Empty {
            self
        } else if i == val {
            if l is Empty && r is Empty {
                AVLTree::Empty()
            } else if r is Node {
                Self::node_of(r@.first(), l, r.removed(r@.first())).rotated()
            } else {
                Self::node_of(l@.last(), l.removed(l@.last()), r).rotated()
            }
        } else if less(i, val) {
            Self::node_of(val, l.removed(i), r).rotated()
        } else {
            Self::node_of(val, l, r.removed(i)).rotated()
        }
    }

    /// What inserting `i` into `before` gives: `before.inserted(i)`, a
    /// populated tree that meets
    /// the invariant and holds `i` and the values of `before`, as high as
    /// `before` or one higher, and `before` itself where it held `i`.
    pub open spec fn insertion_of(self, before: Self, i: T) -> bool {
        &&& self == before.inserted(i)
        &&& self.well_formed()
        &&& self is Node
        &&& self@ == with_value(before@, i)
        &&& before.spec_height() <= self.spec_height() <= before.spec_height() + 1
        &&& before@.contains(i) ==> self == before
    }

    /// What removing `i` from `before` gives: `before.removed(i)`, a tree
    /// that meets the
    /// invariant and holds the values of `before` but `i`, as high as
    /// `before` or one lower, and `before` itself where it did not hold `i`.
    pub open spec fn removal_of(self, before: Self, i: T) -> bool {
        &&& self == before.removed(i)
        &&& self.well_formed()
        &&& self@ == without_value(before@, i)
        &&& self.spec_height() <= before.spec_height() <= self.spec_height() + 1
        &&& !before@.contains(i) ==> self == before
    }

    /// Inserts `i`. A tree that holds `i` already stays as it is.
    pub fn insert(&mut self, i: T)
        requires
            total_order::<T>(),
            old(self).well_formed(),
            old(self)@.len() < usize::MAX,
        ensures
            final(self).insertion_of(*old(self), i),
        decreases *old(self), 1int,
    {
        let ghost pre = *self;
        let fallback = || -> (r: AVLTree<T>) { AVLTree::Empty() };
        let step = |t: AVLTree<T>| -> (r: AVLTree<T>)
            requires
                t == pre,
            ensures
                r.insertion_of(t, i),
            {
                t.ins(i)
            };
        replace_with::replace_with(self, fallback, step);
    }

    /// The tree with `i` inserted.
    pub(crate) fn ins(self, i: T) -> (r: Self)
        requires
            total_order::<T>(),
            self.well_formed(),
            self@.len() < usize::MAX,
        ensures
            r.insertion_of(self, i),
        decreases self, 0int,
    {
        proof {
            lemma_operators::<T>();
        }
        match self {
            AVLTree::Empty() => {
                proof {
                    Self::lemma_leaf(i);
                    self.lemma_view();
                    assert(with_value(self@, i) =~= seq![i]);
                }
                AVLTree::from(i)
            },
            _ => {
                proof {
                    self.lemma_parts();
                    self.spec_left().lemma_sorted();
                    self.spec_right().lemma_sorted();
                    lemma_with_value_join(
                        self.spec_left()@,
                        self.spec_value(),
                        self.spec_right()@,
                        i,
                    );
                    lemma_contains_join(
                        self.spec_left()@,
                        self.spec_value(),
                        self.spec_right()@,
                        i,
                    );
                    lemma_with_value_sorted(self.spec_left()@, i);
                    lemma_with_value_sorted(self.spec_right()@, i);
                    lemma_with_value_bounds(self.spec_left()@, i, self.spec_value());
                    lemma_with_value_bounds(self.spec_right()@, i, self.spec_value());
                }
                let (val, left, right) = self.destruct();
                if i == val {
                    let mut ans = AVLTree::from_parts(val, left, right);
                    proof {
                        left.lemma_size();
                        right.lemma_size();
                        ans.lemma_refreshed();
                        ans.lemma_same(self);
                    }
                    ans.update();
                    return ans;
                }
                let mut t_left = left;
                let mut t_right = right;
                if i < val {
                    t_left.insert(i);
                } else {
                    t_right.insert(i);
                }
                let mut ans = AVLTree::from_parts(val, t_left, t_right);
                proof {
                    t_left.lemma_size();
                    t_right.lemma_size();
                    ans.lemma_refreshed();
                    if t_left == left && t_right == right {
                        ans.lemma_same(self);
                    }
                }
                ans.balance();
                proof {
                    ans.lemma_parts();
                    ans.lemma_refreshed();
                }
                ans.update();
                ans
            },
        }
    }

    /// Removes `i`. A tree that does not hold `i` stays as it is.
    pub fn delete(&mut self, i: T)
        requires
            total_order::<T>(),
            old(self).well_formed(),
        ensures
            final(self).removal_of(*old(self), i),
        decreases *old(self), 1int,
    {
        let ghost pre = *self;
        let fallback = || -> (r: AVLTree<T>) { AVLTree::Empty() };
        let step = |t: AVLTree<T>| -> (r: AVLTree<T>)
            requires
                t == pre,
            ensures
                r.removal_of(t, i),
            {
                t.del(i)
            };
        replace_with::replace_with(self, fallback, step);
    }

    /// The tree with `i` removed. The value of a removed node with a right
    /// subtree is replaced by the least value of that subtree, that of one
    /// with a left subtree only by the greatest value of it.
    pub(crate) fn del(self, i: T) -> (r: Self)
        requires
            total_order::<T>(),
            self.well_formed(),
        ensures
            r.removal_of(self, i),
        decreases self, 0int,
    {
        proof {
            lemma_operators::<T>();
        }
        if let AVLTree::Empty() = self {
            proof {
                self.lemma_view();
                assert(without_value(self@, i) =~= self@);
            }
            return self;
        }
        proof {
            self.lemma_parts();
            self.spec_left().lemma_sorted();
            self.spec_right().lemma_sorted();
            self.spec_left().lemma_size();
            self.spec_right().lemma_size();
        }
        let (val, mut left, mut right) = self.destruct();
        let mut vert = val;
        if val == i {
            if left.is_empty() && right.is_empty() {
                proof {
                    lemma_without_value_join(left@, val, right@, i);
                    assert(left@ + right@ =~= Seq::<T>::empty());
                    assert(self@.contains(i)) by {
                        assert(self@[0] == i);
                    }
                }
                return AVLTree::Empty();
            }
            if !right.is_empty() {
                vert = right.min();
                proof {
                    lemma_promote_first(left@, val, right@);
                }
                right.delete(vert);
            } else {
                vert = left.max();
                proof {
                    lemma_promote_last(left@, val, right@);
                }
                left.delete(vert);
            }
            proof {
                assert(self@.contains(i)) by {
                    assert(self@[self.spec_left()@.len() as int] == i);
                }
            }
        } else {
            proof {
                lemma_without_value_side(
                    self.spec_left()@,
                    self.spec_value(),
                    self.spec_right()@,
                    i,
                );
            }
            if i < val {
                left.delete(i);
            } else {
                right.delete(i);
            }
        }
        let mut ans = AVLTree::from_parts(vert, left, right);
        proof {
            left.lemma_size();
            right.lemma_size();
            ans.lemma_refreshed();
            if vert == val && left == self.spec_left() && right == self.spec_right() {
                ans.lemma_same(self);
            }
        }
        ans.balance();
        proof {
            if ans is Node {
                ans.lemma_parts();
            }
            ans.lemma_refreshed();
        }
        ans.update();
        ans
    }
}

} // verus!
