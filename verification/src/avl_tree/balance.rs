//! Recomputing what a node records, and the rotations that restore balance.
use crate::avl_tree::{lemma_monoid, max_nat, near, AVLTree, Monoid, Node};
use crate::order::{less, total_order};
use crate::sorted::{all_above, all_below, lemma_bounds_join, lemma_bounds_move};
use std::fmt::Display;
use vstd::prelude::*;

verus! {

impl<T: Monoid + Copy + Eq + Display + Ord> AVLTree<T> {
    /// The tree with the height, size and aggregate of its root computed
    /// anew from what its two subtrees record.
    pub closed spec fn refreshed(self) -> Self {
        match self {
            AVLTree::Empty() => AVLTree::Empty(),
            AVLTree::Node(n) => AVLTree::Node(
                Node {
                    val: n.val,
                    left: n.left,
                    right: n.right,
                    height: (1 + max_nat(n.left.spec_height(), n.right.spec_height())) as usize,
                    size: (n.left.spec_size() + n.right.spec_size() + 1) as usize,
                    sum: T::combine(n.val, T::combine(n.left.spec_sum(), n.right.spec_sum())),
                },
            ),
        }
    }

    /// The height and the size of the root can be computed anew without
    /// leaving `usize`.
    pub open spec fn countable(self) -> bool {
        &&& max_nat(self.spec_left().spec_height(), self.spec_right().spec_height()) < usize::MAX
        &&& self.spec_left().spec_size() + self.spec_right().spec_size() < usize::MAX
    }

    /// What `refreshed` keeps and what it computes.
    pub proof fn lemma_refreshed(self)
        requires
            self.countable(),
        ensures
            self is Empty ==> self.refreshed() is Empty,
            self is Node ==> self.refreshed() is Node,
            self.refreshed()@ == self@,
            self.refreshed().spec_value() == self.spec_value(),
            self.refreshed().spec_left() == self.spec_left(),
            self.refreshed().spec_right() == self.spec_right(),
            self is Node ==> self.refreshed().spec_height() == 1 + max_nat(
                self.spec_left().spec_height(),
                self.spec_right().spec_height(),
            ),
            self is Node ==> self.refreshed().spec_size() == self.spec_left().spec_size()
                + self.spec_right().spec_size() + 1,
            self is Node ==> self.refreshed().spec_sum() == T::combine(
                self.spec_value(),
                T::combine(self.spec_left().spec_sum(), self.spec_right().spec_sum()),
            ),
            self.refreshed().refreshed() == self.refreshed(),
            self.well_formed() ==> self.refreshed() == self,
    {
    }

    /// Computes anew what the root records.
    pub(crate) fn upd(self) -> (r: Self)
        requires
            self.countable(),
        ensures
            r == self.refreshed(),
    {
        if let AVLTree::Empty() = self {
            return AVLTree::Empty();
        }
        let (val, left, right) = self.destruct();
        let lh = left.height();
        let rh = right.height();
        let height = if lh >= rh {
            lh + 1
        } else {
            rh + 1
        };
        let size = left.size() + right.size() + 1;
        let below = left.sum().mappend(right.sum());
        let sum = val.mappend(below);
        proof {
            lemma_monoid(left.spec_sum(), right.spec_sum(), val);
            lemma_monoid(val, below, val);
        }
        AVLTree::from((val, left, right, height, size, sum))
    }

    /// Computes anew what the root records, in place.
    pub(crate) fn update(&mut self)
        requires
            old(self).countable(),
        ensures
            *final(self) == old(self).refreshed(),
    {
        let ghost pre = *self;
        let fallback = || -> (r: AVLTree<T>) { AVLTree::Empty() };
        let step = |t: AVLTree<T>| -> (r: AVLTree<T>)
            requires
                t == pre,
            ensures
                r == t.refreshed(),
            {
                t.upd()
            };
        replace_with::replace_with(self, fallback, step);
    }

    /// A node with value `val` over `left` and `right`, with its height,
    /// size and aggregate computed from what the two record. It meets the
    /// invariant where the two can be joined under `val` and differ in height
    /// by at most one.
    pub fn from_parts(val: T, left: AVLTree<T>, right: AVLTree<T>) -> (r: Self)
        requires
            Self::joinable(val, left, right) || {
                &&& max_nat(left.spec_height(), right.spec_height()) < usize::MAX
                &&& left.spec_size() + right.spec_size() < usize::MAX
            },
        ensures
            r == Self::node_of(val, left, right),
            r is Node,
            r.spec_value() == val,
            r.spec_left() == left,
            r.spec_right() == right,
            r@ == left@ + seq![val] + right@,
            r.spec_height() == 1 + max_nat(left.spec_height(), right.spec_height()),
            r.spec_size() == left.spec_size() + right.spec_size() + 1,
            r.spec_sum() == T::combine(val, T::combine(left.spec_sum(), right.spec_sum())),
            Self::joinable(val, left, right) ==> r.spec_size() == left@.len() + right@.len() + 1,
            Self::joinable(val, left, right) && near(left.spec_height(), right.spec_height(), 1)
                ==> r.well_formed(),
    {
        proof {
            if Self::joinable(val, left, right) {
                left.lemma_size();
                right.lemma_size();
            }
        }
        let mut tree = AVLTree::Node(
            Node {
                val,
                sum: T::MEMPTY,
                left: Box::new(left),
                right: Box::new(right),
                height: 0,
                size: 0,
            },
        );
        proof {
            tree.lemma_refreshed();
        }
        tree.update();
        tree
    }
}

impl<T: Monoid + Copy + Eq + Display + Ord> AVLTree<T> {
    /// The node with value `val` over `left` and `right` that records the
    /// height, size and aggregate computed from what the two record.
    pub closed spec fn node_of(val: T, left: Self, right: Self) -> Self {
        AVLTree::Node(
            Node {
                val,
                left: Box::new(left),
                right: Box::new(right),
                height: 0,
                size: 0,
                sum: T::MEMPTY,
            },
        ).refreshed()
    }

    /// What `node_of` holds.
    pub proof fn lemma_node_of(val: T, left: Self, right: Self)
        ensures
            Self::node_of(val, left, right) is Node,
            Self::node_of(val, left, right).spec_value() == val,
            Self::node_of(val, left, right).spec_left() == left,
            Self::node_of(val, left, right).spec_right() == right,
            Self::node_of(val, left, right)@ == left@ + seq![val] + right@,
            Self::node_of(val, left, right).spec_sum() == T::combine(
                val,
                T::combine(left.spec_sum(), right.spec_sum()),
            ),
            max_nat(left.spec_height(), right.spec_height()) < usize::MAX ==> Self::node_of(
                val,
                left,
                right,
            ).spec_height() == 1 + max_nat(left.spec_height(), right.spec_height()),
            left.spec_size() + right.spec_size() < usize::MAX ==> Self::node_of(
                val,
                left,
                right,
            ).spec_size() == left.spec_size() + right.spec_size() + 1,
    {
    }

    /// The rotation of a node with value `val` whose left subtree is higher
    /// than the right one by more than one. Where the left child of `left`
    /// is at least as high as its right child, `left` comes to the top, over
    /// its left child and a node of `val`. Else the right child of `left`
    /// comes to the top, over a node of the value of `left` and a node of
    /// `val`.
    pub open spec fn lifted_left(val: T, left: Self, right: Self) -> Self {
        if left.spec_left().spec_height() >= left.spec_right().spec_height() {
            Self::node_of(
                left.spec_value(),
                left.spec_left(),
                Self::node_of(val, left.spec_right(), right),
            )
        } else {
            let inner = left.spec_right();
            Self::node_of(
                inner.spec_value(),
                Self::node_of(left.spec_value(), left.spec_left(), inner.spec_left()),
                Self::node_of(val, inner.spec_right(), right),
            )
        }
    }

    /// The rotation of a node with value `val` whose right subtree is higher
    /// than the left one by more than one: the mirror of `lifted_left`.
    pub open spec fn lifted_right(val: T, left: Self, right: Self) -> Self {
        if right.spec_right().spec_height() >= right.spec_left().spec_height() {
            Self::node_of(
                right.spec_value(),
                Self::node_of(val, left, right.spec_left()),
                right.spec_right(),
            )
        } else {
            let inner = right.spec_left();
            Self::node_of(
                inner.spec_value(),
                Self::node_of(val, left, inner.spec_left()),
                Self::node_of(right.spec_value(), inner.spec_right(), right.spec_right()),
            )
        }
    }

    /// The tree after `rotate`: the empty tree for the empty tree; for a
    /// node whose subtrees differ in height by more than one, the rotation
    /// that lifts the higher one; and else the node with what it records
    /// computed anew.
    #[verifier::opaque]
    pub open spec fn rotated(self) -> Self {
        let val = self.spec_value();
        let l = self.spec_left();
        let r = self.spec_right();
        if self is Empty {
            self
        } else if l.spec_height() > r.spec_height() + 1 {
            Self::lifted_left(val, l, r)
        } else if r.spec_height() > l.spec_height() + 1 {
            Self::lifted_right(val, l, r)
        } else {
            Self::node_of(val, l, r)
        }
    }

    /// What a rotation is applied to: a node over two subtrees that could be
    /// joined under its value, their heights at most two apart.
    pub open spec fn rotatable(self) -> bool {
        self is Node ==> {
            &&& Self::joinable(self.spec_value(), self.spec_left(), self.spec_right())
            &&& near(self.spec_left().spec_height(), self.spec_right().spec_height(), 2)
        }
    }

    /// What a rotation gives for `before`: the tree `before.rotated()`, which
    /// has the same values and meets the invariant, of the height of the higher subtree of `before`
    /// or one more, and of exactly one more where the subtrees of `before`
    /// are at most one apart.
    pub open spec fn rotation_of(self, before: Self) -> bool {
        let lh = before.spec_left().spec_height();
        let rh = before.spec_right().spec_height();
        &&& self == before.rotated()
        &&& self.well_formed()
        &&& self@ == before@
        &&& before is Empty ==> self is Empty
        &&& before is Node ==> {
            &&& self is Node
            &&& max_nat(lh, rh) <= self.spec_height() <= max_nat(lh, rh) + 1
            &&& near(lh, rh, 1) ==> self.spec_height() == max_nat(lh, rh) + 1
            &&& near(lh, rh, 1) ==> self == before.refreshed()
        }
    }

    /// The parts of a populated tree that meets the invariant can be joined
    /// under its value.
    pub proof fn lemma_parts(self)
        requires
            self is Node,
            self.well_formed(),
        ensures
            Self::joinable(self.spec_value(), self.spec_left(), self.spec_right()),
            self@ == self.spec_left()@ + seq![self.spec_value()] + self.spec_right()@,
            self@.len() == self.spec_left()@.len() + self.spec_right()@.len() + 1,
            self.countable(),
    {
        self.lemma_size();
        self.spec_left().lemma_size();
        self.spec_right().lemma_size();
    }

    /// Rotates a node whose left subtree is two higher than its right one.
    fn lift_left(val: T, left: Self, right: Self) -> (r: Self)
        requires
            total_order::<T>(),
            Self::joinable(val, left, right),
            left.spec_height() == right.spec_height() + 2,
        ensures
            r == Self::lifted_left(val, left, right),
            r.well_formed(),
            r is Node,
            r@ == left@ + seq![val] + right@,
            left.spec_height() <= r.spec_height() <= left.spec_height() + 1,
    {
        proof {
            left.lemma_size();
            right.lemma_size();
            left.lemma_parts();
            lemma_bounds_join(left.spec_left()@, left.spec_value(), left.spec_right()@, val);
        }
        let (d_val, d_left, d_right) = left.destruct();
        if d_left.height() >= d_right.height() {
            let mut right_t = AVLTree::from_parts(val, d_right, right);
            proof {
                right_t.lemma_parts();
                right_t.lemma_refreshed();
                lemma_bounds_move(right@, val, d_val);
                lemma_bounds_join(d_right@, val, right@, d_val);
            }
            right_t.update();
            let mut ans = AVLTree::from_parts(d_val, d_left, right_t);
            proof {
                ans.lemma_parts();
                ans.lemma_refreshed();
                assert(ans@ =~= left@ + seq![val] + right@);
            }
            ans.update();
            ans
        } else {
            Self::lift_left_inner(val, d_val, d_left, d_right, right)
        }
    }

    /// The double rotation of a node whose left subtree is two higher than
    /// its right one: the right child of the left child comes to the top.
    fn lift_left_inner(val: T, d_val: T, d_left: Self, d_right: Self, right: Self) -> (r: Self)
        requires
            total_order::<T>(),
            Self::joinable(d_val, d_left, d_right),
            Self::joinable(val, d_right, right),
            all_below(d_left@, val),
            less(d_val, val),
            d_left@.len() + d_right@.len() + right@.len() + 1 < usize::MAX,
            d_right.spec_height() == right.spec_height() + 1,
            d_left.spec_height() == right.spec_height(),
        ensures
            r == Self::node_of(
                d_right.spec_value(),
                Self::node_of(d_val, d_left, d_right.spec_left()),
                Self::node_of(val, d_right.spec_right(), right),
            ),
            r.well_formed(),
            r is Node,
            r@ == (d_left@ + seq![d_val] + d_right@) + seq![val] + right@,
            r.spec_height() == right.spec_height() + 2,
    {
        proof {
            d_right.lemma_size();
            d_right.lemma_parts();
            lemma_bounds_join(
                d_right.spec_left()@,
                d_right.spec_value(),
                d_right.spec_right()@,
                val,
            );
            lemma_bounds_join(
                d_right.spec_left()@,
                d_right.spec_value(),
                d_right.spec_right()@,
                d_val,
            );
        }
        let (dd_val, dd_left, dd_right) = d_right.destruct();
        let mut left_t = AVLTree::from_parts(d_val, d_left, dd_left);
        proof {
            left_t.lemma_parts();
            left_t.lemma_refreshed();
        }
        left_t.update();
        let mut right_t = AVLTree::from_parts(val, dd_right, right);
        proof {
            right_t.lemma_parts();
            right_t.lemma_refreshed();
            lemma_bounds_move(d_left@, d_val, dd_val);
            lemma_bounds_move(right@, val, dd_val);
            lemma_bounds_join(d_left@, d_val, dd_left@, dd_val);
            lemma_bounds_join(dd_right@, val, right@, dd_val);
        }
        right_t.update();
        let mut ans = AVLTree::from_parts(dd_val, left_t, right_t);
        proof {
            ans.lemma_parts();
            ans.lemma_refreshed();
            assert(ans@ =~= (d_left@ + seq![d_val] + d_right@) + seq![val] + right@);
        }
        ans.update();
        ans
    }

    /// Rotates a node whose right subtree is two higher than its left one.
    fn lift_right(val: T, left: Self, right: Self) -> (r: Self)
        requires
            total_order::<T>(),
            Self::joinable(val, left, right),
            right.spec_height() == left.spec_height() + 2,
        ensures
            r == Self::lifted_right(val, left, right),
            r.well_formed(),
            r is Node,
            r@ == left@ + seq![val] + right@,
            right.spec_height() <= r.spec_height() <= right.spec_height() + 1,
    {
        proof {
            left.lemma_size();
            right.lemma_size();
            right.lemma_parts();
            lemma_bounds_join(right.spec_left()@, right.spec_value(), right.spec_right()@, val);
        }
        let (d_val, d_left, d_right) = right.destruct();
        if d_right.height() >= d_left.height() {
            let mut left_t = AVLTree::from_parts(val, left, d_left);
            proof {
                left_t.lemma_parts();
                left_t.lemma_refreshed();
                lemma_bounds_move(left@, val, d_val);
                lemma_bounds_join(left@, val, d_left@, d_val);
            }
            left_t.update();
            let mut ans = AVLTree::from_parts(d_val, left_t, d_right);
            proof {
                ans.lemma_parts();
                ans.lemma_refreshed();
                assert(ans@ =~= left@ + seq![val] + right@);
            }
            ans.update();
            ans
        } else {
            Self::lift_right_inner(val, left, d_val, d_left, d_right)
        }
    }

    /// The double rotation of a node whose right subtree is two higher than
    /// its left one: the left child of the right child comes to the top.
    fn lift_right_inner(val: T, left: Self, d_val: T, d_left: Self, d_right: Self) -> (r: Self)
        requires
            total_order::<T>(),
            Self::joinable(d_val, d_left, d_right),
            Self::joinable(val, left, d_left),
            all_above(d_right@, val),
            less(val, d_val),
            left@.len() + d_left@.len() + d_right@.len() + 1 < usize::MAX,
            d_left.spec_height() == left.spec_height() + 1,
            d_right.spec_height() == left.spec_height(),
        ensures
            r == Self::node_of(
                d_left.spec_value(),
                Self::node_of(val, left, d_left.spec_left()),
                Self::node_of(d_val, d_left.spec_right(), d_right),
            ),
            r.well_formed(),
            r is Node,
            r@ == left@ + seq![val] + (d_left@ + seq![d_val] + d_right@),
            r.spec_height() == left.spec_height() + 2,
    {
        proof {
            d_left.lemma_size();
            d_left.lemma_parts();
            lemma_bounds_join(
                d_left.spec_left()@,
                d_left.spec_value(),
                d_left.spec_right()@,
                val,
            );
            lemma_bounds_join(
                d_left.spec_left()@,
                d_left.spec_value(),
                d_left.spec_right()@,
                d_val,
            );
        }
        let (dd_val, dd_left, dd_right) = d_left.destruct();
        let mut left_t = AVLTree::from_parts(val, left, dd_left);
        proof {
            left_t.lemma_parts();
            left_t.lemma_refreshed();
        }
        left_t.update();
        let mut right_t = AVLTree::from_parts(d_val, dd_right, d_right);
        proof {
            right_t.lemma_parts();
            right_t.lemma_refreshed();
            lemma_bounds_move(left@, val, dd_val);
            lemma_bounds_move(d_right@, d_val, dd_val);
            lemma_bounds_join(left@, val, dd_left@, dd_val);
            lemma_bounds_join(dd_right@, d_val, d_right@, dd_val);
        }
        right_t.update();
        let mut ans = AVLTree::from_parts(dd_val, left_t, right_t);
        proof {
            ans.lemma_parts();
            ans.lemma_refreshed();
            assert(ans@ =~= left@ + seq![val] + (d_left@ + seq![d_val] + d_right@));
        }
        ans.update();
        ans
    }

    /// Restores the balance of a node whose subtrees are at most two apart
    /// in height, by a single or a double rotation. A single rotation is
    /// taken where the outer grandchild is at least as high as the inner.
    pub(crate) fn rotate(self) -> (r: Self)
        requires
            total_order::<T>(),
            self.rotatable(),
        ensures
            r.rotation_of(self),
    {
        proof {
            reveal(AVLTree::rotated);
        }
        if let AVLTree::Empty() = self {
            return AVLTree::Empty();
        }
        proof {
            self.spec_left().lemma_size();
            self.spec_right().lemma_size();
            self.lemma_refreshed();
        }
        let (val, left, right) = self.destruct();
        if left.height() > right.height() && left.height() - right.height() > 1 {
            return Self::lift_left(val, left, right);
        } else if left.height() < right.height() && right.height() - left.height() > 1 {
            return Self::lift_right(val, left, right);
        }
        let mut ans = AVLTree::from_parts(val, left, right);
        proof {
            ans.lemma_parts();
            ans.lemma_refreshed();
        }
        ans.update();
        ans
    }

    /// Restores the balance of a node in place.
    pub(crate) fn balance(&mut self)
        requires
            total_order::<T>(),
            old(self).rotatable(),
        ensures
            final(self).rotation_of(*old(self)),
    {
        let ghost pre = *self;
        let fallback = || -> (r: AVLTree<T>) { AVLTree::Empty() };
        let step = |t: AVLTree<T>| -> (r: AVLTree<T>)
            requires
                t == pre,
            ensures
                r.rotation_of(t),
            {
                t.rotate()
            };
        replace_with::replace_with(self, fallback, step);
    }
}

impl<T: Monoid + Copy + Eq + Display + Ord> vstd::std_specs::convert::FromSpecImpl<
    (T, AVLTree<T>, AVLTree<T>, usize, usize, T),
> for AVLTree<T> {
    open spec fn obeys_from_spec() -> bool {
        true
    }

    closed spec fn from_spec(v: (T, AVLTree<T>, AVLTree<T>, usize, usize, T)) -> Self {
        AVLTree::Node(
            Node {
                val: v.0,
                left: Box::new(v.1),
                right: Box::new(v.2),
                height: v.3,
                size: v.4,
                sum: v.5,
            },
        )
    }
}

impl<T: Monoid + Copy + Eq + Display + Ord> AVLTree<T> {
    /// What the node made of given parts holds and records.
    pub proof fn lemma_from_all(v: (T, AVLTree<T>, AVLTree<T>, usize, usize, T))
        ensures
            ({
                let t = <AVLTree<T> as vstd::std_specs::convert::FromSpec<
                    (T, AVLTree<T>, AVLTree<T>, usize, usize, T),
                >>::from_spec(v);
                &&& t is Node
                &&& t.spec_value() == v.0
                &&& t.spec_left() == v.1
                &&& t.spec_right() == v.2
                &&& t.spec_height() == v.3
                &&& t.spec_size() == v.4
                &&& t.spec_sum() == v.5
            }),
    {
    }
}

/// A node made of all that it holds and records, as given.
impl<T: Monoid + Copy + Eq + Display + Ord> From<
    (T, AVLTree<T>, AVLTree<T>, usize, usize, T),
> for AVLTree<T> {
    fn from(v: (T, AVLTree<T>, AVLTree<T>, usize, usize, T)) -> (r: Self) {
        let (val, left, right, height, size, sum) = v;
        AVLTree::Node(
            Node { val, left: Box::new(left), right: Box::new(right), height, size, sum },
        )
    }
}

} // verus!
