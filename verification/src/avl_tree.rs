//! A height-balanced binary search tree over a totally ordered element type
//! with an associative aggregate. Every node keeps the height, the size and
//! the aggregate of its subtree.
use crate::sorted::{all_above, all_below, strictly_sorted};
use std::fmt::Display;
use vstd::prelude::*;

pub mod balance;
pub mod edit;
pub mod merge;
pub mod query;
pub mod range;
pub mod render;
pub mod display;

verus! {

/// An identity value and an associative operation on the element type.
pub trait Monoid: Sized {
    /// The identity of `mappend`.
    const MEMPTY: Self;

    /// The value that `mappend` computes.
    spec fn combine(self, other: Self) -> Self;

    /// Combines two values.
    fn mappend(self, other: Self) -> (r: Self)
        ensures
            r == self.combine(other),
    ;

    /// `MEMPTY` is a left and a right identity of `combine`.
    proof fn lemma_identity(a: Self)
        ensures
            Self::MEMPTY.combine(a) == a,
            a.combine(Self::MEMPTY) == a,
    ;

    /// `combine` is associative.
    proof fn lemma_associative(a: Self, b: Self, c: Self)
        ensures
            a.combine(b).combine(c) == a.combine(b.combine(c)),
    ;
}

/// The laws of a monoid at given values.
pub proof fn lemma_monoid<T: Monoid>(a: T, b: T, c: T)
    ensures
        T::combine(T::MEMPTY, a) == a,
        T::combine(a, T::MEMPTY) == a,
        T::combine(T::combine(a, b), c) == T::combine(a, T::combine(b, c)),
{
    T::lemma_identity(a);
    T::lemma_associative(a, b, c);
}

/// Signed integers under wrapping addition.
impl Monoid for i64 {
    const MEMPTY: Self = 0i64;

    open spec fn combine(self, other: Self) -> Self {
        self.wrapping_add(other)
    }

    fn mappend(self, other: Self) -> (r: Self) {
        self.wrapping_add(other)
    }

    proof fn lemma_identity(a: Self) {
    }

    proof fn lemma_associative(a: Self, b: Self, c: Self) {
    }
}

/// Unsigned integers under wrapping addition.
impl Monoid for u64 {
    const MEMPTY: Self = 0u64;

    open spec fn combine(self, other: Self) -> Self {
        self.wrapping_add(other)
    }

    fn mappend(self, other: Self) -> (r: Self) {
        self.wrapping_add(other)
    }

    proof fn lemma_identity(a: Self) {
    }

    proof fn lemma_associative(a: Self, b: Self, c: Self) {
    }
}

/// The identity of the two integer monoids is 0, and their operation is
/// wrapping addition.
pub proof fn lemma_integer_monoids()
    ensures
        <i64 as Monoid>::MEMPTY == 0,
        <u64 as Monoid>::MEMPTY == 0,
        forall|a: i64, b: i64| #[trigger] a.combine(b) == a.wrapping_add(b),
        forall|a: u64, b: u64| #[trigger] a.combine(b) == a.wrapping_add(b),
        forall|a: i64, b: i64| #[trigger] a.combine(b) == b.combine(a),
        forall|a: u64, b: u64| #[trigger] a.combine(b) == b.combine(a),
{
}

/// A populated node: its value, its two subtrees, and the height, size and
/// aggregate of the subtree that it roots.
#[derive(PartialEq, Eq)]
pub struct Node<T: Monoid + Copy + Eq + Display + Ord> {
    val: T,
    left: Box<AVLTree<T>>,
    right: Box<AVLTree<T>>,
    height: usize,
    size: usize,
    sum: T,
}

/// A tree: empty, or a node.
#[derive(PartialEq, Eq)]
pub enum AVLTree<T: Monoid + Copy + Eq + Display + Ord> {
    Empty(),
    Node(Node<T>),
}

impl<T: Monoid + Copy + Eq + Display + Ord> Clone for Node<T> {
    fn clone(&self) -> (r: Self)
        ensures
            r == *self,
    {
        Node {
            val: self.val,
            left: Box::new(self.left.duplicate()),
            right: Box::new(self.right.duplicate()),
            height: self.height,
            size: self.size,
            sum: self.sum,
        }
    }
}

impl<T: Monoid + Copy + Eq + Display + Ord> Clone for AVLTree<T> {
    fn clone(&self) -> (r: Self)
        ensures
            r == *self,
    {
        self.duplicate()
    }
}

impl<T: Monoid + Copy + Eq + Display + Ord> View for AVLTree<T> {
    type V = Seq<T>;

    /// The values of the tree from left to right.
    open spec fn view(&self) -> Seq<T> {
        self.in_order_values()
    }
}

pub open spec fn max_nat(a: nat, b: nat) -> nat {
    if a >= b {
        a
    } else {
        b
    }
}

/// `a` and `b` differ by at most `d`.
pub open spec fn near(a: nat, b: nat, d: nat) -> bool {
    a <= b + d && b <= a + d
}

impl<T: Monoid + Copy + Eq + Display + Ord> AVLTree<T> {
    /// The values of the tree from left to right: those of the left
    /// subtree, the value at the root, those of the right subtree.
    pub closed spec fn in_order_values(self) -> Seq<T>
        decreases self,
    {
        match self {
            AVLTree::Empty() => Seq::empty(),
            AVLTree::Node(n) => n.left.in_order_values() + seq![n.val]
                + n.right.in_order_values(),
        }
    }

    /// The value at the root of a populated tree.
    pub closed spec fn spec_value(self) -> T {
        match self {
            AVLTree::Empty() => T::MEMPTY,
            AVLTree::Node(n) => n.val,
        }
    }

    /// The left subtree of a populated tree.
    pub closed spec fn spec_left(self) -> Self {
        match self {
            AVLTree::Empty() => AVLTree::Empty(),
            AVLTree::Node(n) => *n.left,
        }
    }

    /// The right subtree of a populated tree.
    pub closed spec fn spec_right(self) -> Self {
        match self {
            AVLTree::Empty() => AVLTree::Empty(),
            AVLTree::Node(n) => *n.right,
        }
    }

    /// The height that the root records: 0 for the empty tree.
    pub closed spec fn spec_height(self) -> nat {
        match self {
            AVLTree::Empty() => 0,
            AVLTree::Node(n) => n.height as nat,
        }
    }

    /// The size that the root records: 0 for the empty tree.
    pub closed spec fn spec_size(self) -> nat {
        match self {
            AVLTree::Empty() => 0,
            AVLTree::Node(n) => n.size as nat,
        }
    }

    /// The aggregate that the root records: the identity for the empty tree.
    pub closed spec fn spec_sum(self) -> T {
        match self {
            AVLTree::Empty() => T::MEMPTY,
            AVLTree::Node(n) => n.sum,
        }
    }

    /// The invariant of the tree. In every node the values of the left
    /// subtree come before the node's value and those of the right subtree
    /// after it, the heights of the two subtrees differ by at most one, and
    /// the recorded height, size and aggregate are those of the subtree.
    pub open spec fn well_formed(self) -> bool
        decreases self,
    {
        match self {
            AVLTree::Empty() => true,
            AVLTree::Node(_) => {
                let l = self.spec_left();
                let r = self.spec_right();
                &&& l.well_formed()
                &&& r.well_formed()
                &&& all_below(l@, self.spec_value())
                &&& all_above(r@, self.spec_value())
                &&& near(l.spec_height(), r.spec_height(), 1)
                &&& self.spec_height() == 1 + max_nat(l.spec_height(), r.spec_height())
                &&& self.spec_size() == l.spec_size() + r.spec_size() + 1
                &&& self.spec_sum() == T::combine(
                    self.spec_value(),
                    T::combine(l.spec_sum(), r.spec_sum()),
                )
            },
        }
    }

    /// What can be made the two subtrees of a node with value `val`: two
    /// trees that meet the invariant, the first below `val` and the second
    /// above it, small enough for the node's size to be counted.
    pub open spec fn joinable(val: T, left: Self, right: Self) -> bool {
        &&& left.well_formed()
        &&& right.well_formed()
        &&& all_below(left@, val)
        &&& all_above(right@, val)
        &&& left@.len() + right@.len() < usize::MAX
    }

    /// The views of a tree and of its parts.
    pub proof fn lemma_view(self)
        ensures
            self is Empty ==> self@ == Seq::<T>::empty(),
            self is Empty ==> self.spec_height() == 0 && self.spec_size() == 0 && self.spec_sum()
                == T::MEMPTY,
            self is Node ==> self@ == self.spec_left()@ + seq![self.spec_value()]
                + self.spec_right()@,
            self is Node ==> self@.len() == self.spec_left()@.len() + self.spec_right()@.len() + 1,
    {
    }

    /// Two nodes that hold and record the same are the same tree.
    pub proof fn lemma_same(self, other: Self)
        requires
            self is Node,
            other is Node,
            self.spec_value() == other.spec_value(),
            self.spec_left() == other.spec_left(),
            self.spec_right() == other.spec_right(),
            self.spec_height() == other.spec_height(),
            self.spec_size() == other.spec_size(),
            self.spec_sum() == other.spec_sum(),
        ensures
            self == other,
    {
    }

    /// A tree that meets the invariant records its number of values as its
    /// size, and is no higher than that.
    pub proof fn lemma_size(self)
        requires
            self.well_formed(),
        ensures
            self.spec_size() == self@.len(),
            self.spec_height() <= self@.len(),
            self is Empty <==> self@.len() == 0,
            self is Empty <==> self.spec_height() == 0,
        decreases self,
    {
        if self is Node {
            self.spec_left().lemma_size();
            self.spec_right().lemma_size();
        }
    }

    /// The values of a tree that meets the invariant stand in strictly
    /// increasing order.
    pub proof fn lemma_sorted(self)
        requires
            crate::order::total_order::<T>(),
            self.well_formed(),
        ensures
            strictly_sorted(self@),
        decreases self,
    {
        crate::sorted::lemma_empty_bounds(T::MEMPTY);
        if self is Node {
            self.spec_left().lemma_sorted();
            self.spec_right().lemma_sorted();
            crate::sorted::lemma_sorted_join(
                self.spec_left()@,
                self.spec_value(),
                self.spec_right()@,
            );
        }
    }

    fn duplicate(&self) -> (r: Self)
        ensures
            r == *self,
        decreases self,
    {
        match self {
            AVLTree::Empty() => AVLTree::Empty(),
            AVLTree::Node(Node { val, left, right, height, size, sum }) => AVLTree::Node(
                Node {
                    val: *val,
                    left: Box::new(left.duplicate()),
                    right: Box::new(right.duplicate()),
                    height: *height,
                    size: *size,
                    sum: *sum,
                },
            ),
        }
    }

    /// Takes a populated tree apart.
    pub(crate) fn destruct(self) -> (r: (T, AVLTree<T>, AVLTree<T>))
        requires
            self is Node,
        ensures
            r.0 == self.spec_value(),
            r.1 == self.spec_left(),
            r.2 == self.spec_right(),
    {
        match self {
            AVLTree::Node(Node { val, left, right, .. }) => (val, *left, *right),
            AVLTree::Empty() => vstd::pervasive::unreached(),
        }
    }

    /// Whether the tree holds no value.
    pub fn is_empty(&self) -> (r: bool)
        ensures
            r == (self is Empty),
            r == (self@.len() == 0),
    {
        match self {
            AVLTree::Empty() => true,
            AVLTree::Node(_) => false,
        }
    }

    /// The height that the root records.
    pub fn height(&self) -> (r: usize)
        ensures
            r == self.spec_height(),
    {
        match self {
            AVLTree::Empty() => 0usize,
            AVLTree::Node(Node { height, .. }) => *height,
        }
    }

    /// The number of values, as the root records it.
    pub fn size(&self) -> (r: usize)
        ensures
            r == self.spec_size(),
            self.well_formed() ==> r == self@.len(),
    {
        proof {
            if self.well_formed() {
                self.lemma_size();
            }
        }
        match self {
            AVLTree::Empty() => 0usize,
            AVLTree::Node(Node { size, .. }) => *size,
        }
    }

    /// The aggregate of all values, as the root records it.
    pub fn sum(&self) -> (r: T)
        ensures
            r == self.spec_sum(),
            self.well_formed() ==> r == crate::avl_tree::range::reduce(self.aggregate_order()),
            self.well_formed() && crate::avl_tree::range::commutative::<T>() ==> r
                == crate::avl_tree::range::reduce(self@),
    {
        proof {
            if self.well_formed() {
                self.lemma_sum();
            }
        }
        match self {
            AVLTree::Empty() => T::MEMPTY,
            AVLTree::Node(Node { sum, .. }) => *sum,
        }
    }
}

impl<T: Monoid + Copy + Eq + Display + Ord> vstd::std_specs::convert::FromSpecImpl<T> for AVLTree<T> {
    open spec fn obeys_from_spec() -> bool {
        true
    }

    closed spec fn from_spec(v: T) -> Self {
        AVLTree::Node(
            Node {
                val: v,
                left: Box::new(AVLTree::Empty()),
                right: Box::new(AVLTree::Empty()),
                height: 1,
                size: 1,
                sum: v,
            },
        )
    }
}

/// The tree of one value.
impl<T: Monoid + Copy + Eq + Display + Ord> From<T> for AVLTree<T> {
    fn from(val: T) -> (r: Self) {
        AVLTree::Node(
            Node {
                val,
                left: Box::new(AVLTree::Empty()),
                right: Box::new(AVLTree::Empty()),
                height: 1,
                size: 1,
                sum: val,
            },
        )
    }
}

impl<T: Monoid + Copy + Eq + Display + Ord> AVLTree<T> {
    /// The tree of one value meets the invariant and holds that value.
    pub proof fn lemma_leaf(val: T)
        ensures
            ({
                let t = <AVLTree<T> as vstd::std_specs::convert::FromSpec<T>>::from_spec(val);
                &&& t.well_formed()
                &&& t is Node
                &&& t@ == seq![val]
                &&& t.spec_value() == val
                &&& t.spec_left() is Empty
                &&& t.spec_right() is Empty
                &&& t.spec_height() == 1
            }),
    {
        let t = <AVLTree<T> as vstd::std_specs::convert::FromSpec<T>>::from_spec(val);
        lemma_monoid(val, val, val);
        lemma_monoid(T::MEMPTY, val, val);
        crate::sorted::lemma_empty_bounds(val);
        t.lemma_view();
        t.spec_left().lemma_view();
        t.spec_right().lemma_view();
        assert(t.spec_left().well_formed());
        assert(t.spec_right().well_formed());
        assert(t@ =~= seq![val]);
    }
}

} // verus!
