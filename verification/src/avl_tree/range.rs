//! The aggregate of the values in a closed range.
use crate::avl_tree::{lemma_monoid, AVLTree, Monoid, Node};
use crate::order::{lemma_less_transitive, lemma_operators, lemma_trichotomy, less, total_order};
use crate::sorted::{
    between, inside, keep, lemma_keep_add, lemma_keep_all, lemma_keep_join, lemma_keep_none,
    strictly_sorted,
};
use std::fmt::Display;
use vstd::prelude::*;

verus! {

/// The values of `s` combined from left to right: the identity for the
/// empty sequence.
pub open spec fn reduce<T: Monoid>(s: Seq<T>) -> T
    decreases s.len(),
{
    if s.len() == 0 {
        T::MEMPTY
    } else {
        T::combine(s.first(), reduce(s.drop_first()))
    }
}

/// `combine` gives the same for its arguments in either order.
pub open spec fn commutative<T: Monoid>() -> bool {
    forall|a: T, b: T| #[trigger] T::combine(a, b) == T::combine(b, a)
}

/// Reducing `a` followed by `b` combines what reducing each gives.
pub proof fn lemma_reduce_add<T: Monoid>(a: Seq<T>, b: Seq<T>)
    ensures
        reduce(a + b) == T::combine(reduce(a), reduce(b)),
    decreases a.len(),
{
    if a.len() == 0 {
        assert(a + b =~= b);
        lemma_monoid(reduce(b), reduce(b), reduce(b));
    } else {
        assert((a + b).drop_first() =~= a.drop_first() + b);
        lemma_reduce_add(a.drop_first(), b);
        lemma_monoid(a.first(), reduce(a.drop_first()), reduce(b));
    }
}

/// Reducing one value gives that value.
pub proof fn lemma_reduce_one<T: Monoid>(x: T)
    ensures
        reduce(seq![x]) == x,
        reduce(Seq::<T>::empty()) == T::MEMPTY,
{
    assert(seq![x].drop_first() =~= Seq::<T>::empty());
    assert(reduce(Seq::<T>::empty()) == T::MEMPTY);
    assert(seq![x].first() == x);
    lemma_monoid(x, x, x);
}

/// Reducing `a`, then `x`, then `b` where the order of the arguments does
/// not matter: the value first, the two parts after it.
pub proof fn lemma_reduce_join<T: Monoid>(a: Seq<T>, x: T, b: Seq<T>)
    requires
        commutative::<T>(),
    ensures
        reduce(a + seq![x] + b) == T::combine(x, T::combine(reduce(a), reduce(b))),
{
    lemma_reduce_add(a + seq![x], b);
    lemma_reduce_add(a, seq![x]);
    lemma_reduce_one(x);
    lemma_monoid(x, reduce(a), reduce(b));
    assert(T::combine(reduce(a), x) == T::combine(x, reduce(a)));
}

impl<T: Monoid + Copy + Eq + Display + Ord> AVLTree<T> {
    /// The values of the tree in the order in which the invariant combines
    /// them: the value at the root, those of the left subtree, those of the
    /// right subtree.
    pub closed spec fn aggregate_order(self) -> Seq<T>
        decreases self,
    {
        match self {
            AVLTree::Empty() => Seq::empty(),
            AVLTree::Node(n) => seq![n.val] + n.left.aggregate_order()
                + n.right.aggregate_order(),
        }
    }

    /// The order of aggregation of a tree and of its parts.
    pub proof fn lemma_aggregate_order(self)
        ensures
            self is Empty ==> self.aggregate_order() == Seq::<T>::empty(),
            self is Node ==> self.aggregate_order() == seq![self.spec_value()]
                + self.spec_left().aggregate_order() + self.spec_right().aggregate_order(),
    {
    }

    /// What holds of every value from left to right holds of every value in
    /// the order of aggregation.
    pub proof fn lemma_aggregate_all(self, p: spec_fn(T) -> bool)
        requires
            forall|i: int| 0 <= i < self@.len() ==> p(#[trigger] self@[i]),
        ensures
            forall|i: int|
                0 <= i < self.aggregate_order().len() ==> p(#[trigger] self.aggregate_order()[i]),
        decreases self,
    {
        self.lemma_view();
        if self is Node {
            let l = self.spec_left();
            let r = self.spec_right();
            let whole = self@;
            assert forall|i: int| 0 <= i < l@.len() implies p(#[trigger] l@[i]) by {
                assert(whole[i] == l@[i]);
            }
            assert forall|i: int| 0 <= i < r@.len() implies p(#[trigger] r@[i]) by {
                assert(whole[l@.len() + 1 + i] == r@[i]);
            }
            assert(p(self.spec_value())) by {
                assert(whole[l@.len() as int] == self.spec_value());
            }
            l.lemma_aggregate_all(p);
            r.lemma_aggregate_all(p);
            let a = l.aggregate_order();
            let b = r.aggregate_order();
            let all = self.aggregate_order();
            assert(all == seq![self.spec_value()] + a + b);
            assert forall|i: int| 0 <= i < all.len() implies p(#[trigger] all[i]) by {
                if i == 0 {
                    assert(all[i] == self.spec_value());
                } else if i < 1 + a.len() {
                    assert(all[i] == a[i - 1]);
                } else {
                    assert(all[i] == b[i - 1 - a.len()]);
                }
            }
        }
    }

    /// The reduction of the values of a populated tree from `min` to `max`,
    /// in the order of aggregation: that of the two subtrees, with the value
    /// at the root before it where that value is in the range.
    pub proof fn lemma_range_parts(self, min: T, max: T)
        requires
            self is Node,
        ensures
            reduce(between(self.aggregate_order(), min, max)) == if inside(min, max)(
                self.spec_value(),
            ) {
                T::combine(
                    self.spec_value(),
                    T::combine(
                        reduce(between(self.spec_left().aggregate_order(), min, max)),
                        reduce(between(self.spec_right().aggregate_order(), min, max)),
                    ),
                )
            } else {
                T::combine(
                    reduce(between(self.spec_left().aggregate_order(), min, max)),
                    reduce(between(self.spec_right().aggregate_order(), min, max)),
                )
            },
    {
        let p = inside(min, max);
        let val = self.spec_value();
        let a = self.spec_left().aggregate_order();
        let b = self.spec_right().aggregate_order();
        lemma_keep_add(seq![val] + a, b, p);
        lemma_keep_add(seq![val], a, p);
        lemma_keep_join(Seq::<T>::empty(), val, Seq::<T>::empty(), p);
        assert(Seq::<T>::empty() + seq![val] + Seq::<T>::empty() =~= seq![val]);
        assert(keep(Seq::<T>::empty(), p) =~= Seq::<T>::empty());
        lemma_reduce_add(keep(seq![val], p) + keep(a, p), keep(b, p));
        lemma_reduce_add(keep(seq![val], p), keep(a, p));
        lemma_reduce_one(val);
        lemma_monoid(val, reduce(keep(a, p)), reduce(keep(b, p)));
        lemma_monoid(reduce(keep(a, p)), val, val);
        if p(val) {
            assert(keep(seq![val], p) =~= seq![val]);
        } else {
            assert(keep(seq![val], p) =~= Seq::<T>::empty());
        }
    }

    /// A tree that meets the invariant records the reduction of its values
    /// in the order of aggregation, which is their reduction from left to
    /// right where the order of the arguments of `combine` does not matter.
    pub proof fn lemma_sum(self)
        requires
            self.well_formed(),
        ensures
            self.spec_sum() == reduce(self.aggregate_order()),
            commutative::<T>() ==> self.spec_sum() == reduce(self@),
        decreases self,
    {
        self.lemma_view();
        lemma_reduce_one(T::MEMPTY);
        if self is Node {
            let l = self.spec_left();
            let r = self.spec_right();
            l.lemma_sum();
            r.lemma_sum();
            lemma_reduce_add(seq![self.spec_value()] + l.aggregate_order(), r.aggregate_order());
            lemma_reduce_add(seq![self.spec_value()], l.aggregate_order());
            lemma_reduce_one(self.spec_value());
            lemma_monoid(
                self.spec_value(),
                reduce(l.aggregate_order()),
                reduce(r.aggregate_order()),
            );
            if commutative::<T>() {
                lemma_reduce_join(l@, self.spec_value(), r@);
            }
        }
    }

    /// Where the order of the arguments of `combine` does not matter, the
    /// values from `min` to `max` reduce to the same in the order of
    /// aggregation as from left to right.
    pub proof fn lemma_range_orders(self, min: T, max: T)
        requires
            commutative::<T>(),
        ensures
            reduce(between(self.aggregate_order(), min, max)) == reduce(between(self@, min, max)),
        decreases self,
    {
        self.lemma_view();
        if self is Node {
            let p = inside(min, max);
            let val = self.spec_value();
            let l = self.spec_left();
            let r = self.spec_right();
            l.lemma_range_orders(min, max);
            r.lemma_range_orders(min, max);
            self.lemma_range_parts(min, max);
            lemma_keep_join(l@, val, r@, p);
            if p(val) {
                lemma_reduce_join(keep(l@, p), val, keep(r@, p));
            } else {
                assert(keep(l@, p) + Seq::<T>::empty() + keep(r@, p) =~= keep(l@, p) + keep(
                    r@,
                    p,
                ));
                lemma_reduce_add(keep(l@, p), keep(r@, p));
            }
        }
    }

    /// The aggregate of the values from `min` to `max`. A subtree is passed
    /// over where its greatest value lies below `min` or its least value
    /// above `max`, and a node between two subtrees that lie in the range
    /// gives the aggregate that it records.
    pub fn mappend_from_to(&self, min: T, max: T) -> (r: T)
        requires
            total_order::<T>(),
        ensures
            self.well_formed() ==> r == reduce(between(self.aggregate_order(), min, max)),
            self.well_formed() && commutative::<T>() ==> r == reduce(between(self@, min, max)),
        decreases self,
    {
        proof {
            lemma_operators::<T>();
            self.lemma_view();
            lemma_reduce_one(min);
            if commutative::<T>() {
                self.lemma_range_orders(min, max);
            }
        }
        match self {
            AVLTree::Empty() => T::MEMPTY,
            AVLTree::Node(Node { val, left, right, sum, .. }) => {
                proof {
                    self.lemma_range_parts(min, max);
                    if self.well_formed() {
                        left.lemma_sorted();
                        right.lemma_sorted();
                        left.lemma_size();
                        right.lemma_size();
                    }
                }
                let taken = min <= *val && *val <= max;
                if !left.is_empty() && left.max() < min {
                    let upper = right.mappend_from_to(min, max);
                    proof {
                        if self.well_formed() {
                            lemma_outside_low(left@, min, max);
                            left.lemma_aggregate_all(|x: T| !inside(min, max)(x));
                            lemma_keep_none(left.aggregate_order(), inside(min, max));
                        }
                        lemma_monoid(upper, upper, upper);
                    }
                    if taken {
                        return val.mappend(upper);
                    } else {
                        return upper;
                    }
                }
                if !right.is_empty() && max < right.min() {
                    let lower = left.mappend_from_to(min, max);
                    proof {
                        if self.well_formed() {
                            lemma_outside_high(right@, min, max);
                            right.lemma_aggregate_all(|x: T| !inside(min, max)(x));
                            lemma_keep_none(right.aggregate_order(), inside(min, max));
                        }
                        lemma_monoid(lower, lower, lower);
                    }
                    if taken {
                        return val.mappend(lower);
                    } else {
                        return lower;
                    }
                }
                if !left.is_empty() && !right.is_empty() && min <= left.min() && right.max()
                    <= max {
                    proof {
                        if self.well_formed() {
                            self.lemma_sorted();
                            self.lemma_sum();
                            assert(self@.first() == left@.first());
                            assert(self@.last() == right@.last());
                            lemma_inside_all(self@, min, max);
                            self.lemma_aggregate_all(inside(min, max));
                            lemma_keep_all(self.aggregate_order(), inside(min, max));
                        }
                    }
                    return *sum;
                }
                let lower = left.mappend_from_to(min, max);
                let upper = right.mappend_from_to(min, max);
                let both = lower.mappend(upper);
                if taken {
                    val.mappend(both)
                } else {
                    both
                }
            },
        }
    }
}

/// No value of a sorted sequence whose last value is below `min` is in the
/// range from `min` to `max`.
proof fn lemma_outside_low<T: Ord>(s: Seq<T>, min: T, max: T)
    requires
        total_order::<T>(),
        strictly_sorted(s),
        s.len() > 0,
        less(s.last(), min),
    ensures
        forall|i: int| 0 <= i < s.len() ==> !inside(min, max)(#[trigger] s[i]),
{
    reveal(strictly_sorted);
    assert forall|i: int| 0 <= i < s.len() implies !inside(min, max)(#[trigger] s[i]) by {
        if i < s.len() - 1 {
            lemma_less_transitive(s[i], s.last(), min);
        }
    }
}

/// No value of a sorted sequence whose first value is above `max` is in the
/// range from `min` to `max`.
proof fn lemma_outside_high<T: Ord>(s: Seq<T>, min: T, max: T)
    requires
        total_order::<T>(),
        strictly_sorted(s),
        s.len() > 0,
        less(max, s.first()),
    ensures
        forall|i: int| 0 <= i < s.len() ==> !inside(min, max)(#[trigger] s[i]),
{
    reveal(strictly_sorted);
    assert forall|i: int| 0 <= i < s.len() implies !inside(min, max)(#[trigger] s[i]) by {
        if i > 0 {
            lemma_less_transitive(max, s.first(), s[i]);
        }
    }
}

/// Every value of a sorted sequence whose first value is not below `min` and
/// whose last value is not above `max` is in the range from `min` to `max`.
proof fn lemma_inside_all<T: Ord>(s: Seq<T>, min: T, max: T)
    requires
        total_order::<T>(),
        strictly_sorted(s),
        s.len() > 0,
        !less(s.first(), min),
        !less(max, s.last()),
    ensures
        forall|i: int| 0 <= i < s.len() ==> inside(min, max)(#[trigger] s[i]),
{
    reveal(strictly_sorted);
    assert forall|i: int| 0 <= i < s.len() implies inside(min, max)(#[trigger] s[i]) by {
        lemma_trichotomy(s.first(), min);
        lemma_trichotomy(s.last(), max);
        if i > 0 && less(s[i], min) {
            lemma_less_transitive(s.first(), s[i], min);
        }
        if i < s.len() - 1 && less(max, s[i]) {
            lemma_less_transitive(max, s[i], s.last());
        }
    }
}

} // verus!
