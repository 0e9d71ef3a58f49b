//! Textual renderings of the values of a tree.
use crate::avl_tree::{AVLTree, Monoid, Node};
use std::fmt::Display;
use vstd::prelude::*;
use vstd::string::to_string_from_display_ensures;
use vstd::string::StringExecFns;

verus! {

/// `text` is a rendering that `Display` gives of `v`.
pub open spec fn shows<T: Display>(v: T, text: Seq<char>) -> bool {
    exists|s: String| #[trigger] to_string_from_display_ensures::<T>(&v, s) && s@ == text
}

/// `text` is `head` followed by `shown` between two spaces.
pub open spec fn spaced_after(head: Seq<char>, shown: Seq<char>, text: Seq<char>) -> bool {
    text == head + seq![' '] + shown + seq![' ']
}

/// `text` is `first`, `second` and `third` with a space after `first` and one
/// after `second`.
pub open spec fn spaced_three(
    first: Seq<char>,
    second: Seq<char>,
    third: Seq<char>,
    text: Seq<char>,
) -> bool {
    text == first + seq![' '] + second + seq![' '] + third
}

/// `text` renders `values` in their order, each between two spaces.
pub open spec fn spaced_text<T: Display>(values: Seq<T>, text: Seq<char>) -> bool
    decreases values.len(),
{
    if values.len() == 0 {
        text.len() == 0
    } else {
        exists|head: Seq<char>, shown: Seq<char>|
            {
                &&& #[trigger] spaced_after(head, shown, text)
                &&& spaced_text(values.drop_last(), head)
                &&& shows(values.last(), shown)
            }
    }
}

/// A rendering of one value between two spaces renders the sequence of that
/// value.
pub proof fn lemma_spaced_one<T: Display>(v: T, shown: Seq<char>)
    requires
        shows(v, shown),
    ensures
        spaced_text(seq![v], seq![' '] + shown + seq![' ']),
{
    let none = Seq::<char>::empty();
    assert(seq![v].drop_last() =~= Seq::<T>::empty());
    assert(spaced_text(seq![v].drop_last(), none));
    assert(seq![v].last() == v);
    assert(seq![' '] + shown + seq![' '] =~= none + seq![' '] + shown + seq![' ']);
    assert(spaced_after(none, shown, seq![' '] + shown + seq![' ']));
}

/// A rendering of `a` followed by a rendering of `b` renders `a` followed by
/// `b`.
pub proof fn lemma_spaced_add<T: Display>(a: Seq<T>, ta: Seq<char>, b: Seq<T>, tb: Seq<char>)
    requires
        spaced_text(a, ta),
        spaced_text(b, tb),
    ensures
        spaced_text(a + b, ta + tb),
    decreases b.len(),
{
    if b.len() == 0 {
        assert(a + b =~= a);
        assert(ta + tb =~= ta);
    } else {
        let (head, shown) = choose|head: Seq<char>, shown: Seq<char>|
            {
                &&& #[trigger] spaced_after(head, shown, tb)
                &&& spaced_text(b.drop_last(), head)
                &&& shows(b.last(), shown)
            };
        lemma_spaced_add(a, ta, b.drop_last(), head);
        assert((a + b).drop_last() =~= a + b.drop_last());
        assert((a + b).last() == b.last());
        assert(ta + tb =~= (ta + head) + seq![' '] + shown + seq![' ']);
        assert(spaced_text((a + b).drop_last(), ta + head));
        assert(spaced_after(ta + head, shown, ta + tb));
    }
}

impl<T: Monoid + Copy + Eq + Display + Ord> AVLTree<T> {
    /// `text` renders the value at the root, then the left subtree in order,
    /// then the right subtree in order, with a space after the value and one
    /// between the two subtrees.
    pub open spec fn pre_order_text(self, text: Seq<char>) -> bool {
        if self is Empty {
            text.len() == 0
        } else {
            exists|shown: Seq<char>, lower: Seq<char>, upper: Seq<char>|
                {
                    &&& #[trigger] spaced_three(shown, lower, upper, text)
                    &&& shows(self.spec_value(), shown)
                    &&& spaced_text(self.spec_left()@, lower)
                    &&& spaced_text(self.spec_right()@, upper)
                }
        }
    }

    /// `text` renders the left subtree in order, then the right subtree in
    /// order, then the value at the root, with a space between the two
    /// subtrees and one before the value.
    pub open spec fn post_order_text(self, text: Seq<char>) -> bool {
        if self is Empty {
            text.len() == 0
        } else {
            exists|shown: Seq<char>, lower: Seq<char>, upper: Seq<char>|
                {
                    &&& #[trigger] spaced_three(lower, upper, shown, text)
                    &&& shows(self.spec_value(), shown)
                    &&& spaced_text(self.spec_left()@, lower)
                    &&& spaced_text(self.spec_right()@, upper)
                }
        }
    }

    /// The values from left to right, each rendered between two spaces.
    pub fn in_order(&self) -> (r: String)
        ensures
            spaced_text(self@, r@),
        decreases self,
    {
        match self {
            AVLTree::Empty() => String::new(),
            AVLTree::Node(Node { val, left, right, .. }) => {
                let lower = left.in_order();
                let shown = val.to_string();
                let upper = right.in_order();
                let mut text = lower.clone();
                text.append(" ");
                text.append(shown.as_str());
                text.append(" ");
                text.append(upper.as_str());
                proof {
                    reveal_strlit(" ");
                    assert(" "@ =~= seq![' ']);
                    assert(shows(*val, shown@));
                    lemma_spaced_one(*val, shown@);
                    lemma_spaced_add(left@, lower@, seq![*val], seq![' '] + shown@ + seq![' ']);
                    lemma_spaced_add(
                        left@ + seq![*val],
                        lower@ + (seq![' '] + shown@ + seq![' ']),
                        right@,
                        upper@,
                    );
                    assert(text@ =~= lower@ + (seq![' '] + shown@ + seq![' ']) + upper@);
                }
                text
            },
        }
    }

    /// The value at the root, then the left subtree in order, then the right
    /// subtree in order.
    pub fn pre_order(&self) -> (r: String)
        ensures
            self.pre_order_text(r@),
    {
        match self {
            AVLTree::Empty() => String::new(),
            AVLTree::Node(Node { val, left, right, .. }) => {
                let lower = left.in_order();
                let upper = right.in_order();
                let mut text = val.to_string();
                proof {
                    reveal_strlit(" ");
                    assert(" "@ =~= seq![' ']);
                    assert(shows(*val, text@));
                }
                let ghost shown = text@;
                text.append(" ");
                text.append(lower.as_str());
                text.append(" ");
                text.append(upper.as_str());
                proof {
                    assert(text@ =~= shown + seq![' '] + lower@ + seq![' '] + upper@);
                    assert(spaced_three(shown, lower@, upper@, text@));
                }
                text
            },
        }
    }

    /// The left subtree in order, then the right subtree in order, then the
    /// value at the root.
    pub fn post_order(&self) -> (r: String)
        ensures
            self.post_order_text(r@),
    {
        match self {
            AVLTree::Empty() => String::new(),
            AVLTree::Node(Node { val, left, right, .. }) => {
                let lower = left.in_order();
                let upper = right.in_order();
                let shown = val.to_string();
                let mut text = lower.clone();
                text.append(" ");
                text.append(upper.as_str());
                text.append(" ");
                text.append(shown.as_str());
                proof {
                    reveal_strlit(" ");
                    assert(" "@ =~= seq![' ']);
                    assert(shows(*val, shown@));
                    assert(text@ =~= lower@ + seq![' '] + upper@ + seq![' '] + shown@);
                    assert(spaced_three(lower@, upper@, shown@, text@));
                }
                text
            },
        }
    }
}

} // verus!
