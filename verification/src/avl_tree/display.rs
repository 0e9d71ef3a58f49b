//! The bracketed renderings of a tree, with their white space normalised.
use crate::avl_tree::render::shows;
use crate::avl_tree::{AVLTree, Monoid, Node};
use std::fmt::Display;
use vstd::prelude::*;
use vstd::string::StrSliceExecFns;
use vstd::string::StringExecFns;

verus! {

/// `c` is ASCII white space: a space, a tab, a line feed, a form feed or a
/// carriage return.
pub open spec fn is_blank(c: char) -> bool {
    c == ' ' || c == '\t' || c == '\n' || c == '\x0c' || c == '\r'
}

/// The length of the longest prefix of `s` without white space.
pub open spec fn word_len(s: Seq<char>) -> int
    decreases s.len(),
{
    if s.len() == 0 || is_blank(s[0]) {
        0
    } else {
        1 + word_len(s.drop_first())
    }
}

/// The words of `s`: its longest runs of characters without white space.
pub open spec fn words(s: Seq<char>) -> Seq<Seq<char>>
    decreases s.len(),
    via words_shorten
{
    if s.len() == 0 {
        Seq::empty()
    } else if is_blank(s[0]) {
        words(s.drop_first())
    } else {
        seq![s.take(word_len(s))] + words(s.skip(word_len(s)))
    }
}

#[via_fn]
proof fn words_shorten(s: Seq<char>) {
    lemma_word_len(s);
}

/// The words `ws` with one space between each two.
pub open spec fn joined(ws: Seq<Seq<char>>) -> Seq<char>
    decreases ws.len(),
{
    if ws.len() == 0 {
        Seq::empty()
    } else if ws.len() == 1 {
        ws[0]
    } else {
        joined(ws.drop_last()) + seq![' '] + ws.last()
    }
}

/// The words of `s` with one space between each two.
pub open spec fn normalized(s: Seq<char>) -> Seq<char> {
    joined(words(s))
}

/// The length of a word is within the sequence, and is 0 only where the
/// sequence is empty or starts with white space.
pub proof fn lemma_word_len(s: Seq<char>)
    ensures
        0 <= word_len(s) <= s.len(),
        s.len() > 0 && !is_blank(s[0]) ==> word_len(s) > 0,
    decreases s.len(),
{
    if s.len() > 0 && !is_blank(s[0]) {
        lemma_word_len(s.drop_first());
    }
}

/// A run of `k` characters without white space at the start of `s` is part
/// of its first word.
proof fn lemma_word_len_run(s: Seq<char>, k: int)
    requires
        0 <= k <= s.len(),
        forall|i: int| 0 <= i < k ==> !is_blank(#[trigger] s[i]),
    ensures
        word_len(s) == k + word_len(s.skip(k)),
    decreases k,
{
    if k == 0 {
        assert(s.skip(0) =~= s);
    } else {
        let rest = s.drop_first();
        assert forall|i: int| 0 <= i < k - 1 implies !is_blank(#[trigger] rest[i]) by {
            assert(rest[i] == s[i + 1]);
        }
        lemma_word_len_run(rest, k - 1);
        assert(rest.skip(k - 1) =~= s.skip(k));
    }
}

/// The white space of `string` normalised: its words with one space between
/// each two, and none before the first or after the last.
pub fn dels(string: String) -> (r: String)
    ensures
        r@ == normalized(string@),
{
    let text = string.as_str();
    let n = text.unicode_len();
    let ghost s = text@;
    let mut out = String::new();
    let mut any = false;
    let mut i: usize = 0;
    let ghost mut done: Seq<Seq<char>> = Seq::empty();
    proof {
        assert(s.skip(0) =~= s);
    }
    while i < n
        invariant
            s == text@,
            n == s.len(),
            i <= n,
            words(s) == done + words(s.skip(i as int)),
            out@ == joined(done),
            any == (done.len() > 0),
        decreases n - i,
    {
        let c = text.get_char(i);
        proof {
            assert(s.skip(i as int)[0] == s[i as int]);
            assert(s.skip(i as int).drop_first() =~= s.skip(i + 1));
        }
        if blank(c) {
            i = i + 1;
        } else {
            let mut j: usize = i + 1;
            while j < n && !blank(text.get_char(j))
                invariant
                    s == text@,
                    n == s.len(),
                    i < j <= n,
                    forall|k: int| i <= k < j ==> !is_blank(#[trigger] s[k]),
                decreases n - j,
            {
                j = j + 1;
            }
            let word = text.substring_char(i, j);
            proof {
                let tail = s.skip(i as int);
                assert forall|k: int| 0 <= k < j - i implies !is_blank(#[trigger] tail[k]) by {
                    assert(tail[k] == s[i + k]);
                }
                lemma_word_len_run(tail, j - i);
                assert(tail.skip(j - i) =~= s.skip(j as int));
                if j < n {
                    assert(s.skip(j as int)[0] == s[j as int]);
                }
                assert(word_len(s.skip(j as int)) == 0);
                assert(tail.take(j - i) =~= s.subrange(i as int, j as int));
                assert(done + (seq![word@] + words(s.skip(j as int))) =~= done.push(word@)
                    + words(s.skip(j as int)));
                assert(done.push(word@).drop_last() =~= done);
                reveal_strlit(" ");
                assert(" "@ =~= seq![' ']);
            }
            if any {
                out.append(" ");
            }
            out.append(word);
            proof {
                done = done.push(word@);
                assert(out@ =~= joined(done));
            }
            any = true;
            i = j;
        }
    }
    proof {
        assert(s.skip(n as int) =~= Seq::<char>::empty());
        assert(done + Seq::<Seq<char>>::empty() =~= done);
    }
    out
}

/// Whether `c` is ASCII white space.
fn blank(c: char) -> (r: bool)
    ensures
        r == is_blank(c),
{
    c == ' ' || c == '\t' || c == '\n' || c == '\x0c' || c == '\r'
}

/// `lower`, `label` and `upper` between brackets, with a space on each side
/// of each.
pub open spec fn framed(lower: Seq<char>, label: Seq<char>, upper: Seq<char>) -> Seq<char> {
    seq!['[', ' '] + lower + seq![' '] + label + seq![' '] + upper + seq![' ', ']']
}

/// `text` is `framed(lower, label, upper)`.
pub open spec fn framed_as(
    lower: Seq<char>,
    label: Seq<char>,
    upper: Seq<char>,
    text: Seq<char>,
) -> bool {
    text == framed(lower, label, upper)
}

/// `text` is `value`, a comma and `height` between round brackets.
pub open spec fn paired_as(value: Seq<char>, height: Seq<char>, text: Seq<char>) -> bool {
    text == seq!['('] + value + seq![','] + height + seq![')']
}

/// `lower`, `label` and `upper` between brackets.
fn frame(lower: String, label: String, upper: String) -> (r: String)
    ensures
        r@ == framed(lower@, label@, upper@),
{
    let mut text = "[ ".to_owned();
    text.append(lower.as_str());
    text.append(" ");
    text.append(label.as_str());
    text.append(" ");
    text.append(upper.as_str());
    text.append(" ]");
    proof {
        reveal_strlit("[ ");
        reveal_strlit(" ");
        reveal_strlit(" ]");
        assert("[ "@ =~= seq!['[', ' ']);
        assert(" "@ =~= seq![' ']);
        assert(" ]"@ =~= seq![' ', ']']);
        assert(text@ =~= framed(lower@, label@, upper@));
    }
    text
}

impl<T: Monoid + Copy + Eq + Display + Ord> AVLTree<T> {
    /// `text` labels the root: a rendering of its value, or, with
    /// `heights`, a rendering of its value, a comma and a rendering of the
    /// height that it records, between round brackets.
    pub open spec fn label_of(self, heights: bool, text: Seq<char>) -> bool {
        if heights {
            exists|value: Seq<char>, height: Seq<char>|
                {
                    &&& #[trigger] paired_as(value, height, text)
                    &&& shows(self.spec_value(), value)
                    &&& shows(self.spec_height() as usize, height)
                }
        } else {
            shows(self.spec_value(), text)
        }
    }

    /// `text` is the bracketed rendering of the tree, normalised: empty for
    /// the empty tree, and else the label of the root between the renderings
    /// of the two subtrees as `inner_rendering_of` gives them, in brackets and
    /// with its white space normalised.
    pub open spec fn rendering_of(self, heights: bool, text: Seq<char>) -> bool
        decreases self, 1int,
    {
        if self is Empty {
            text.len() == 0
        } else {
            exists|lower: Seq<char>, label: Seq<char>, upper: Seq<char>|
                {
                    &&& #[trigger] framed_as(lower, label, upper, framed(lower, label, upper))
                    &&& text == normalized(framed(lower, label, upper))
                    &&& self.spec_left().inner_rendering_of(heights, lower)
                    &&& self.label_of(heights, label)
                    &&& self.spec_right().inner_rendering_of(heights, upper)
                }
        }
    }

    /// `text` is the bracketed rendering of the tree as it stands inside the
    /// rendering of its parent: empty for the empty tree, and else the label
    /// of the root between the renderings of the two subtrees, in brackets.
    pub open spec fn inner_rendering_of(self, heights: bool, text: Seq<char>) -> bool
        decreases self, 0int,
    {
        if self is Empty {
            text.len() == 0
        } else {
            exists|lower: Seq<char>, label: Seq<char>, upper: Seq<char>|
                {
                    &&& #[trigger] framed_as(lower, label, upper, text)
                    &&& self.spec_left().rendering_of(heights, lower)
                    &&& self.label_of(heights, label)
                    &&& self.spec_right().rendering_of(heights, upper)
                }
        }
    }

    /// The label of the root.
    fn label(val: &T, height: usize, heights: bool) -> (r: String)
        ensures
            heights ==> exists|value: Seq<char>, shown: Seq<char>|
                {
                    &&& #[trigger] paired_as(value, shown, r@)
                    &&& shows(*val, value)
                    &&& shows(height, shown)
                },
            !heights ==> shows(*val, r@),
    {
        let value = val.to_string();
        proof {
            assert(shows(*val, value@));
        }
        if !heights {
            return value;
        }
        let shown = height.to_string();
        let mut text = "(".to_owned();
        text.append(value.as_str());
        text.append(",");
        text.append(shown.as_str());
        text.append(")");
        proof {
            reveal_strlit("(");
            reveal_strlit(",");
            reveal_strlit(")");
            assert("("@ =~= seq!['(']);
            assert(","@ =~= seq![',']);
            assert(")"@ =~= seq![')']);
            assert(shows(height, shown@));
            assert(text@ =~= seq!['('] + value@ + seq![','] + shown@ + seq![')']);
            assert(paired_as(value@, shown@, text@));
        }
        text
    }

    fn render(&self, heights: bool) -> (r: String)
        ensures
            self.rendering_of(heights, r@),
        decreases self, 1int,
    {
        match self {
            AVLTree::Empty() => String::new(),
            AVLTree::Node(Node { val, left, right, height, .. }) => {
                let lower = left.render_inner(heights);
                let upper = right.render_inner(heights);
                let label = Self::label(val, *height, heights);
                let whole = frame(lower, label, upper);
                proof {
                    assert(framed_as(lower@, label@, upper@, framed(lower@, label@, upper@)));
                }
                dels(whole)
            },
        }
    }

    fn render_inner(&self, heights: bool) -> (r: String)
        ensures
            self.inner_rendering_of(heights, r@),
        decreases self, 0int,
    {
        match self {
            AVLTree::Empty() => String::new(),
            AVLTree::Node(Node { val, left, right, height, .. }) => {
                let lower = left.render(heights);
                let upper = right.render(heights);
                let label = Self::label(val, *height, heights);
                let whole = frame(lower, label, upper);
                proof {
                    assert(framed_as(lower@, label@, upper@, whole@));
                }
                whole
            },
        }
    }

    /// The tree in brackets: for a populated tree an opening bracket, the
    /// left subtree, the value at the root, the right subtree and a closing
    /// bracket, with one space between each two of them.
    pub fn display_text(&self) -> (r: String)
        ensures
            self.rendering_of(false, r@),
    {
        self.render(false)
    }

    /// The tree in brackets as `display_text` gives it, with each value
    /// followed by the height that its node records.
    pub fn debug_text(&self) -> (r: String)
        ensures
            self.rendering_of(true, r@),
    {
        self.render(true)
    }
}

} // verus!
