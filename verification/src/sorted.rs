//! Sequences of totally ordered values: the mathematical model of a tree's
//! contents, and what insertion, removal and splitting do to it.
use crate::order::{lemma_less_transitive, lemma_trichotomy, less, total_order};
use vstd::prelude::*;

verus! {

/// Every element of `s` comes before `k`.
#[verifier::opaque]
pub open spec fn all_below<T: Ord>(s: Seq<T>, k: T) -> bool {
    forall|i: int| 0 <= i < s.len() ==> less(#[trigger] s[i], k)
}

/// Every element of `s` comes after `k`.
#[verifier::opaque]
pub open spec fn all_above<T: Ord>(s: Seq<T>, k: T) -> bool {
    forall|i: int| 0 <= i < s.len() ==> less(k, #[trigger] s[i])
}

/// Every element of `a` comes before every element of `b`.
#[verifier::opaque]
pub open spec fn all_before<T: Ord>(a: Seq<T>, b: Seq<T>) -> bool {
    forall|i: int, j: int| 0 <= i < a.len() && 0 <= j < b.len() ==> less(#[trigger] a[i], #[trigger] b[j])
}

/// The elements of `s` stand in strictly increasing order.
#[verifier::opaque]
pub open spec fn strictly_sorted<T: Ord>(s: Seq<T>) -> bool {
    forall|i: int, j: int| 0 <= i < j < s.len() ==> less(#[trigger] s[i], #[trigger] s[j])
}

pub open spec fn before<T: Ord>(k: T) -> spec_fn(T) -> bool {
    |x: T| less(x, k)
}

pub open spec fn after<T: Ord>(k: T) -> spec_fn(T) -> bool {
    |x: T| less(k, x)
}

pub open spec fn not_after<T: Ord>(k: T) -> spec_fn(T) -> bool {
    |x: T| !less(k, x)
}

pub open spec fn other_than<T: Ord>(k: T) -> spec_fn(T) -> bool {
    |x: T| x != k
}

pub open spec fn inside<T: Ord>(lo: T, hi: T) -> spec_fn(T) -> bool {
    |x: T| !less(x, lo) && !less(hi, x)
}

/// `s` with `v` at its place in the order: the elements before `v`, then `v`,
/// then the elements after `v`.
pub open spec fn with_value<T: Ord>(s: Seq<T>, v: T) -> Seq<T> {
    keep(s, before(v)) + seq![v] + keep(s, after(v))
}

/// `s` without `v`.
pub open spec fn without_value<T: Ord>(s: Seq<T>, v: T) -> Seq<T> {
    keep(s, other_than(v))
}

/// The elements of `s` that do not come after `k`.
pub open spec fn up_to<T: Ord>(s: Seq<T>, k: T) -> Seq<T> {
    keep(s, not_after(k))
}

/// The elements of `s` that come after `k`.
pub open spec fn beyond<T: Ord>(s: Seq<T>, k: T) -> Seq<T> {
    keep(s, after(k))
}

/// The elements of `s` in the closed range from `lo` to `hi`.
pub open spec fn between<T: Ord>(s: Seq<T>, lo: T, hi: T) -> Seq<T> {
    keep(s, inside(lo, hi))
}

/// The elements of `s` that meet `p`, in their order.
pub open spec fn keep<T>(s: Seq<T>, p: spec_fn(T) -> bool) -> Seq<T>
    decreases s.len(),
{
    if s.len() == 0 {
        s
    } else if p(s.last()) {
        keep(s.drop_last(), p).push(s.last())
    } else {
        keep(s.drop_last(), p)
    }
}

pub proof fn lemma_keep_all<T>(s: Seq<T>, p: spec_fn(T) -> bool)
    requires
        forall|i: int| 0 <= i < s.len() ==> p(#[trigger] s[i]),
    ensures
        keep(s, p) == s,
    decreases s.len(),
{
    if s.len() > 0 {
        lemma_keep_all(s.drop_last(), p);
        assert(s.drop_last().push(s.last()) =~= s);
    }
}

pub proof fn lemma_keep_none<T>(s: Seq<T>, p: spec_fn(T) -> bool)
    requires
        forall|i: int| 0 <= i < s.len() ==> !p(#[trigger] s[i]),
    ensures
        keep(s, p) == Seq::<T>::empty(),
    decreases s.len(),
{
    if s.len() > 0 {
        lemma_keep_none(s.drop_last(), p);
    }
}

/// Keeping from `a` followed by `b` keeps from each.
pub proof fn lemma_keep_add<T>(a: Seq<T>, b: Seq<T>, p: spec_fn(T) -> bool)
    ensures
        keep(a + b, p) == keep(a, p) + keep(b, p),
    decreases b.len(),
{
    if b.len() == 0 {
        assert(a + b =~= a);
        assert(keep(a, p) + keep(b, p) =~= keep(a, p));
    } else {
        lemma_keep_add(a, b.drop_last(), p);
        assert((a + b).drop_last() =~= a + b.drop_last());
        assert((a + b).last() == b.last());
        if p(b.last()) {
            assert((keep(a, p) + keep(b.drop_last(), p)).push(b.last()) =~= keep(a, p) + keep(
                b.drop_last(),
                p,
            ).push(b.last()));
        }
    }
}

/// Keeping from `a`, then `x`, then `b` keeps from each part.
pub proof fn lemma_keep_join<T>(a: Seq<T>, x: T, b: Seq<T>, p: spec_fn(T) -> bool)
    ensures
        keep(a + seq![x] + b, p) == keep(a, p) + (if p(x) {
            seq![x]
        } else {
            Seq::empty()
        }) + keep(b, p),
{
    lemma_keep_add(a + seq![x], b, p);
    lemma_keep_add(a, seq![x], p);
    assert(seq![x].drop_last() =~= Seq::<T>::empty());
    assert(keep(seq![x].drop_last(), p) =~= Seq::<T>::empty());
    assert(keep(seq![x], p) =~= (if p(x) {
        seq![x]
    } else {
        Seq::empty()
    }));
}

/// An element of `keep(s, p)` is an element of `s` that meets `p`, and the
/// other way round.
pub proof fn lemma_keep_member<T>(s: Seq<T>, p: spec_fn(T) -> bool, e: T)
    ensures
        keep(s, p).contains(e) <==> (s.contains(e) && p(e)),
    decreases s.len(),
{
    if s.len() > 0 {
        let rest = s.drop_last();
        lemma_keep_member(rest, p, e);
        let k = keep(rest, p);
        if keep(s, p).contains(e) {
            let i = choose|i: int| 0 <= i < keep(s, p).len() && keep(s, p)[i] == e;
            if i < k.len() {
                assert(k[i] == e);
                assert(k.contains(e));
                let j = choose|j: int| 0 <= j < rest.len() && rest[j] == e;
                assert(s[j] == e);
            } else {
                assert(s[s.len() - 1] == e);
            }
        }
        if s.contains(e) && p(e) {
            let j = choose|j: int| 0 <= j < s.len() && s[j] == e;
            if j < rest.len() {
                assert(rest[j] == e);
                assert(rest.contains(e));
                let i = choose|i: int| 0 <= i < k.len() && k[i] == e;
                assert(keep(s, p)[i] == e);
            } else {
                assert(keep(s, p)[k.len() as int] == e);
            }
        }
    }
}

/// Every element of `keep(s, p)` meets `p`, and there are no more of them
/// than elements of `s`.
pub proof fn lemma_keep_pred<T>(s: Seq<T>, p: spec_fn(T) -> bool)
    ensures
        forall|i: int| 0 <= i < keep(s, p).len() ==> p(#[trigger] keep(s, p)[i]),
        keep(s, p).len() <= s.len(),
    decreases s.len(),
{
    if s.len() > 0 {
        lemma_keep_pred(s.drop_last(), p);
    }
}

/// Keeping leaves bounds: what holds of every element of `s` holds of every
/// element of `keep(s, p)`.
pub proof fn lemma_keep_bounds<T: Ord>(s: Seq<T>, p: spec_fn(T) -> bool, k: T)
    ensures
        all_below(s, k) ==> all_below(keep(s, p), k),
        all_above(s, k) ==> all_above(keep(s, p), k),
        keep(s, p).len() <= s.len(),
{
    reveal(all_below);
    reveal(all_above);
    let f = keep(s, p);
    lemma_keep_pred(s, p);
    assert forall|i: int| 0 <= i < f.len() implies s.contains(#[trigger] f[i]) by {
        assert(f.contains(f[i]));
        lemma_keep_member(s, p, f[i]);
    }
    if all_below(s, k) {
        assert forall|i: int| 0 <= i < f.len() implies less(#[trigger] f[i], k) by {
            assert(s.contains(f[i]));
        }
    }
    if all_above(s, k) {
        assert forall|i: int| 0 <= i < f.len() implies less(k, #[trigger] f[i]) by {
            assert(s.contains(f[i]));
        }
    }
}

/// Keeping leaves the order of the elements.
pub proof fn lemma_keep_sorted<T: Ord>(s: Seq<T>, p: spec_fn(T) -> bool)
    requires
        strictly_sorted(s),
    ensures
        strictly_sorted(keep(s, p)),
    decreases s.len(),
{
    reveal(all_below);
    reveal(strictly_sorted);
    if s.len() > 0 {
        let rest = s.drop_last();
        lemma_keep_sorted(rest, p);
        assert(all_below(rest, s.last()));
        lemma_keep_bounds(rest, p, s.last());
    }
}

/// What `with_value` does to a sequence made of `a`, a value `x` above all
/// of `a`, and `b` above `x`.
pub proof fn lemma_with_value_join<T: Ord>(a: Seq<T>, x: T, b: Seq<T>, v: T)
    requires
        total_order::<T>(),
        all_below(a, x),
        all_above(b, x),
    ensures
        less(v, x) ==> with_value(a + seq![x] + b, v) == with_value(a, v) + seq![x] + b,
        v == x ==> with_value(a + seq![x] + b, v) == a + seq![x] + b,
        less(x, v) ==> with_value(a + seq![x] + b, v) == a + seq![x] + with_value(b, v),
{
    reveal(all_below);
    reveal(all_above);
    lemma_keep_join(a, x, b, before(v));
    lemma_keep_join(a, x, b, after(v));
    lemma_trichotomy(v, x);
    if less(v, x) {
        assert forall|i: int| 0 <= i < b.len() implies less(v, #[trigger] b[i]) && !less(b[i], v) by {
            lemma_less_transitive(v, x, b[i]);
            lemma_trichotomy(b[i], v);
        }
        lemma_keep_none(b, before(v));
        lemma_keep_all(b, after(v));
        assert(with_value(a + seq![x] + b, v) =~= with_value(a, v) + seq![x] + b);
    } else if v == x {
        assert forall|i: int| 0 <= i < b.len() implies less(v, #[trigger] b[i]) && !less(b[i], v) by {
            lemma_trichotomy(b[i], v);
        }
        assert forall|i: int| 0 <= i < a.len() implies less(#[trigger] a[i], v) && !less(v, a[i]) by {
            lemma_trichotomy(a[i], v);
        }
        lemma_keep_none(b, before(v));
        lemma_keep_all(b, after(v));
        lemma_keep_all(a, before(v));
        lemma_keep_none(a, after(v));
        assert(with_value(a + seq![x] + b, v) =~= a + seq![x] + b);
    } else {
        assert forall|i: int| 0 <= i < a.len() implies less(#[trigger] a[i], v) && !less(v, a[i]) by {
            lemma_less_transitive(a[i], x, v);
            lemma_trichotomy(a[i], v);
        }
        lemma_keep_all(a, before(v));
        lemma_keep_none(a, after(v));
        assert(with_value(a + seq![x] + b, v) =~= a + seq![x] + with_value(b, v));
    }
}

/// What `without_value` does to such a sequence.
pub proof fn lemma_without_value_join<T: Ord>(a: Seq<T>, x: T, b: Seq<T>, v: T)
    requires
        total_order::<T>(),
        all_below(a, x),
        all_above(b, x),
    ensures
        less(v, x) ==> without_value(a + seq![x] + b, v) == without_value(a, v) + seq![x] + b,
        v == x ==> without_value(a + seq![x] + b, v) == a + b,
        less(x, v) ==> without_value(a + seq![x] + b, v) == a + seq![x] + without_value(b, v),
{
    reveal(all_below);
    reveal(all_above);
    lemma_keep_join(a, x, b, other_than(v));
    lemma_trichotomy(v, x);
    if !less(x, v) {
        assert forall|i: int| 0 <= i < b.len() implies #[trigger] b[i] != v by {
            lemma_trichotomy(b[i], v);
            if less(v, x) {
                lemma_less_transitive(v, x, b[i]);
            }
        }
        lemma_keep_all(b, other_than(v));
    }
    if !less(v, x) {
        assert forall|i: int| 0 <= i < a.len() implies #[trigger] a[i] != v by {
            lemma_trichotomy(a[i], v);
            if less(x, v) {
                lemma_less_transitive(a[i], x, v);
            }
        }
        lemma_keep_all(a, other_than(v));
    }
    if less(v, x) {
        assert(without_value(a + seq![x] + b, v) =~= without_value(a, v) + seq![x] + b);
    } else if v == x {
        assert(without_value(a + seq![x] + b, v) =~= a + b);
    } else {
        assert(without_value(a + seq![x] + b, v) =~= a + seq![x] + without_value(b, v));
    }
}

/// What splitting at `k` does to such a sequence.
pub proof fn lemma_split_join<T: Ord>(a: Seq<T>, x: T, b: Seq<T>, k: T)
    requires
        total_order::<T>(),
        all_below(a, x),
        all_above(b, x),
    ensures
        less(k, x) ==> up_to(a + seq![x] + b, k) == up_to(a, k) && beyond(a + seq![x] + b, k)
            == beyond(a, k) + seq![x] + b,
        !less(k, x) ==> up_to(a + seq![x] + b, k) == a + seq![x] + up_to(b, k) && beyond(
            a + seq![x] + b,
            k,
        ) == beyond(b, k),
{
    reveal(all_below);
    reveal(all_above);
    lemma_keep_join(a, x, b, not_after(k));
    lemma_keep_join(a, x, b, after(k));
    lemma_trichotomy(k, x);
    if less(k, x) {
        assert forall|i: int| 0 <= i < b.len() implies less(k, #[trigger] b[i]) by {
            lemma_less_transitive(k, x, b[i]);
        }
        lemma_keep_none(b, not_after(k));
        lemma_keep_all(b, after(k));
        assert(up_to(a + seq![x] + b, k) =~= up_to(a, k));
        assert(beyond(a + seq![x] + b, k) =~= beyond(a, k) + seq![x] + b);
    } else {
        assert forall|i: int| 0 <= i < a.len() implies !less(k, #[trigger] a[i]) by {
            lemma_trichotomy(a[i], k);
            if less(k, a[i]) {
                lemma_less_transitive(k, a[i], x);
            }
        }
        lemma_keep_all(a, not_after(k));
        lemma_keep_none(a, after(k));
        assert(up_to(a + seq![x] + b, k) =~= a + seq![x] + up_to(b, k));
        assert(beyond(a + seq![x] + b, k) =~= beyond(b, k));
    }
}

/// Where a value can stand in such a sequence.
pub proof fn lemma_contains_join<T: Ord>(a: Seq<T>, x: T, b: Seq<T>, v: T)
    requires
        total_order::<T>(),
        all_below(a, x),
        all_above(b, x),
    ensures
        less(v, x) ==> (a + seq![x] + b).contains(v) == a.contains(v),
        v == x ==> (a + seq![x] + b).contains(v),
        less(x, v) ==> (a + seq![x] + b).contains(v) == b.contains(v),
{
    reveal(all_below);
    reveal(all_above);
    let s = a + seq![x] + b;
    lemma_trichotomy(v, x);
    assert(s[a.len() as int] == x);
    if s.contains(v) {
        let i = choose|i: int| 0 <= i < s.len() && s[i] == v;
        if i < a.len() {
            assert(a[i] == v);
            lemma_trichotomy(v, x);
        } else if i > a.len() {
            assert(b[i - a.len() - 1] == v);
            lemma_trichotomy(v, x);
        }
    }
    if a.contains(v) {
        let i = choose|i: int| 0 <= i < a.len() && a[i] == v;
        assert(s[i] == v);
    }
    if b.contains(v) {
        let i = choose|i: int| 0 <= i < b.len() && b[i] == v;
        assert(s[a.len() + 1 + i] == v);
    }
}

/// Such a sequence is sorted when both its parts are.
pub proof fn lemma_sorted_join<T: Ord>(a: Seq<T>, x: T, b: Seq<T>)
    requires
        total_order::<T>(),
        all_below(a, x),
        all_above(b, x),
        strictly_sorted(a),
        strictly_sorted(b),
    ensures
        strictly_sorted(a + seq![x] + b),
{
    reveal(all_below);
    reveal(all_above);
    reveal(strictly_sorted);
    let s = a + seq![x] + b;
    assert forall|i: int, j: int| 0 <= i < j < s.len() implies less(#[trigger] s[i], #[trigger] s[j]) by {
        if j < a.len() {
            assert(s[i] == a[i] && s[j] == a[j]);
        } else if j == a.len() {
            assert(s[i] == a[i]);
        } else {
            assert(s[j] == b[j - a.len() - 1]);
            if i < a.len() {
                assert(s[i] == a[i]);
                lemma_less_transitive(s[i], x, s[j]);
            } else if i > a.len() {
                assert(s[i] == b[i - a.len() - 1]);
            }
        }
    }
}

/// The elements of `with_value(s, v)` are `v` and the elements of `s`.
pub proof fn lemma_with_value_member<T: Ord>(s: Seq<T>, v: T, e: T)
    requires
        total_order::<T>(),
    ensures
        with_value(s, v).contains(e) <==> (e == v || s.contains(e)),
{
    let lo = keep(s, before(v));
    let hi = keep(s, after(v));
    let w = with_value(s, v);
    lemma_keep_member(s, before(v), e);
    lemma_keep_member(s, after(v), e);
    lemma_trichotomy(e, v);
    assert(w[lo.len() as int] == v);
    if w.contains(e) {
        let i = choose|i: int| 0 <= i < w.len() && w[i] == e;
        if i < lo.len() {
            assert(lo[i] == e);
            assert(lo.contains(e));
        } else if i > lo.len() {
            assert(hi[i - lo.len() - 1] == e);
            assert(hi.contains(e));
        }
    }
    if lo.contains(e) {
        let i = choose|i: int| 0 <= i < lo.len() && lo[i] == e;
        assert(w[i] == e);
    }
    if hi.contains(e) {
        let i = choose|i: int| 0 <= i < hi.len() && hi[i] == e;
        assert(w[lo.len() + 1 + i] == e);
    }
}

/// `with_value` keeps a sorted sequence sorted, and adds at most one element.
pub proof fn lemma_with_value_sorted<T: Ord>(s: Seq<T>, v: T)
    requires
        total_order::<T>(),
        strictly_sorted(s),
    ensures
        strictly_sorted(with_value(s, v)),
        with_value(s, v).len() <= s.len() + 1,
        s.contains(v) ==> with_value(s, v) == s,
        !s.contains(v) ==> with_value(s, v).len() == s.len() + 1,
    decreases s.len(),
{
    reveal(all_below);
    reveal(all_above);
    reveal(strictly_sorted);
    let lo = keep(s, before(v));
    let hi = keep(s, after(v));
    lemma_keep_sorted(s, before(v));
    lemma_keep_sorted(s, after(v));
    assert forall|i: int| 0 <= i < lo.len() implies less(#[trigger] lo[i], v) by {
        lemma_keep_pred(s, before(v));
    }
    assert forall|i: int| 0 <= i < hi.len() implies less(v, #[trigger] hi[i]) by {
        lemma_keep_pred(s, after(v));
    }
    lemma_sorted_join(lo, v, hi);
    if s.len() == 0 {
        lemma_keep_none(s, before(v));
        lemma_keep_none(s, after(v));
    } else {
        let rest = s.drop_last();
        let x = s.last();
        assert(rest + seq![x] + Seq::<T>::empty() =~= s);
        assert(all_below(rest, x));
        lemma_with_value_join(rest, x, Seq::<T>::empty(), v);
        lemma_contains_join(rest, x, Seq::<T>::empty(), v);
        lemma_with_value_sorted(rest, v);
        lemma_keep_none(Seq::<T>::empty(), before(v));
        lemma_keep_none(Seq::<T>::empty(), after(v));
        lemma_trichotomy(v, x);
        assert(with_value(Seq::<T>::empty(), v) =~= seq![v]);
        if less(v, x) {
            assert(with_value(s, v) == with_value(rest, v) + seq![x] + Seq::<T>::empty());
            if rest.contains(v) {
                assert(with_value(s, v) == s);
            }
        } else if less(x, v) {
            assert(with_value(s, v) == rest + seq![x] + seq![v]);
            assert(!Seq::<T>::empty().contains(v));
        }
    }
}

/// `without_value` keeps a sorted sequence sorted and takes out at most one
/// element.
pub proof fn lemma_without_value_sorted<T: Ord>(s: Seq<T>, v: T)
    requires
        total_order::<T>(),
        strictly_sorted(s),
    ensures
        strictly_sorted(without_value(s, v)),
        !without_value(s, v).contains(v),
        s.contains(v) ==> without_value(s, v).len() + 1 == s.len(),
        !s.contains(v) ==> without_value(s, v) == s,
    decreases s.len(),
{
    reveal(all_below);
    reveal(all_above);
    reveal(strictly_sorted);
    lemma_keep_sorted(s, other_than(v));
    lemma_keep_member(s, other_than(v), v);
    if s.len() == 0 {
        lemma_keep_none(s, other_than(v));
    } else {
        let rest = s.drop_last();
        let x = s.last();
        let none = Seq::<T>::empty();
        assert(rest + seq![x] + none =~= s);
        assert(all_below(rest, x));
        lemma_without_value_join(rest, x, none, v);
        lemma_contains_join(rest, x, none, v);
        lemma_without_value_sorted(rest, v);
        lemma_keep_none(none, other_than(v));
        lemma_trichotomy(v, x);
        assert(!none.contains(v));
        if less(v, x) {
            assert(without_value(s, v) == without_value(rest, v) + seq![x] + none);
        } else if v == x {
            assert(rest + none =~= rest);
        } else {
            assert(without_value(s, v) == rest + seq![x] + without_value(none, v));
        }
    }
}

/// Taking the first or the last element out of a sorted sequence leaves the
/// rest of it.
pub proof fn lemma_without_end<T: Ord>(s: Seq<T>)
    requires
        total_order::<T>(),
        strictly_sorted(s),
        s.len() > 0,
    ensures
        without_value(s, s.first()) == s.drop_first(),
        without_value(s, s.last()) == s.drop_last(),
        all_above(s.drop_first(), s.first()),
        all_below(s.drop_last(), s.last()),
{
    reveal(all_below);
    reveal(all_above);
    reveal(strictly_sorted);
    let none = Seq::<T>::empty();
    assert(none + seq![s.first()] + s.drop_first() =~= s);
    assert(s.drop_last() + seq![s.last()] + none =~= s);
    assert(all_above(s.drop_first(), s.first())) by {
        assert forall|i: int| 0 <= i < s.drop_first().len() implies less(
            s.first(),
            #[trigger] s.drop_first()[i],
        ) by {
            assert(s.drop_first()[i] == s[i + 1]);
        }
    }
    assert(all_below(s.drop_last(), s.last()));
    lemma_without_value_join(none, s.first(), s.drop_first(), s.first());
    lemma_without_value_join(s.drop_last(), s.last(), none, s.last());
    assert(none + s.drop_first() =~= s.drop_first());
    assert(s.drop_last() + none =~= s.drop_last());
}

/// Splitting a sorted sequence at `k` gives two sorted parts, the lower one
/// before the upper one.
pub proof fn lemma_split_order<T: Ord>(s: Seq<T>, k: T)
    requires
        total_order::<T>(),
        strictly_sorted(s),
    ensures
        all_before(up_to(s, k), beyond(s, k)),
        strictly_sorted(up_to(s, k)),
        strictly_sorted(beyond(s, k)),
{
    reveal(all_before);
    let lo = up_to(s, k);
    let hi = beyond(s, k);
    lemma_keep_sorted(s, not_after(k));
    lemma_keep_sorted(s, after(k));
    assert forall|i: int, j: int| 0 <= i < lo.len() && 0 <= j < hi.len() implies less(
        #[trigger] lo[i],
        #[trigger] hi[j],
    ) by {
        lemma_keep_pred(s, not_after(k));
        lemma_keep_pred(s, after(k));
        lemma_trichotomy(lo[i], k);
        if lo[i] != k {
            lemma_less_transitive(lo[i], k, hi[j]);
        }
    }
}

/// A sorted sequence without its last element is sorted and below that
/// element.
pub proof fn lemma_sorted_front<T: Ord>(s: Seq<T>)
    requires
        strictly_sorted(s),
        s.len() > 0,
    ensures
        strictly_sorted(s.drop_last()),
        all_below(s.drop_last(), s.last()),
{
    reveal(all_below);
    reveal(strictly_sorted);
    let rest = s.drop_last();
    assert forall|i: int| 0 <= i < rest.len() implies less(#[trigger] rest[i], s.last()) by {
        assert(rest[i] == s[i]);
        assert(s.last() == s[s.len() - 1]);
    }
    assert forall|i: int, j: int| 0 <= i < j < rest.len() implies less(
        #[trigger] rest[i],
        #[trigger] rest[j],
    ) by {
        assert(rest[i] == s[i] && rest[j] == s[j]);
    }
}

proof fn lemma_split_step<T: Ord>(rest: Seq<T>, x: T, k: T)
    requires
        total_order::<T>(),
        all_below(rest, x),
        up_to(rest, k) + beyond(rest, k) == rest,
    ensures
        up_to(rest.push(x), k) + beyond(rest.push(x), k) == rest.push(x),
{
    reveal(all_above);
    let none = Seq::<T>::empty();
    let s = rest.push(x);
    assert(rest + seq![x] + none =~= s);
    lemma_split_join(rest, x, none, k);
    lemma_keep_none(none, not_after(k));
    lemma_keep_none(none, after(k));
    if less(k, x) {
        assert(up_to(s, k) + beyond(s, k) =~= (up_to(rest, k) + beyond(rest, k)) + seq![x]);
    } else {
        assert(up_to(s, k) + beyond(s, k) =~= s);
    }
}

/// The lower part of a sorted sequence split at `k`, followed by the upper
/// part, is the sequence.
pub proof fn lemma_split_whole<T: Ord>(s: Seq<T>, k: T)
    requires
        total_order::<T>(),
        strictly_sorted(s),
    ensures
        up_to(s, k) + beyond(s, k) == s,
    decreases s.len(),
{
    if s.len() == 0 {
        lemma_keep_none(s, not_after(k));
        lemma_keep_none(s, after(k));
        assert(up_to(s, k) + beyond(s, k) =~= s);
    } else {
        lemma_sorted_front(s);
        lemma_split_whole(s.drop_last(), k);
        lemma_split_step(s.drop_last(), s.last(), k);
        assert(s.drop_last().push(s.last()) =~= s);
    }
}

/// A bound on `a`, then `x`, then `b` is a bound on each part.
pub proof fn lemma_bounds_join<T: Ord>(a: Seq<T>, x: T, b: Seq<T>, k: T)
    ensures
        all_below(a + seq![x] + b, k) <==> (all_below(a, k) && less(x, k) && all_below(b, k)),
        all_above(a + seq![x] + b, k) <==> (all_above(a, k) && less(k, x) && all_above(b, k)),
{
    reveal(all_below);
    reveal(all_above);
    let s = a + seq![x] + b;
    assert(s[a.len() as int] == x);
    assert forall|i: int| 0 <= i < a.len() implies s[i] == #[trigger] a[i] by {}
    assert forall|i: int| 0 <= i < b.len() implies s[a.len() + 1 + i] == #[trigger] b[i] by {}
    if all_below(a, k) && less(x, k) && all_below(b, k) {
        assert forall|i: int| 0 <= i < s.len() implies less(#[trigger] s[i], k) by {
            if i < a.len() {
                assert(s[i] == a[i]);
            } else if i > a.len() {
                assert(s[i] == b[i - a.len() - 1]);
            }
        }
    }
    if all_above(a, k) && less(k, x) && all_above(b, k) {
        assert forall|i: int| 0 <= i < s.len() implies less(k, #[trigger] s[i]) by {
            if i < a.len() {
                assert(s[i] == a[i]);
            } else if i > a.len() {
                assert(s[i] == b[i - a.len() - 1]);
            }
        }
    }
    if all_below(s, k) {
        assert forall|i: int| 0 <= i < a.len() implies less(#[trigger] a[i], k) by {
            assert(s[i] == a[i]);
        }
        assert forall|i: int| 0 <= i < b.len() implies less(#[trigger] b[i], k) by {
            assert(s[a.len() + 1 + i] == b[i]);
        }
    }
    if all_above(s, k) {
        assert forall|i: int| 0 <= i < a.len() implies less(k, #[trigger] a[i]) by {
            assert(s[i] == a[i]);
        }
        assert forall|i: int| 0 <= i < b.len() implies less(k, #[trigger] b[i]) by {
            assert(s[a.len() + 1 + i] == b[i]);
        }
    }
}

/// A bound moves along the order: what is below `k` is below all that `k` is
/// below, and what is above `k` is above all that `k` is above.
pub proof fn lemma_bounds_move<T: Ord>(s: Seq<T>, k: T, m: T)
    requires
        total_order::<T>(),
    ensures
        all_below(s, k) && less(k, m) ==> all_below(s, m),
        all_above(s, k) && less(m, k) ==> all_above(s, m),
{
    reveal(all_below);
    reveal(all_above);
    if all_below(s, k) && less(k, m) {
        assert forall|i: int| 0 <= i < s.len() implies less(#[trigger] s[i], m) by {
            lemma_less_transitive(s[i], k, m);
        }
    }
    if all_above(s, k) && less(m, k) {
        assert forall|i: int| 0 <= i < s.len() implies less(m, #[trigger] s[i]) by {
            lemma_less_transitive(m, k, s[i]);
        }
    }
}

/// The empty sequence meets every bound and is sorted.
pub proof fn lemma_empty_bounds<T: Ord>(k: T)
    ensures
        all_below(Seq::<T>::empty(), k),
        all_above(Seq::<T>::empty(), k),
        strictly_sorted(Seq::<T>::empty()),
        strictly_sorted(seq![k]),
{
    reveal(all_below);
    reveal(all_above);
    reveal(strictly_sorted);
}

/// A bound on `s` that `v` meets is a bound on `with_value(s, v)`.
pub proof fn lemma_with_value_bounds<T: Ord>(s: Seq<T>, v: T, k: T)
    ensures
        all_below(s, k) && less(v, k) ==> all_below(with_value(s, v), k),
        all_above(s, k) && less(k, v) ==> all_above(with_value(s, v), k),
{
    lemma_keep_bounds(s, before(v), k);
    lemma_keep_bounds(s, after(v), k);
    lemma_bounds_join(keep(s, before(v)), v, keep(s, after(v)), k);
}

/// What a bound says of one element.
pub proof fn lemma_bound_at<T: Ord>(s: Seq<T>, k: T, i: int)
    requires
        0 <= i < s.len(),
    ensures
        all_below(s, k) ==> less(s[i], k),
        all_above(s, k) ==> less(k, s[i]),
{
    reveal(all_below);
    reveal(all_above);
}

/// Taking `x` out of `a`, `x`, `b` and putting the first element of `b` in
/// its place.
pub proof fn lemma_promote_first<T: Ord>(a: Seq<T>, x: T, b: Seq<T>)
    requires
        total_order::<T>(),
        all_below(a, x),
        all_above(b, x),
        strictly_sorted(b),
        b.len() > 0,
    ensures
        without_value(b, b.first()) == b.drop_first(),
        all_below(a, b.first()),
        all_above(b.drop_first(), b.first()),
        a + seq![b.first()] + b.drop_first() == a + b,
        without_value(a + seq![x] + b, x) == a + b,
{
    lemma_without_end(b);
    lemma_bound_at(b, x, 0);
    lemma_bounds_move(a, x, b.first());
    lemma_without_value_join(a, x, b, x);
    assert(a + seq![b.first()] + b.drop_first() =~= a + b);
}

/// Taking `x` out of `a`, `x`, `b` and putting the last element of `a` in
/// its place.
pub proof fn lemma_promote_last<T: Ord>(a: Seq<T>, x: T, b: Seq<T>)
    requires
        total_order::<T>(),
        all_below(a, x),
        all_above(b, x),
        strictly_sorted(a),
        a.len() > 0,
    ensures
        without_value(a, a.last()) == a.drop_last(),
        all_above(b, a.last()),
        all_below(a.drop_last(), a.last()),
        a.drop_last() + seq![a.last()] + b == a + b,
        without_value(a + seq![x] + b, x) == a + b,
{
    lemma_without_end(a);
    lemma_bound_at(a, x, a.len() - 1);
    lemma_bounds_move(b, x, a.last());
    lemma_without_value_join(a, x, b, x);
    assert(a.drop_last() + seq![a.last()] + b =~= a + b);
}

/// Taking a value other than `x` out of `a`, `x`, `b`.
pub proof fn lemma_without_value_side<T: Ord>(a: Seq<T>, x: T, b: Seq<T>, v: T)
    requires
        total_order::<T>(),
        all_below(a, x),
        all_above(b, x),
        v != x,
    ensures
        less(v, x) ==> without_value(a + seq![x] + b, v) == without_value(a, v) + seq![x] + b,
        less(x, v) ==> without_value(a + seq![x] + b, v) == a + seq![x] + without_value(b, v),
        less(v, x) || less(x, v),
        all_below(without_value(a, v), x),
        all_above(without_value(b, v), x),
        without_value(a, v).len() <= a.len(),
        without_value(b, v).len() <= b.len(),
        less(v, x) ==> (a + seq![x] + b).contains(v) == a.contains(v),
        less(x, v) ==> (a + seq![x] + b).contains(v) == b.contains(v),
{
    lemma_trichotomy(v, x);
    lemma_without_value_join(a, x, b, v);
    lemma_contains_join(a, x, b, v);
    lemma_keep_bounds(a, other_than(v), x);
    lemma_keep_bounds(b, other_than(v), x);
}

/// What `all_before` says of the last element of the first sequence and of
/// the first element of the second.
pub proof fn lemma_before_ends<T: Ord>(a: Seq<T>, b: Seq<T>)
    requires
        all_before(a, b),
    ensures
        a.len() > 0 ==> all_above(b, a.last()),
        b.len() > 0 ==> all_below(a, b.first()),
{
    reveal(all_below);
    reveal(all_above);
    reveal(all_before);
}

/// A sequence below `x` comes before `x` and what is above it.
pub proof fn lemma_before_join<T: Ord>(a: Seq<T>, x: T, b: Seq<T>)
    requires
        total_order::<T>(),
        all_below(a, x),
        all_above(b, x),
    ensures
        all_before(a, seq![x] + b),
        all_before(a + seq![x], b),
        all_before(seq![x], b),
        all_before(a, seq![x]),
        all_before(a, b),
        all_before(Seq::<T>::empty(), b),
        all_before(a, Seq::<T>::empty()),
{
    reveal(all_below);
    reveal(all_above);
    reveal(all_before);
    let xb = seq![x] + b;
    let ax = a + seq![x];
    assert forall|i: int, j: int| 0 <= i < a.len() && 0 <= j < xb.len() implies less(
        #[trigger] a[i],
        #[trigger] xb[j],
    ) by {
        if j > 0 {
            assert(xb[j] == b[j - 1]);
            lemma_less_transitive(a[i], x, xb[j]);
        }
    }
    assert forall|i: int, j: int| 0 <= i < ax.len() && 0 <= j < b.len() implies less(
        #[trigger] ax[i],
        #[trigger] b[j],
    ) by {
        if i < a.len() {
            assert(ax[i] == a[i]);
            lemma_less_transitive(ax[i], x, b[j]);
        }
    }
    assert forall|i: int, j: int| 0 <= i < a.len() && 0 <= j < b.len() implies less(
        #[trigger] a[i],
        #[trigger] b[j],
    ) by {
        lemma_less_transitive(a[i], x, b[j]);
    }
}

/// The elements of `without_value(s, v)` are the elements of `s` other than
/// `v`.
pub proof fn lemma_without_value_member<T: Ord>(s: Seq<T>, v: T, e: T)
    ensures
        without_value(s, v).contains(e) <==> (e != v && s.contains(e)),
{
    lemma_keep_member(s, other_than(v), e);
}

/// In a sorted sequence the element of index `i` has exactly the `i`
/// elements before it below it: it is the one of rank `i`.
pub proof fn lemma_rank<T: Ord>(s: Seq<T>, i: int)
    requires
        total_order::<T>(),
        strictly_sorted(s),
        0 <= i < s.len(),
    ensures
        keep(s, before(s[i])) == s.take(i),
        keep(s, before(s[i])).len() == i,
{
    reveal(strictly_sorted);
    let lower = s.take(i);
    let upper = s.skip(i + 1);
    assert(lower + seq![s[i]] + upper =~= s);
    lemma_keep_join(lower, s[i], upper, before(s[i]));
    lemma_trichotomy(s[i], s[i]);
    assert forall|j: int| 0 <= j < lower.len() implies before(s[i])(#[trigger] lower[j]) by {
        assert(lower[j] == s[j]);
    }
    assert forall|j: int| 0 <= j < upper.len() implies !before(s[i])(#[trigger] upper[j]) by {
        assert(upper[j] == s[i + 1 + j]);
        lemma_trichotomy(s[i], upper[j]);
    }
    lemma_keep_all(lower, before(s[i]));
    lemma_keep_none(upper, before(s[i]));
    assert(lower + Seq::<T>::empty() + Seq::<T>::empty() =~= lower);
}

/// A bound on a sorted sequence is a bound on its end: the sequence is
/// below `k` where its last element is, and above `k` where its first
/// element is.
pub proof fn lemma_bounds_by_ends<T: Ord>(s: Seq<T>, k: T)
    requires
        total_order::<T>(),
        strictly_sorted(s),
        s.len() > 0,
    ensures
        all_below(s, k) <==> less(s.last(), k),
        all_above(s, k) <==> less(k, s.first()),
{
    reveal(all_below);
    reveal(all_above);
    reveal(strictly_sorted);
    if less(s.last(), k) {
        assert forall|i: int| 0 <= i < s.len() implies less(#[trigger] s[i], k) by {
            if i < s.len() - 1 {
                lemma_less_transitive(s[i], s.last(), k);
            }
        }
    }
    if less(k, s.first()) {
        assert forall|i: int| 0 <= i < s.len() implies less(k, #[trigger] s[i]) by {
            if i > 0 {
                lemma_less_transitive(k, s.first(), s[i]);
            }
        }
    }
}

/// As sets, `with_value` adds a value and `without_value` takes one away.
pub proof fn lemma_value_sets<T: Ord>(s: Seq<T>, v: T)
    requires
        total_order::<T>(),
    ensures
        with_value(s, v).to_set() == s.to_set().insert(v),
        without_value(s, v).to_set() == s.to_set().remove(v),
{
    assert forall|e: T| with_value(s, v).to_set().contains(e) == s.to_set().insert(v).contains(
        e,
    ) by {
        lemma_with_value_member(s, v, e);
    }
    assert forall|e: T| without_value(s, v).to_set().contains(e) == s.to_set().remove(v).contains(
        e,
    ) by {
        lemma_without_value_member(s, v, e);
    }
    assert(with_value(s, v).to_set() =~= s.to_set().insert(v));
    assert(without_value(s, v).to_set() =~= s.to_set().remove(v));
}

} // verus!
