//! The ordering that the element type of a tree must have: the comparison
//! operators of `Ord`, held to the laws of a strict total order whose
//! equality is equality of values.
use std::cmp::Ordering;
use vstd::prelude::*;
use vstd::std_specs::cmp::OrdSpec;
use vstd::std_specs::cmp::PartialOrdSpec;
use vstd::std_specs::cmp::PartialEqSpec;

verus! {

/// The comparison operators of `T` decide a total order, and `==` on `T`
/// holds exactly of equal values.
pub open spec fn total_order<T: Ord>() -> bool {
    &&& vstd::laws_cmp::obeys_cmp::<T>()
    &&& vstd::laws_eq::obeys_concrete_eq::<T>()
}

/// `a` comes strictly before `b`.
pub open spec fn less<T: Ord>(a: T, b: T) -> bool {
    a.partial_cmp_spec(&b) == Some(Ordering::Less)
}

/// Of two values exactly one holds: the first comes before the second, they
/// are equal, or the second comes before the first.
pub proof fn lemma_trichotomy<T: Ord>(a: T, b: T)
    requires
        total_order::<T>(),
    ensures
        less(a, b) || a == b || less(b, a),
        !(less(a, b) && a == b),
        !(less(b, a) && a == b),
        !(less(a, b) && less(b, a)),
{
    reveal(vstd::laws_cmp::obeys_cmp_partial_ord);
    reveal(vstd::laws_cmp::obeys_cmp_ord);
    reveal(vstd::laws_cmp::obeys_partial_cmp_spec_properties);
    reveal(vstd::laws_eq::obeys_concrete_eq);
    reveal(vstd::laws_eq::obeys_eq_spec_properties);
}

/// `less` is transitive.
pub proof fn lemma_less_transitive<T: Ord>(a: T, b: T, c: T)
    requires
        total_order::<T>(),
        less(a, b),
        less(b, c),
    ensures
        less(a, c),
{
    reveal(vstd::laws_cmp::obeys_partial_cmp_spec_properties);
}

/// What `partial_cmp` answers on a totally ordered type.
pub open spec fn verdict<T: Ord>(a: T, b: T) -> Option<Ordering> {
    if less(a, b) {
        Some(Ordering::Less)
    } else if a == b {
        Some(Ordering::Equal)
    } else {
        Some(Ordering::Greater)
    }
}

/// On a totally ordered type the executable operators `==`, `<`, `<=`, `>`
/// and `>=` answer by equality of values and by `less`.
pub proof fn lemma_operators<T: Ord>()
    requires
        total_order::<T>(),
    ensures
        T::obeys_eq_spec(),
        T::obeys_partial_cmp_spec(),
        forall|a: T, b: T| #[trigger] a.eq_spec(&b) <==> a == b,
        forall|a: T, b: T| #[trigger] a.partial_cmp_spec(&b) == verdict(a, b),
        forall|a: T, b: T|
            #![trigger a.partial_cmp_spec(&b)]
            (less(a, b) || a == b || less(b, a)) && !(less(a, b) && less(b, a)) && !(less(a, b)
                && a == b),
{
    reveal(vstd::laws_cmp::obeys_cmp_partial_ord);
    reveal(vstd::laws_cmp::obeys_cmp_ord);
    reveal(vstd::laws_eq::obeys_concrete_eq);
    assert forall|a: T, b: T| #[trigger] a.partial_cmp_spec(&b) == verdict(a, b) by {
        lemma_trichotomy(a, b);
        assert(a.partial_cmp_spec(&b) == Some(a.cmp_spec(&b)));
    }
    assert forall|a: T, b: T|
        #![trigger a.partial_cmp_spec(&b)]
        (less(a, b) || a == b || less(b, a)) && !(less(a, b) && less(b, a)) && !(less(a, b) && a
            == b) by {
        lemma_trichotomy(a, b);
    }
}

} // verus!
