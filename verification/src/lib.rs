//! Two ordered, aggregate-augmented containers: a height-balanced search tree
//! with rank lookup, split, merge and range aggregates, and an array-backed
//! range tree with point update and range combine.
use vstd::prelude::*;

pub mod avl_tree;
pub mod history;
pub mod order;
pub mod segment_tree;
pub mod sorted;

verus! {

/// `replace_with::replace_with` moves the value out of `dest`, hands it to
/// `f`, and stores what `f` returns back in `dest`. `default` is called only
/// while `f` unwinds.
pub assume_specification<T, D: FnOnce() -> T, F: FnOnce(T) -> T>[ replace_with::replace_with::<T, D, F> ](
    dest: &mut T,
    default: D,
    f: F,
)
    requires
        default.requires(()),
        f.requires((*old(dest),)),
    ensures
        f.ensures((*old(dest),), *final(dest)),
;

} // verus!
