//! An array-backed range tree over a fixed number of positions: point
//! update with an accumulating function, and combination of the values in a
//! range of positions.
use std::marker::PhantomData;
use vstd::arithmetic::power2::{lemma2_to64, lemma_pow2_pos, lemma_pow2_unfold, pow2};
use vstd::prelude::*;

verus! {

/// `g` can be called on every pair of arguments.
pub open spec fn accepts_all<A, B, R, G: Fn(A, B) -> R>(g: G) -> bool {
    forall|a: A, b: B| #[trigger] call_requires(g, (a, b))
}

/// Whatever `g` returns for two arguments is what `f` gives for them.
pub open spec fn computes<A, B, R, G: Fn(A, B) -> R>(g: G, f: spec_fn(A, B) -> R) -> bool {
    forall|a: A, b: B, r: R| #[trigger] call_ensures(g, (a, b), r) ==> r == f(a, b)
}

/// `f` is an associative operation with the identity `e`.
#[verifier::opaque]
pub open spec fn monoid<T>(f: spec_fn(T, T) -> T, e: T) -> bool {
    &&& forall|a: T| #![trigger f(e, a)] #![trigger f(a, e)] f(e, a) == a && f(a, e) == a
    &&& forall|x: T, y: T, z: T| #![trigger f(f(x, y), z)] f(f(x, y), z) == f(x, f(y, z))
}

/// What `monoid` says of given values.
pub proof fn lemma_monoid<T>(f: spec_fn(T, T) -> T, e: T, x: T, y: T, z: T)
    requires
        monoid(f, e),
    ensures
        f(e, x) == x,
        f(x, e) == x,
        f(f(x, y), z) == f(x, f(y, z)),
{
    reveal(monoid);
}

/// The values of `s` combined by `f` from left to right: `e` for the empty
/// sequence.
pub open spec fn fold<T>(f: spec_fn(T, T) -> T, e: T, s: Seq<T>) -> T
    decreases s.len(),
{
    if s.len() == 0 {
        e
    } else {
        f(s.first(), fold(f, e, s.drop_first()))
    }
}

/// Folding `a` followed by `b` combines what folding each gives.
pub proof fn lemma_fold_add<T>(f: spec_fn(T, T) -> T, e: T, a: Seq<T>, b: Seq<T>)
    requires
        monoid(f, e),
    ensures
        fold(f, e, a + b) == f(fold(f, e, a), fold(f, e, b)),
    decreases a.len(),
{
    if a.len() == 0 {
        assert(a + b =~= b);
        lemma_monoid(f, e, fold(f, e, b), e, e);
    } else {
        assert((a + b).drop_first() =~= a.drop_first() + b);
        assert((a + b).first() == a.first());
        lemma_fold_add(f, e, a.drop_first(), b);
        lemma_monoid(f, e, a.first(), fold(f, e, a.drop_first()), fold(f, e, b));
    }
}

/// Folding one value gives that value.
pub proof fn lemma_fold_one<T>(f: spec_fn(T, T) -> T, e: T, x: T)
    requires
        monoid(f, e),
    ensures
        fold(f, e, seq![x]) == x,
{
    assert(seq![x].drop_first() =~= Seq::<T>::empty());
    assert(fold(f, e, seq![x].drop_first()) == e);
    assert(seq![x].first() == x);
    lemma_monoid(f, e, x, e, e);
}

/// The lowest bit of `x` is its remainder by 2.
proof fn lemma_low_bit(x: usize)
    ensures
        x & 1 == x % 2,
{
    vstd::bits::lemma_low_bits_mask_values();
    lemma2_to64();
    vstd::bits::lemma_usize_low_bits_mask_is_mod(x, 1);
}

/// `j` is `c` or stands above it on the way to the root.
pub open spec fn on_path(j: int, c: int) -> bool
    decreases c,
{
    if c < j || c < 1 {
        false
    } else if c == j {
        true
    } else {
        on_path(j, c / 2)
    }
}

/// A range tree over `n` positions. Slot 0 of the array is unused, the slots
/// from 1 to `size - 1` hold the combination of their two children, and the
/// slots from `size` on hold the values of the positions.
#[verifier::reject_recursive_types(T)]
#[verifier::reject_recursive_types(U)]
#[verifier::reject_recursive_types(C)]
#[verifier::reject_recursive_types(F)]
pub struct SegmentTree<T: Copy + Clone, U: Copy + Clone, C: Fn(T, T) -> T, F: Fn(T, U) -> T> {
    data: Vec<T>,
    n: usize,
    size: usize,
    log: usize,
    combine_func: C,
    update_func: F,
    default: T,
    delta: PhantomData<U>,
}

impl<T: Copy + Clone, U: Copy + Clone, C: Fn(T, T) -> T, F: Fn(T, U) -> T> View for SegmentTree<
    T,
    U,
    C,
    F,
> {
    type V = Seq<T>;

    /// The values of the positions from 0 to `n - 1`.
    closed spec fn view(&self) -> Seq<T> {
        self.data@.subrange(self.size as int, self.size + self.n)
    }
}

impl<T: Copy + Clone, U: Copy + Clone, C: Fn(T, T) -> T, F: Fn(T, U) -> T> SegmentTree<T, U, C, F> {
    /// The function that combines two values.
    pub closed spec fn spec_combine(&self) -> C {
        self.combine_func
    }

    /// The function that brings an update into the value of a position.
    pub closed spec fn spec_update(&self) -> F {
        self.update_func
    }

    /// The value that every position holds at first.
    pub closed spec fn spec_default(&self) -> T {
        self.default
    }

    /// The number of slots of the level of the positions: the smallest power
    /// of two that is at least the number of positions.
    pub closed spec fn spec_size(&self) -> nat {
        self.size as nat
    }

    /// The exponent of `spec_size`: the number of levels above the positions.
    pub closed spec fn spec_log(&self) -> nat {
        self.log as nat
    }

    /// All slots of the array: slot 0, the inner slots from 1 to
    /// `spec_size() - 1`, and from `spec_size()` on the slots of the positions.
    pub closed spec fn slots(&self) -> Seq<T> {
        self.data@
    }

    /// Every inner slot but those above `cur` holds what `f` gives for its
    /// two children.
    spec fn combined_but_above(&self, f: spec_fn(T, T) -> T, cur: int) -> bool {
        forall|j: int|
            1 <= j < self.size ==> #[trigger] self.data@[j] == f(
                self.data@[2 * j],
                self.data@[2 * j + 1],
            ) || (cur >= 2 && on_path(j, cur / 2))
    }

    /// Every inner slot but those above `cur` is combined, whatever
    /// associative operation with the default value as its identity the
    /// combining function computes.
    spec fn combined_for_all(&self, cur: int) -> bool {
        forall|f: spec_fn(T, T) -> T| #[trigger]
            computes(self.combine_func, f) && monoid(f, self.default)
                ==> self.combined_but_above(f, cur)
    }

    spec fn framed(&self) -> bool {
        &&& self.size >= 1
        &&& self.n <= self.size
        &&& (self.size < 2 * self.n || self.size == 1)
        &&& self.size == pow2(self.log as nat)
        &&& self.log < self.size
        &&& self.data@.len() == 2 * self.size
        &&& 2 * self.size <= usize::MAX
        &&& accepts_all(self.combine_func)
        &&& accepts_all(self.update_func)
    }

    /// The invariant of the range tree. The array has twice the size of the
    /// level of the positions, which is a power of two and at least `n`; the
    /// two functions can be called on all arguments; and every inner slot
    /// holds the combination of its two children, whatever associative
    /// operation with the default value as its identity the combining
    /// function computes.
    pub closed spec fn well_formed(&self) -> bool {
        &&& self.framed()
        &&& self.combined_for_all(1)
    }

    /// What the invariant says of the functions and of the positions.
    pub proof fn lemma_well_formed(&self)
        requires
            self.well_formed(),
        ensures
            accepts_all(self.spec_combine()),
            accepts_all(self.spec_update()),
            self@.len() <= usize::MAX / 2,
            self.spec_size() == pow2(self.spec_log()),
            self@.len() <= self.spec_size(),
            self.spec_size() < 2 * self@.len() || self.spec_size() == 1,
            self.slots().len() == 2 * self.spec_size(),
            self@ == self.slots().subrange(
                self.spec_size() as int,
                (self.spec_size() + self@.len()) as int,
            ),
            forall|f: spec_fn(T, T) -> T, j: int|
                #![trigger computes(self.spec_combine(), f), self.slots()[j]]
                computes(self.spec_combine(), f) && monoid(f, self.spec_default()) && 1 <= j
                    < self.spec_size() ==> self.slots()[j] == f(
                    self.slots()[2 * j],
                    self.slots()[2 * j + 1],
                ),
    {
        assert(self@.len() == self.n);
        assert forall|f: spec_fn(T, T) -> T, j: int|
            #![trigger computes(self.spec_combine(), f), self.slots()[j]]
            computes(self.spec_combine(), f) && monoid(f, self.spec_default()) && 1 <= j
                < self.spec_size() implies self.slots()[j] == f(
            self.slots()[2 * j],
            self.slots()[2 * j + 1],
        ) by {
            assert(self.combined_but_above(f, 1));
        }
    }

    /// A range tree over `n` positions that all hold `default`.
    pub fn new(n: usize, combine_func: C, update_func: F, default: T) -> (r: Self)
        requires
            n <= usize::MAX / 4,
            accepts_all(combine_func),
            accepts_all(update_func),
        ensures
            r.well_formed(),
            r@ == Seq::new(n as nat, |i: int| default),
            r.spec_size() == pow2(r.spec_log()),
            r.spec_size() >= n,
            r.spec_size() < 2 * n || r.spec_size() == 1,
            r.slots() == Seq::new(2 * r.spec_size(), |i: int| default),
            r.spec_combine() == combine_func,
            r.spec_update() == update_func,
            r.spec_default() == default,
    {
        let mut size: usize = 1;
        let mut log: usize = 0;
        proof {
            lemma2_to64();
        }
        while size < n
            invariant
                n <= usize::MAX / 4,
                1 <= size,
                size < 2 * n || size == 1,
                size == pow2(log as nat),
                log < size,
            decreases usize::MAX - size,
        {
            proof {
                lemma_pow2_unfold((log + 1) as nat);
                lemma2_to64();
                vstd::bits::lemma_usize_shl_is_mul(size, 1);
            }
            size <<= 1;
            log += 1;
        }
        let mut data: Vec<T> = Vec::with_capacity(2 * size);
        while data.len() < 2 * size
            invariant
                2 * size <= usize::MAX,
                data@.len() <= 2 * size,
                forall|i: int| 0 <= i < data@.len() ==> data@[i] == default,
            decreases 2 * size - data@.len(),
        {
            data.push(default);
        }
        let r = Self {
            data,
            n,
            size,
            log,
            combine_func,
            update_func,
            default,
            delta: PhantomData,
        };
        proof {
            assert(r@ =~= Seq::new(n as nat, |i: int| default));
            assert(r.slots() =~= Seq::new(2 * r.spec_size(), |i: int| default));
            assert forall|f: spec_fn(T, T) -> T| #[trigger]
                computes(r.combine_func, f) && monoid(f, r.default) implies r.combined_but_above(
                f,
                1,
            ) by {
                lemma_monoid(f, default, default, default, default);
            }
        }
        r
    }

    /// Brings `x` into the value of position `v` by the update function, and
    /// recomputes the slots above it up to the root.
    pub fn update(&mut self, v: usize, x: U)
        requires
            old(self).well_formed(),
            v < old(self)@.len(),
        ensures
            final(self).well_formed(),
            call_ensures(old(self).spec_update(), (old(self)@[v as int], x), final(self)@[v as int]),
            final(self)@ == old(self)@.update(v as int, final(self)@[v as int]),
            final(self)@.len() == old(self)@.len(),
            final(self).spec_size() == old(self).spec_size(),
            final(self).spec_log() == old(self).spec_log(),
            forall|h: spec_fn(T, U) -> T| #[trigger]
                computes(old(self).spec_update(), h) ==> final(self)@ == old(self)@.update(
                    v as int,
                    h(old(self)@[v as int], x),
                ),
            final(self).spec_combine() == old(self).spec_combine(),
            final(self).spec_update() == old(self).spec_update(),
            final(self).spec_default() == old(self).spec_default(),
    {
        proof {
            assert(self@.len() == self.n);
        }
        let leaf = (self.update_func)(self.data[v + self.size], x);
        self.data.set(v + self.size, leaf);
        let log = self.log;
        let mut k = v + self.size;
        proof {
            assert(self@ =~= old(self)@.update(v as int, leaf));
            assert forall|f: spec_fn(T, T) -> T| #[trigger]
                computes(self.combine_func, f) && monoid(
                    f,
                    self.default,
                ) implies self.combined_but_above(f, k as int) by {
                assert(old(self).combined_but_above(f, 1));
                assert forall|j: int| 1 <= j < self.size implies #[trigger] self.data@[j] == f(
                    self.data@[2 * j],
                    self.data@[2 * j + 1],
                ) || (k >= 2 && on_path(j, k as int / 2)) by {
                    if 2 * j == k || 2 * j + 1 == k {
                        assert(on_path(j, k as int / 2));
                    }
                }
            }
        }
        for i in 1..log + 1
            invariant
                self.framed(),
                self.combined_for_all(k as int),
                log == self.log,
                self.size == old(self).size,
                pow2((log + 1 - i) as nat) <= k < 2 * pow2((log + 1 - i) as nat),
                1 <= k < 2 * self.size,
                self@ == old(self)@.update(v as int, leaf),
                self.n == old(self).n,
                self.combine_func == old(self).combine_func,
                self.update_func == old(self).update_func,
                self.default == old(self).default,
        {
            let ghost before = *self;
            let ghost below = k;
            proof {
                lemma_pow2_unfold((log + 1 - i) as nat);
                lemma_pow2_pos((log - i) as nat);
                lemma2_to64();
                vstd::bits::lemma_usize_shr_is_div(k, 1);
            }
            k = k >> 1;
            self.update_node(k);
            proof {
                assert(self@ =~= before@);
                assert forall|f: spec_fn(T, T) -> T| #[trigger]
                    computes(self.combine_func, f) && monoid(
                        f,
                        self.default,
                    ) implies self.combined_but_above(f, k as int) by {
                    assert(before.combined_but_above(f, below as int));
                    assert forall|j: int| 1 <= j < self.size implies #[trigger] self.data@[j]
                        == f(self.data@[2 * j], self.data@[2 * j + 1]) || (k >= 2 && on_path(
                        j,
                        k as int / 2,
                    )) by {
                        assert(before.data@[j] == f(before.data@[2 * j], before.data@[2 * j + 1])
                            || on_path(j, k as int));
                        if j != k {
                            if 2 * j == k || 2 * j + 1 == k {
                                assert(on_path(j, k as int / 2));
                            }
                        }
                    }
                }
            }
        }
        proof {
            lemma2_to64();
        }
    }

    /// The value of position `v`.
    pub fn get(&self, v: usize) -> (r: T)
        requires
            self.well_formed(),
            v < self@.len(),
        ensures
            r == self@[v as int],
    {
        proof {
            assert(self@.len() == self.n);
        }
        self.data[v + self.size]
    }

    /// Stores in slot `k` the combination of its two children.
    fn update_node(&mut self, k: usize)
        requires
            old(self).framed(),
            1 <= k < old(self).size,
        ensures
            call_ensures(
                old(self).combine_func,
                (old(self).data@[2 * k], old(self).data@[2 * k + 1]),
                final(self).data@[k as int],
            ),
            final(self).data@ == old(self).data@.update(k as int, final(self).data@[k as int]),
            final(self).n == old(self).n,
            final(self).size == old(self).size,
            final(self).log == old(self).log,
            final(self).combine_func == old(self).combine_func,
            final(self).update_func == old(self).update_func,
            final(self).default == old(self).default,
    {
        let both = (self.combine_func)(self.data[2 * k], self.data[2 * k + 1]);
        self.data.set(k, both);
    }

    /// The slots from `l` up to `r` combined by `f` from left to right.
    spec fn cover(&self, f: spec_fn(T, T) -> T, l: int, r: int) -> T {
        fold(f, self.default, self.data@.subrange(l, r))
    }

    proof fn lemma_cover_first(&self, f: spec_fn(T, T) -> T, l: int, r: int)
        requires
            self.framed(),
            0 <= l < r <= 2 * self.size,
        ensures
            self.cover(f, l, r) == f(self.data@[l], self.cover(f, l + 1, r)),
    {
        assert(self.data@.subrange(l, r).drop_first() =~= self.data@.subrange(l + 1, r));
    }

    proof fn lemma_cover_last(&self, f: spec_fn(T, T) -> T, l: int, r: int)
        requires
            self.framed(),
            monoid(f, self.default),
            0 <= l < r <= 2 * self.size,
        ensures
            self.cover(f, l, r) == f(self.cover(f, l, r - 1), self.data@[r - 1]),
    {
        assert(self.data@.subrange(l, r) =~= self.data@.subrange(l, r - 1) + seq![
            self.data@[r - 1],
        ]);
        lemma_fold_add(f, self.default, self.data@.subrange(l, r - 1), seq![self.data@[r - 1]]);
        lemma_fold_one(f, self.default, self.data@[r - 1]);
    }

    /// The slots of one level from an even `l` up to an even `r` combine to
    /// what their parents combine to.
    proof fn lemma_cover_halves(&self, f: spec_fn(T, T) -> T, l: int, r: int)
        requires
            self.framed(),
            monoid(f, self.default),
            self.combined_but_above(f, 1),
            1 <= l <= r <= 2 * self.size,
            l % 2 == 0,
            r % 2 == 0,
        ensures
            self.cover(f, l, r) == self.cover(f, l / 2, r / 2),
        decreases r - l,
    {
        if l == r {
            assert(self.data@.subrange(l, r) =~= self.data@.subrange(l / 2, r / 2));
        } else {
            self.lemma_cover_first(f, l, r);
            self.lemma_cover_first(f, l + 1, r);
            self.lemma_cover_halves(f, l + 2, r);
            self.lemma_cover_first(f, l / 2, r / 2);
            let parent = l / 2;
            assert(self.data@[parent] == f(self.data@[2 * parent], self.data@[2 * parent + 1]));
            lemma_monoid(
                f,
                self.default,
                self.data@[l],
                self.data@[l + 1],
                self.cover(f, l + 2, r),
            );
        }
    }

    /// The values of the positions from `l` up to `r` combined from left to
    /// right, whatever associative operation with the default value as its
    /// identity the combining function computes; the default value where
    /// there is no such position.
    pub fn get_all(&self, l: usize, r: usize) -> (res: T)
        requires
            self.well_formed(),
            l <= self@.len(),
            r <= self@.len(),
        ensures
            forall|f: spec_fn(T, T) -> T| #[trigger]
                computes(self.spec_combine(), f) && monoid(f, self.spec_default()) ==> {
                    &&& l <= r ==> res == fold(
                        f,
                        self.spec_default(),
                        self@.subrange(l as int, r as int),
                    )
                    &&& l >= r ==> res == self.spec_default()
                },
    {
        let ghost first = l + self.size;
        let ghost last = r + self.size;
        proof {
            assert(self@.len() == self.n);
            if l <= r {
                assert(self@.subrange(l as int, r as int) =~= self.data@.subrange(first, last));
            }
            if l == r {
                assert(self@.subrange(l as int, r as int) =~= Seq::<T>::empty());
            }
            assert forall|f: spec_fn(T, T) -> T| #[trigger]
                computes(self.combine_func, f) && monoid(f, self.default) implies self.cover(
                f,
                first,
                last,
            ) == f(self.default, f(self.cover(f, first, last), self.default)) by {
                let whole = self.cover(f, first, last);
                lemma_monoid(f, self.default, whole, whole, whole);
            }
        }
        let mut sml = self.default;
        let mut smr = self.default;
        let mut lo = l + self.size;
        let mut hi = r + self.size;
        while lo < hi
            invariant
                self.well_formed(),
                1 <= lo <= 2 * self.size,
                hi <= 2 * self.size,
                first > last ==> lo >= hi && sml == self.default && smr == self.default,
                first <= last ==> lo <= hi,
                forall|f: spec_fn(T, T) -> T| #[trigger]
                    computes(self.combine_func, f) && monoid(f, self.default) ==> self.cover(
                        f,
                        first,
                        last,
                    ) == f(sml, f(self.cover(f, lo as int, hi as int), smr)),
            decreases hi,
        {
            let ghost lo0 = lo;
            let ghost hi0 = hi;
            let ghost sml0 = sml;
            let ghost smr0 = smr;
            proof {
                lemma_low_bit(lo);
                lemma_low_bit(hi);
                lemma2_to64();
            }
            if lo & 1 != 0 {
                sml = (self.combine_func)(sml, self.data[lo]);
                lo = lo + 1;
            }
            let ghost lo1 = lo;
            if hi & 1 != 0 {
                hi = hi - 1;
                smr = (self.combine_func)(self.data[hi], smr);
            }
            let ghost hi1 = hi;
            proof {
                vstd::bits::lemma_usize_shr_is_div(lo, 1);
                vstd::bits::lemma_usize_shr_is_div(hi, 1);
            }
            lo = lo >> 1;
            hi = hi >> 1;
            proof {
                assert forall|f: spec_fn(T, T) -> T| #[trigger]
                    computes(self.combine_func, f) && monoid(f, self.default) implies self.cover(
                    f,
                    first,
                    last,
                ) == f(sml, f(self.cover(f, lo as int, hi as int), smr)) by {
                    let e = self.default;
                    assert(self.combined_but_above(f, 1));
                    self.lemma_cover_first(f, lo0 as int, hi0 as int);
                    if lo0 % 2 == 1 {
                        let rest = self.cover(f, lo0 + 1, hi0 as int);
                        lemma_monoid(f, e, self.data@[lo0 as int], rest, smr0);
                        lemma_monoid(f, e, sml0, self.data@[lo0 as int], f(rest, smr0));
                    }
                    if hi0 % 2 == 1 {
                        self.lemma_cover_last(f, lo1 as int, hi0 as int);
                        lemma_monoid(
                            f,
                            e,
                            self.cover(f, lo1 as int, hi0 - 1),
                            self.data@[hi0 - 1],
                            smr0,
                        );
                    }
                    self.lemma_cover_halves(f, lo1 as int, hi1 as int);
                }
            }
        }
        proof {
            assert forall|f: spec_fn(T, T) -> T| #[trigger]
                computes(self.combine_func, f) && monoid(f, self.default) implies (first <= last
                ==> self.cover(f, first, last) == f(sml, smr)) && f(self.default, self.default)
                == self.default by {
                if first <= last {
                    assert(self.data@.subrange(lo as int, hi as int) =~= Seq::<T>::empty());
                }
                lemma_monoid(f, self.default, smr, smr, smr);
                lemma_monoid(f, self.default, self.default, smr, smr);
            }
        }
        (self.combine_func)(sml, smr)
    }
}

} // verus!
