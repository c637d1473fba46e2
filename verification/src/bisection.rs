//! The scan of an interval for sign changes.
//!
//! The interval is cut into equal sub-intervals, and each one across which
//! the function changes sign is reported as a bracket: a root is likely to lie
//! inside it. A root that the function touches without crossing zero, or two
//! roots within one sub-interval, go unnoticed.
use crate::dual::{image, lifted, value, well_behaved, Coerceable, Derivable};
use crate::scalar::{
    difference, epsilon_value, is_negative, is_positive, of_int, product, quotient, sum, Scalar,
};
use vstd::prelude::*;

verus! {

/// What to scan: the interval from `lower` to `upper`, cut into `resolution`
/// sub-intervals.
pub struct BisectionOptions<T> where T: Scalar {
    pub lower: T,
    pub upper: T,
    pub resolution: i32,
}

/// A bracket: the two ends of a sub-interval across which the function
/// changes sign.
pub struct BisectionResult<T> where T: Scalar {
    pub lower: T,
    pub upper: T,
}

/// The distance from one sample point to the next: the width of the interval
/// divided by the number of sub-intervals, and an epsilon more. The epsilon
/// keeps a root that sits on a sample point from being missed; with it the
/// last sample points lie a little beyond `upper`.
pub open spec fn stride<T: Scalar>(opts: BisectionOptions<T>) -> T {
    sum(
        quotient(difference(opts.upper, opts.lower), of_int::<T>(opts.resolution)),
        epsilon_value::<T>(),
    )
}

/// The `i`-th sample point, counted from `lower`.
pub open spec fn sample_point<T: Scalar>(opts: BisectionOptions<T>, i: int) -> T {
    sum(opts.lower, product(stride(opts), of_int::<T>(i as i32)))
}

/// The `i`-th sub-interval: from the `i`-th sample point to the next.
pub open spec fn sub_interval<T: Scalar>(opts: BisectionOptions<T>, i: int) -> BisectionResult<T> {
    BisectionResult { lower: sample_point(opts, i), upper: sample_point(opts, i + 1) }
}

/// All sub-intervals, from left to right. There is none where `resolution`
/// is not positive.
pub open spec fn sub_intervals<T: Scalar>(opts: BisectionOptions<T>) -> Seq<BisectionResult<T>> {
    Seq::new(
        if opts.resolution > 0 {
            opts.resolution as nat
        } else {
            0
        },
        |i: int| sub_interval(opts, i),
    )
}

/// The value of `f` at the plain number `x`, read from an evaluation that
/// tracks no derivative.
pub open spec fn plain_value<F: Fn(N) -> N, N: Derivable<T> + Coerceable<T>, T: Scalar>(
    f: F,
    x: T,
) -> T {
    value::<N, T>(image(f, lifted::<N, T>(x)))
}

/// Whether `f` is strictly positive at one end of `b` and strictly negative
/// at the other. A zero at either end is no sign change.
pub open spec fn changes_sign<F: Fn(N) -> N, N: Derivable<T> + Coerceable<T>, T: Scalar>(
    f: F,
    b: BisectionResult<T>,
) -> bool {
    let at_lower = plain_value::<F, N, T>(f, b.lower);
    let at_upper = plain_value::<F, N, T>(f, b.upper);
    ||| is_positive(at_lower) && is_negative(at_upper)
    ||| is_negative(at_lower) && is_positive(at_upper)
}

/// The brackets of `f`: the sub-intervals across which it changes sign, from
/// left to right.
pub open spec fn brackets<F: Fn(N) -> N, N: Derivable<T> + Coerceable<T>, T: Scalar>(
    f: F,
    opts: BisectionOptions<T>,
) -> Seq<BisectionResult<T>> {
    sub_intervals(opts).filter(|b: BisectionResult<T>| changes_sign::<F, N, T>(f, b))
}

/// Scans the interval of `opts` and returns the brackets of `f` in it, from
/// left to right.
pub fn find_bisections<F, N, T>(f: F, opts: BisectionOptions<T>) -> (res: Vec<BisectionResult<T>>)
    where
        F: Fn(N) -> N + Sync + Send + Copy,
        N: Derivable<T> + Coerceable<T> + Copy,
        T: Scalar,
    requires
        well_behaved::<F, N, T>(f),
    ensures
        res@ == brackets::<F, N, T>(f, opts),
{
    let step = opts.upper.sub(opts.lower).div(T::from_i32(opts.resolution)).add(T::epsilon());
    let mut values: Vec<BisectionResult<T>> = Vec::new();
    let ghost all = sub_intervals(opts);
    let ghost crossing = |b: BisectionResult<T>| changes_sign::<F, N, T>(f, b);
    let mut i: i32 = 0;
    while i < opts.resolution
        invariant
            well_behaved::<F, N, T>(f),
            step == stride(opts),
            all == sub_intervals(opts),
            crossing == |b: BisectionResult<T>| changes_sign::<F, N, T>(f, b),
            0 <= i,
            i == 0 || i <= opts.resolution,
            values@ == all.take(i as int).filter(crossing),
        decreases opts.resolution - i,
    {
        let a = opts.lower.add(step.mul(T::from_i32(i)));
        let b = opts.lower.add(step.mul(T::from_i32(i + 1)));
        let fa = f(N::coerce_from(a));
        let fb = f(N::coerce_from(b));
        let pos2neg = T::zero().lt(fa.zeroth_derivative()) && fb.zeroth_derivative().lt(T::zero());
        let neg2pos = fa.zeroth_derivative().lt(T::zero()) && T::zero().lt(fb.zeroth_derivative());
        let ghost found = BisectionResult { lower: a, upper: b };
        proof {
            assert(all.take(i + 1) =~= all.take(i as int).push(found));
            all.take(i as int).lemma_filter_push(found, crossing);
        }
        if pos2neg || neg2pos {
            values.push(BisectionResult { lower: a, upper: b });
        }
        i += 1;
    }
    proof {
        assert(all.take(i as int) =~= all);
    }
    values
}

/// Every bracket of a scan is one of its sub-intervals, and `f` is strictly
/// positive at one of its ends and strictly negative at the other.
pub proof fn lemma_brackets_change_sign<
    F: Fn(N) -> N,
    N: Derivable<T> + Coerceable<T>,
    T: Scalar,
>(f: F, opts: BisectionOptions<T>, k: int)
    requires
        0 <= k < brackets::<F, N, T>(f, opts).len(),
    ensures
        changes_sign::<F, N, T>(f, brackets::<F, N, T>(f, opts)[k]),
        sub_intervals(opts).contains(brackets::<F, N, T>(f, opts)[k]),
{
    let crossing = |b: BisectionResult<T>| changes_sign::<F, N, T>(f, b);
    let found = brackets::<F, N, T>(f, opts);
    sub_intervals(opts).lemma_filter_pred(crossing, k);
    assert(found.contains(found[k]));
    sub_intervals(opts).lemma_filter_contains_rev(crossing, found[k]);
}

/// Where `f` changes sign across no sub-interval, the scan finds no bracket.
pub proof fn lemma_no_sign_change_no_bracket<
    F: Fn(N) -> N,
    N: Derivable<T> + Coerceable<T>,
    T: Scalar,
>(f: F, opts: BisectionOptions<T>)
    requires
        forall|i: int|
            0 <= i < opts.resolution ==> !changes_sign::<F, N, T>(f, #[trigger] sub_interval(opts, i)),
    ensures
        brackets::<F, N, T>(f, opts) == Seq::<BisectionResult<T>>::empty(),
{
    let crossing = |b: BisectionResult<T>| changes_sign::<F, N, T>(f, b);
    let all = sub_intervals(opts);
    assert forall|i: int| 0 <= i < all.len() implies !crossing(#[trigger] all[i]) by {
        assert(all[i] == sub_interval(opts, i));
    }
    all.lemma_all_neg_filter_empty(crossing);
    assert(brackets::<F, N, T>(f, opts) =~= Seq::<BisectionResult<T>>::empty());
}

} // verus!
