//! The search for all roots in an interval.
//!
//! The interval is scanned once for brackets. Each bracket is then probed
//! from evenly spaced seeds, left to right, by Newton's method, until a run
//! fails or settles on a root strictly inside the bracket. A bracket gives at
//! most one root.
use crate::bisection::{
    brackets, changes_sign, find_bisections, lemma_brackets_change_sign,
    lemma_no_sign_change_no_bracket, sub_interval, sub_intervals, BisectionOptions,
    BisectionResult,
};
use crate::dual::{well_behaved, Coerceable, Derivable};
use crate::newton::{newton, newton_outcome, NewtonOptions};
use crate::scalar::{
    difference, less, of_int, order_is_transitive, product, quotient, sum, Scalar,
};
use vstd::prelude::*;

verus! {

/// The number of seeds from which a bracket is probed.
pub const SEEDS: i32 = 100;

/// What to search: the interval from `lower` to `upper`, scanned in
/// `resolution` sub-intervals, and the patience and tolerance of each run of
/// Newton's method.
pub struct RootSearchOptions<T> where T: Scalar {
    pub patience: i32,
    pub tolerance: T,
    pub lower: T,
    pub upper: T,
    pub resolution: i32,
}

/// What a search found: the confirmed roots, in the order of their brackets,
/// and all brackets of the scan, with or without a root.
pub struct RootSearchResult<T> where T: Scalar {
    pub roots: Vec<T>,
    pub bisections: Vec<BisectionResult<T>>,
}

/// Why an interval cannot be searched.
#[derive(Clone, Copy, Debug, PartialEq, Eq)]
pub enum IntervalError {
    /// The upper bound lies below the lower bound.
    Inverted,
    /// Neither bound lies below the other: they are equal, or cannot be
    /// ordered.
    Degenerate,
}

/// The scan that a search makes.
pub open spec fn scan_of<T: Scalar>(opts: RootSearchOptions<T>) -> BisectionOptions<T> {
    BisectionOptions { lower: opts.lower, upper: opts.upper, resolution: opts.resolution }
}

/// The distance from one seed of the bracket `b` to the next: a hundredth of
/// its width.
pub open spec fn seed_spacing<T: Scalar>(b: BisectionResult<T>) -> T {
    quotient(difference(b.upper, b.lower), of_int::<T>(SEEDS))
}

/// The `i`-th seed of the bracket `b`. The first one is its lower end.
pub open spec fn seed<T: Scalar>(b: BisectionResult<T>, i: int) -> T {
    sum(b.lower, product(of_int::<T>(i as i32), seed_spacing(b)))
}

/// The root on which Newton's method settles from the `i`-th seed of `b`,
/// if it settles.
pub open spec fn refined<F: Fn(N) -> N, N: Derivable<T> + Coerceable<T>, T: Scalar>(
    f: F,
    opts: RootSearchOptions<T>,
    b: BisectionResult<T>,
    i: int,
) -> Option<T> {
    newton_outcome::<F, N, T>(
        f,
        NewtonOptions { guess: seed(b, i), patience: opts.patience, tolerance: opts.tolerance },
    ).root
}

/// Whether `r` lies strictly between the two ends of `b`.
pub open spec fn lies_inside<T: Scalar>(b: BisectionResult<T>, r: T) -> bool {
    less(b.lower, r) && less(r, b.upper)
}

/// Whether the probing of `b` stops at its `i`-th seed: the run from it
/// fails, or settles strictly inside `b`. A run that settles outside `b` is
/// passed over.
pub open spec fn stops_at<F: Fn(N) -> N, N: Derivable<T> + Coerceable<T>, T: Scalar>(
    f: F,
    opts: RootSearchOptions<T>,
    b: BisectionResult<T>,
    i: int,
) -> bool {
    match refined::<F, N, T>(f, opts, b, i) {
        None => true,
        Some(r) => lies_inside(b, r),
    }
}

/// Whether the `i`-th seed of `b` is the first one at which the probing stops.
pub open spec fn is_last_seed<F: Fn(N) -> N, N: Derivable<T> + Coerceable<T>, T: Scalar>(
    f: F,
    opts: RootSearchOptions<T>,
    b: BisectionResult<T>,
    i: int,
) -> bool {
    &&& 0 <= i < SEEDS
    &&& stops_at::<F, N, T>(f, opts, b, i)
    &&& forall|j: int| 0 <= j < i ==> !#[trigger] stops_at::<F, N, T>(f, opts, b, j)
}

/// The root confirmed in the bracket `b`: what the run from the first seed
/// at which the probing stops has found. There is none where that run failed,
/// and none where the probing stops at no seed.
pub open spec fn confirmed<F: Fn(N) -> N, N: Derivable<T> + Coerceable<T>, T: Scalar>(
    f: F,
    opts: RootSearchOptions<T>,
    b: BisectionResult<T>,
) -> Option<T> {
    if exists|i: int| is_last_seed::<F, N, T>(f, opts, b, i) {
        refined::<F, N, T>(f, opts, b, choose|i: int| is_last_seed::<F, N, T>(f, opts, b, i))
    } else {
        None
    }
}

/// The roots confirmed in the brackets `bs`, in the order of the brackets.
pub open spec fn roots_in<F: Fn(N) -> N, N: Derivable<T> + Coerceable<T>, T: Scalar>(
    f: F,
    opts: RootSearchOptions<T>,
    bs: Seq<BisectionResult<T>>,
) -> Seq<T> {
    bs.filter_map(|b: BisectionResult<T>| confirmed::<F, N, T>(f, opts, b))
}

/// Whether `res` is what the search of `f` under `opts` finds.
pub open spec fn is_search_result<F: Fn(N) -> N, N: Derivable<T> + Coerceable<T>, T: Scalar>(
    f: F,
    opts: RootSearchOptions<T>,
    res: RootSearchResult<T>,
) -> bool {
    &&& res.bisections@ == brackets::<F, N, T>(f, scan_of(opts))
    &&& res.roots@ == roots_in::<F, N, T>(f, opts, res.bisections@)
}

/// Whether the run from the `i`-th seed of `b` settles outside `b`, so that
/// the probing passes on to the next seed.
pub open spec fn passes_over<F: Fn(N) -> N, N: Derivable<T> + Coerceable<T>, T: Scalar>(
    f: F,
    opts: RootSearchOptions<T>,
    b: BisectionResult<T>,
    i: int,
) -> bool {
    refined::<F, N, T>(f, opts, b, i) matches Some(q) && !lies_inside(b, q)
}

/// Whether the run from the `i`-th seed of `b` settles on `r` strictly inside
/// `b`, after the runs from all seeds before it have settled outside `b`.
pub open spec fn found_from<F: Fn(N) -> N, N: Derivable<T> + Coerceable<T>, T: Scalar>(
    f: F,
    opts: RootSearchOptions<T>,
    b: BisectionResult<T>,
    r: T,
    i: int,
) -> bool {
    &&& 0 <= i < SEEDS
    &&& refined::<F, N, T>(f, opts, b, i) == Some(r)
    &&& lies_inside(b, r)
    &&& forall|j: int| 0 <= j < i ==> #[trigger] passes_over::<F, N, T>(f, opts, b, j)
}

/// Whether the bracket `b` stays within the bounds of the search: its lower
/// end is not below `opts.lower`, and its upper end not above `opts.upper`.
pub open spec fn stays_within<T: Scalar>(opts: RootSearchOptions<T>, b: BisectionResult<T>) -> bool {
    !less(b.lower, opts.lower) && !less(opts.upper, b.upper)
}

/// Probes the bracket `b` and returns the root confirmed in it.
fn confirm<F, N, T>(f: F, opts: &RootSearchOptions<T>, b: &BisectionResult<T>) -> (res: Option<T>)
    where
        F: Fn(N) -> N + Sync + Send + Copy,
        N: Derivable<T> + Coerceable<T> + Copy,
        T: Scalar,
    requires
        well_behaved::<F, N, T>(f),
        opts.patience < i32::MAX,
    ensures
        res == confirmed::<F, N, T>(f, *opts, *b),
{
    let step = b.upper.sub(b.lower).div(T::from_i32(SEEDS));
    let mut i: i32 = 0;
    while i < SEEDS
        invariant
            well_behaved::<F, N, T>(f),
            opts.patience < i32::MAX,
            step == seed_spacing(*b),
            0 <= i <= SEEDS,
            forall|j: int| 0 <= j < i ==> !#[trigger] stops_at::<F, N, T>(f, *opts, *b, j),
        decreases SEEDS - i,
    {
        let guess = b.lower.add(T::from_i32(i).mul(step));
        let run = newton(
            f,
            NewtonOptions { guess, patience: opts.patience, tolerance: opts.tolerance },
        );
        match run.root {
            None => {
                proof {
                    lemma_last_seed_is_unique::<F, N, T>(f, *opts, *b, i as int);
                }
                return None;
            },
            Some(root) => {
                if b.lower.lt(root) && root.lt(b.upper) {
                    proof {
                        lemma_last_seed_is_unique::<F, N, T>(f, *opts, *b, i as int);
                    }
                    return Some(root);
                }
            },
        }
        i += 1;
    }
    None
}

/// Finds the roots of `f` in the interval from `opts.lower` to `opts.upper`.
///
/// The bounds must be in ascending order and apart; [`try_root_search`] tests
/// that first.
pub fn root_search<F, N, T>(f: F, opts: RootSearchOptions<T>) -> (res: RootSearchResult<T>)
    where
        F: Fn(N) -> N + Sync + Send + Copy,
        N: Derivable<T> + Coerceable<T> + Copy,
        T: Scalar,
    requires
        well_behaved::<F, N, T>(f),
        opts.patience < i32::MAX,
        less(opts.lower, opts.upper),
    ensures
        is_search_result::<F, N, T>(f, opts, res),
{
    let bisections = find_bisections(
        f,
        BisectionOptions { lower: opts.lower, upper: opts.upper, resolution: opts.resolution },
    );
    let mut roots: Vec<T> = Vec::new();
    let ghost confirm_in = |b: BisectionResult<T>| confirmed::<F, N, T>(f, opts, b);
    let mut k: usize = 0;
    while k < bisections.len()
        invariant
            well_behaved::<F, N, T>(f),
            opts.patience < i32::MAX,
            confirm_in == |b: BisectionResult<T>| confirmed::<F, N, T>(f, opts, b),
            k <= bisections.len(),
            roots@ == bisections@.take(k as int).filter_map(confirm_in),
        decreases bisections.len() - k,
    {
        let found = confirm(f, &opts, &bisections[k]);
        proof {
            bisections@.lemma_filter_map_take_succ(confirm_in, k as int);
        }
        match found {
            Some(root) => {
                roots.push(root);
            },
            None => {},
        }
        k += 1;
    }
    proof {
        assert(bisections@.take(k as int) =~= bisections@);
    }
    RootSearchResult { roots, bisections }
}

/// Finds the roots of `f` in the interval from `opts.lower` to `opts.upper`,
/// or says why the interval cannot be searched. Nothing is scanned for an
/// interval that is refused.
pub fn try_root_search<F, N, T>(f: F, opts: RootSearchOptions<T>) -> (res: Result<
    RootSearchResult<T>,
    IntervalError,
>)
    where
        F: Fn(N) -> N + Sync + Send + Copy,
        N: Derivable<T> + Coerceable<T> + Copy,
        T: Scalar,
    requires
        well_behaved::<F, N, T>(f),
        opts.patience < i32::MAX,
    ensures
        match res {
            Ok(found) => less(opts.lower, opts.upper) && is_search_result::<F, N, T>(
                f,
                opts,
                found,
            ),
            Err(IntervalError::Inverted) => !less(opts.lower, opts.upper) && less(
                opts.upper,
                opts.lower,
            ),
            Err(IntervalError::Degenerate) => !less(opts.lower, opts.upper) && !less(
                opts.upper,
                opts.lower,
            ),
        },
{
    if opts.lower.lt(opts.upper) {
        Ok(root_search(f, opts))
    } else if opts.upper.lt(opts.lower) {
        Err(IntervalError::Inverted)
    } else {
        Err(IntervalError::Degenerate)
    }
}

/// The probing of a bracket stops first at one seed only, and what the run
/// from that seed found is what the bracket gives.
pub proof fn lemma_last_seed_is_unique<F: Fn(N) -> N, N: Derivable<T> + Coerceable<T>, T: Scalar>(
    f: F,
    opts: RootSearchOptions<T>,
    b: BisectionResult<T>,
    i: int,
)
    requires
        is_last_seed::<F, N, T>(f, opts, b, i),
    ensures
        confirmed::<F, N, T>(f, opts, b) == refined::<F, N, T>(f, opts, b, i),
{
    let chosen = choose|k: int| is_last_seed::<F, N, T>(f, opts, b, k);
    if chosen < i {
        assert(!stops_at::<F, N, T>(f, opts, b, chosen));
    }
    if i < chosen {
        assert(!stops_at::<F, N, T>(f, opts, b, i));
    }
}

/// A root is confirmed in a bracket exactly where the run from one of its
/// seeds settles on that root strictly inside the bracket, and the runs from
/// all seeds before it settled outside the bracket.
pub proof fn lemma_confirmed_root<F: Fn(N) -> N, N: Derivable<T> + Coerceable<T>, T: Scalar>(
    f: F,
    opts: RootSearchOptions<T>,
    b: BisectionResult<T>,
    r: T,
)
    ensures
        confirmed::<F, N, T>(f, opts, b) == Some(r) <==> exists|i: int|
            found_from::<F, N, T>(f, opts, b, r, i),
{
    if confirmed::<F, N, T>(f, opts, b) == Some(r) {
        let chosen = choose|i: int| is_last_seed::<F, N, T>(f, opts, b, i);
        assert(stops_at::<F, N, T>(f, opts, b, chosen));
        assert forall|j: int| 0 <= j < chosen implies #[trigger] passes_over::<F, N, T>(
            f,
            opts,
            b,
            j,
        ) by {
            assert(!stops_at::<F, N, T>(f, opts, b, j));
        }
        assert(found_from::<F, N, T>(f, opts, b, r, chosen));
    }
    if exists|i: int| found_from::<F, N, T>(f, opts, b, r, i) {
        let i = choose|i: int| found_from::<F, N, T>(f, opts, b, r, i);
        assert forall|j: int| 0 <= j < i implies !#[trigger] stops_at::<F, N, T>(
            f,
            opts,
            b,
            j,
        ) by {
            assert(passes_over::<F, N, T>(f, opts, b, j));
        }
        lemma_last_seed_is_unique::<F, N, T>(f, opts, b, i);
    }
}

/// Every root of a search lies strictly inside one of its brackets, and
/// every bracket is a sub-interval of the scan.
pub proof fn lemma_roots_lie_in_brackets<
    F: Fn(N) -> N,
    N: Derivable<T> + Coerceable<T>,
    T: Scalar,
>(f: F, opts: RootSearchOptions<T>, res: RootSearchResult<T>, k: int)
    requires
        is_search_result::<F, N, T>(f, opts, res),
        0 <= k < res.roots@.len(),
    ensures
        exists|j: int|
            0 <= j < res.bisections@.len() && lies_inside(
                #[trigger] res.bisections@[j],
                res.roots@[k],
            ),
        forall|j: int|
            0 <= j < res.bisections@.len() ==> sub_intervals(scan_of(opts)).contains(
                #[trigger] res.bisections@[j],
            ),
{
    let confirm_in = |b: BisectionResult<T>| confirmed::<F, N, T>(f, opts, b);
    let root = res.roots@[k];
    assert(res.roots@.contains(root));
    res.bisections@.lemma_filter_map_contains(confirm_in, root);
    let b = choose|b: BisectionResult<T>| #[trigger]
        res.bisections@.contains(b) && confirm_in(b) == Some(root);
    lemma_confirmed_root::<F, N, T>(f, opts, b, root);
    let i = choose|i: int| found_from::<F, N, T>(f, opts, b, root, i);
    assert(found_from::<F, N, T>(f, opts, b, root, i));
    let j = choose|j: int| 0 <= j < res.bisections@.len() && res.bisections@[j] == b;
    assert(lies_inside(res.bisections@[j], root));
    assert forall|j: int| 0 <= j < res.bisections@.len() implies sub_intervals(
        scan_of(opts),
    ).contains(#[trigger] res.bisections@[j]) by {
        lemma_brackets_change_sign::<F, N, T>(f, scan_of(opts), j);
    }
}

/// A root lies outside the bounds of a search only through a bracket that
/// reaches beyond them.
///
/// The sample points of a scan drift upwards by an epsilon each, so the last
/// brackets may reach beyond `opts.upper`, and a root confirmed in such a
/// bracket may lie above `opts.upper`. Where the order is transitive and no
/// bracket reaches beyond the bounds, no root is below `opts.lower` or above
/// `opts.upper`.
pub proof fn lemma_roots_within_bounds<
    F: Fn(N) -> N,
    N: Derivable<T> + Coerceable<T>,
    T: Scalar,
>(f: F, opts: RootSearchOptions<T>, res: RootSearchResult<T>, k: int)
    requires
        is_search_result::<F, N, T>(f, opts, res),
        order_is_transitive::<T>(),
        forall|j: int|
            0 <= j < res.bisections@.len() ==> stays_within(opts, #[trigger] res.bisections@[j]),
        0 <= k < res.roots@.len(),
    ensures
        !less(res.roots@[k], opts.lower),
        !less(opts.upper, res.roots@[k]),
{
    lemma_roots_lie_in_brackets::<F, N, T>(f, opts, res, k);
    let j = choose|j: int|
        0 <= j < res.bisections@.len() && lies_inside(
            #[trigger] res.bisections@[j],
            res.roots@[k],
        );
    let b = res.bisections@[j];
    let root = res.roots@[k];
    assert(stays_within(opts, b));
    if less(root, opts.lower) {
        assert(less(b.lower, root) && less(root, opts.lower));
    }
    if less(opts.upper, root) {
        assert(less(opts.upper, root) && less(root, b.upper));
    }
}

/// A search confirms at most one root in each bracket.
pub proof fn lemma_one_root_per_bracket<
    F: Fn(N) -> N,
    N: Derivable<T> + Coerceable<T>,
    T: Scalar,
>(f: F, opts: RootSearchOptions<T>, bs: Seq<BisectionResult<T>>)
    ensures
        roots_in::<F, N, T>(f, opts, bs).len() <= bs.len(),
    decreases bs.len(),
{
    if bs.len() > 0 {
        lemma_one_root_per_bracket::<F, N, T>(f, opts, bs.drop_last());
    }
}

/// Searching twice gives the same roots and the same brackets: what a search
/// finds depends on the function and the options alone.
pub proof fn lemma_search_is_repeatable<
    F: Fn(N) -> N,
    N: Derivable<T> + Coerceable<T>,
    T: Scalar,
>(f: F, opts: RootSearchOptions<T>, first: RootSearchResult<T>, second: RootSearchResult<T>)
    requires
        is_search_result::<F, N, T>(f, opts, first),
        is_search_result::<F, N, T>(f, opts, second),
    ensures
        first.roots@ == second.roots@,
        first.bisections@ == second.bisections@,
{
}

/// Where `f` changes sign across no sub-interval of the scan, the search
/// finds no bracket and no root.
pub proof fn lemma_no_sign_change_no_root<
    F: Fn(N) -> N,
    N: Derivable<T> + Coerceable<T>,
    T: Scalar,
>(f: F, opts: RootSearchOptions<T>, res: RootSearchResult<T>)
    requires
        is_search_result::<F, N, T>(f, opts, res),
        forall|i: int|
            0 <= i < opts.resolution ==> !changes_sign::<F, N, T>(
                f,
                #[trigger] sub_interval(scan_of(opts), i),
            ),
    ensures
        res.bisections@.len() == 0,
        res.roots@.len() == 0,
{
    lemma_no_sign_change_no_bracket::<F, N, T>(f, scan_of(opts));
    lemma_one_root_per_bracket::<F, N, T>(f, opts, res.bisections@);
}

} // verus!
