//! Newton's method from one guess.
//!
//! Each update evaluates the function once on a seeded dual number, which
//! gives the value and the slope at the current estimate, and moves the
//! estimate by the value divided by the slope. The run settles when an update
//! moves the estimate by less than the tolerance. It is the size of the step
//! that is tested, not the value of the function.
use crate::dual::{image, lifted, seeded, slope, value, well_behaved, Coerceable, Derivable};
use crate::scalar::{difference, is_negative, is_positive, less, magnitude, quotient, Scalar};
use vstd::prelude::*;

verus! {

/// How to run Newton's method: where to start, after how many updates to
/// give up, and how small a step counts as settled.
pub struct NewtonOptions<T> where T: Scalar {
    pub guess: T,
    pub patience: i32,
    pub tolerance: T,
}

/// How a run ended: the root it settled on, if it did, and the number of
/// updates it made.
pub struct NewtonResult<T> where T: Scalar {
    pub root: Option<T>,
    pub iterations: i32,
}

/// What `f` returns at the estimate `current`, seeded so that the result
/// carries the slope there.
pub open spec fn evaluation<F: Fn(N) -> N, N: Derivable<T> + Coerceable<T>, T: Scalar>(
    f: F,
    current: T,
) -> N {
    image(f, seeded::<N, T>(lifted::<N, T>(current)))
}

/// Whether the slope of `f` at `current` is neither above nor below zero:
/// it is zero, or it is no number at all. No update is defined there.
pub open spec fn is_flat<F: Fn(N) -> N, N: Derivable<T> + Coerceable<T>, T: Scalar>(
    f: F,
    current: T,
) -> bool {
    let s = slope::<N, T>(evaluation::<F, N, T>(f, current));
    !is_positive(s) && !is_negative(s)
}

/// The estimate that one update makes of `current`: `current` less the value
/// of `f` there divided by its slope there.
pub open spec fn update<F: Fn(N) -> N, N: Derivable<T> + Coerceable<T>, T: Scalar>(
    f: F,
    current: T,
) -> T {
    let x = seeded::<N, T>(lifted::<N, T>(current));
    let z = evaluation::<F, N, T>(f, current);
    difference(value::<N, T>(x), quotient(value::<N, T>(z), slope::<N, T>(z)))
}

/// Whether the update of `current` moves it by less than `tolerance`.
pub open spec fn settles<F: Fn(N) -> N, N: Derivable<T> + Coerceable<T>, T: Scalar>(
    f: F,
    current: T,
    tolerance: T,
) -> bool {
    less(magnitude(difference(update::<F, N, T>(f, current), current)), tolerance)
}

/// `start` after `k` applications of `step`.
pub open spec fn iterated<T>(step: spec_fn(T) -> T, start: T, k: nat) -> T
    decreases k,
{
    if k == 0 {
        start
    } else {
        step(iterated(step, start, (k - 1) as nat))
    }
}

/// The estimate after `k` updates from `guess`.
pub open spec fn estimate<F: Fn(N) -> N, N: Derivable<T> + Coerceable<T>, T: Scalar>(
    f: F,
    guess: T,
    k: nat,
) -> T {
    iterated(|x: T| update::<F, N, T>(f, x), guess, k)
}

/// Whether a run that has made `k` updates ends with the next one: the slope
/// is flat there, or the step settles, or the updates made then exceed
/// `patience`.
pub open spec fn ends_after<F: Fn(N) -> N, N: Derivable<T> + Coerceable<T>, T: Scalar>(
    f: F,
    opts: NewtonOptions<T>,
    k: nat,
) -> bool {
    let current = estimate::<F, N, T>(f, opts.guess, k);
    ||| is_flat::<F, N, T>(f, current)
    ||| settles::<F, N, T>(f, current, opts.tolerance)
    ||| k + 1 > opts.patience
}

/// Whether `k` is the first number of updates after which the run ends.
pub open spec fn is_run_length<F: Fn(N) -> N, N: Derivable<T> + Coerceable<T>, T: Scalar>(
    f: F,
    opts: NewtonOptions<T>,
    k: nat,
) -> bool {
    &&& ends_after::<F, N, T>(f, opts, k)
    &&& forall|j: nat| j < k ==> !#[trigger] ends_after::<F, N, T>(f, opts, j)
}

/// The number of updates before the last one of the run.
pub open spec fn run_length<F: Fn(N) -> N, N: Derivable<T> + Coerceable<T>, T: Scalar>(
    f: F,
    opts: NewtonOptions<T>,
) -> nat {
    choose|k: nat| is_run_length::<F, N, T>(f, opts, k)
}

/// The outcome of the run. It counts every update made, the last one
/// included. The root is the last update's estimate where the run ended on a
/// settled step; a run that ended on a flat slope or ran out of patience has
/// no root, and its last estimate is dropped.
pub open spec fn newton_outcome<F: Fn(N) -> N, N: Derivable<T> + Coerceable<T>, T: Scalar>(
    f: F,
    opts: NewtonOptions<T>,
) -> NewtonResult<T> {
    let k = run_length::<F, N, T>(f, opts);
    let last = estimate::<F, N, T>(f, opts.guess, k);
    NewtonResult {
        root: if !is_flat::<F, N, T>(f, last) && settles::<F, N, T>(f, last, opts.tolerance) {
            Some(update::<F, N, T>(f, last))
        } else {
            None
        },
        iterations: (k + 1) as i32,
    }
}

/// The most updates that a run with this patience makes before its last one.
pub open spec fn budget<T: Scalar>(opts: NewtonOptions<T>) -> nat {
    if opts.patience > 0 {
        opts.patience as nat
    } else {
        0
    }
}

/// Whether the update of the `k`-th estimate meets a slope that is not flat
/// and moves the estimate by the tolerance or more, so that the run goes on
/// if its patience allows.
pub open spec fn moves_on<F: Fn(N) -> N, N: Derivable<T> + Coerceable<T>, T: Scalar>(
    f: F,
    opts: NewtonOptions<T>,
    k: nat,
) -> bool {
    let current = estimate::<F, N, T>(f, opts.guess, k);
    !is_flat::<F, N, T>(f, current) && !settles::<F, N, T>(f, current, opts.tolerance)
}

/// Runs Newton's method on `f` from `opts.guess`.
///
/// The run makes updates until one settles, which gives the root; until the
/// slope is flat, which ends the run without a root; or until more than
/// `opts.patience` updates were made, which ends it without a root too.
pub fn newton<F, N, T>(f: F, opts: NewtonOptions<T>) -> (res: NewtonResult<T>)
    where
        F: Fn(N) -> N + Send + Sync,
        N: Derivable<T> + Coerceable<T> + Copy,
        T: Scalar,
    requires
        well_behaved::<F, N, T>(f),
        opts.patience < i32::MAX,
    ensures
        res == newton_outcome::<F, N, T>(f, opts),
{
    let mut current: T = opts.guess;
    let mut count: i32 = 0;
    loop
        invariant
            well_behaved::<F, N, T>(f),
            opts.patience < i32::MAX,
            0 <= count,
            count == 0 || count <= opts.patience,
            current == estimate::<F, N, T>(f, opts.guess, count as nat),
            forall|j: nat| j < count ==> !#[trigger] ends_after::<F, N, T>(f, opts, j),
        decreases budget(opts) - count,
    {
        let ghost made = count as nat;
        count += 1;
        let x = N::coerce_from(current).execute_derivative();
        let z = f(x);
        let rise = z.first_derivative();
        if !T::zero().lt(rise) && !rise.lt(T::zero()) {
            proof {
                lemma_run_length_is_unique::<F, N, T>(f, opts, made);
            }
            return NewtonResult { root: None, iterations: count };
        }
        let next = x.zeroth_derivative().sub(z.zeroth_derivative().div(rise));
        let diff = next.sub(current);
        if diff.abs().lt(opts.tolerance) {
            proof {
                lemma_run_length_is_unique::<F, N, T>(f, opts, made);
            }
            return NewtonResult { root: Some(next), iterations: count };
        } else {
            if count > opts.patience {
                proof {
                    lemma_run_length_is_unique::<F, N, T>(f, opts, made);
                }
                return NewtonResult { root: None, iterations: count };
            }
            current = next;
        }
    }
}

/// A run has one length: a number of updates that is the first to end the
/// run is the run's length.
pub proof fn lemma_run_length_is_unique<F: Fn(N) -> N, N: Derivable<T> + Coerceable<T>, T: Scalar>(
    f: F,
    opts: NewtonOptions<T>,
    k: nat,
)
    requires
        is_run_length::<F, N, T>(f, opts, k),
    ensures
        run_length::<F, N, T>(f, opts) == k,
{
    let chosen = run_length::<F, N, T>(f, opts);
    assert(is_run_length::<F, N, T>(f, opts, chosen));
    if chosen < k {
        assert(!ends_after::<F, N, T>(f, opts, chosen));
    }
    if k < chosen {
        assert(!ends_after::<F, N, T>(f, opts, k));
    }
}

/// A run that has not ended within its first `k` updates, `k` within the
/// budget, ends within the budget.
proof fn lemma_run_ends<F: Fn(N) -> N, N: Derivable<T> + Coerceable<T>, T: Scalar>(
    f: F,
    opts: NewtonOptions<T>,
    k: nat,
)
    requires
        k <= budget(opts),
        forall|j: nat| j < k ==> !#[trigger] ends_after::<F, N, T>(f, opts, j),
    ensures
        exists|m: nat| m <= budget(opts) && is_run_length::<F, N, T>(f, opts, m),
    decreases budget(opts) - k,
{
    if ends_after::<F, N, T>(f, opts, k) {
        assert(is_run_length::<F, N, T>(f, opts, k));
    } else {
        lemma_run_ends::<F, N, T>(f, opts, k + 1);
    }
}

/// Every run ends, and the count of its updates says how it went.
///
/// A run makes at least one update, and at most one more than its patience
/// allows. No update before the last one ended the run. A root that is
/// returned is the estimate after all the updates counted, and the last of
/// them moved the estimate by less than the tolerance. A run without a root
/// met a flat slope at its last update, or that update exceeded the patience.
pub proof fn lemma_iterations_count_updates<
    F: Fn(N) -> N,
    N: Derivable<T> + Coerceable<T>,
    T: Scalar,
>(f: F, opts: NewtonOptions<T>)
    requires
        opts.patience < i32::MAX,
    ensures
        ({
            let res = newton_outcome::<F, N, T>(f, opts);
            let before_last = estimate::<F, N, T>(f, opts.guess, (res.iterations - 1) as nat);
            &&& 1 <= res.iterations <= budget(opts) + 1
            &&& is_run_length::<F, N, T>(f, opts, (res.iterations - 1) as nat)
            &&& res.root matches Some(r) ==> {
                &&& r == estimate::<F, N, T>(f, opts.guess, res.iterations as nat)
                &&& settles::<F, N, T>(f, before_last, opts.tolerance)
                &&& !is_flat::<F, N, T>(f, before_last)
            }
            &&& res.root is None ==> {
                ||| is_flat::<F, N, T>(f, before_last)
                ||| res.iterations > opts.patience
            }
        }),
{
    lemma_run_ends::<F, N, T>(f, opts, 0);
    let m = choose|m: nat| m <= budget(opts) && is_run_length::<F, N, T>(f, opts, m);
    lemma_run_length_is_unique::<F, N, T>(f, opts, m);
}

/// A run returns the first settled estimate that its patience lets it reach.
///
/// Where the update of the `k`-th estimate is the first one to settle, no
/// slope was flat up to there, and `k` updates are within the patience, the
/// run returns the estimate after `k + 1` updates and counts `k + 1` of them.
pub proof fn lemma_settled_run_returns_its_root<
    F: Fn(N) -> N,
    N: Derivable<T> + Coerceable<T>,
    T: Scalar,
>(f: F, opts: NewtonOptions<T>, k: nat)
    requires
        opts.patience < i32::MAX,
        k == 0 || k <= opts.patience,
        forall|j: nat| j < k ==> #[trigger] moves_on::<F, N, T>(f, opts, j),
        !is_flat::<F, N, T>(f, estimate::<F, N, T>(f, opts.guess, k)),
        settles::<F, N, T>(f, estimate::<F, N, T>(f, opts.guess, k), opts.tolerance),
    ensures
        newton_outcome::<F, N, T>(f, opts).root == Some(
            estimate::<F, N, T>(f, opts.guess, k + 1),
        ),
        newton_outcome::<F, N, T>(f, opts).iterations == k + 1,
{
    assert forall|j: nat| j < k implies !#[trigger] ends_after::<F, N, T>(f, opts, j) by {
        assert(moves_on::<F, N, T>(f, opts, j));
    }
    lemma_run_length_is_unique::<F, N, T>(f, opts, k);
}

} // verus!
