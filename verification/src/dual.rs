//! Numbers that carry a derivative, and the functions searched for roots.
//!
//! A function is handed to the search as a closure from dual numbers to dual
//! numbers. Fed a seeded dual number, it returns its value and its slope at
//! that point in one evaluation.
use crate::scalar::Scalar;
use vstd::prelude::*;

verus! {

/// A dual number: a value of type `T` together with a derivative.
pub trait Derivable<T>: Sized where T: Scalar {
    /// The same value, with the derivative set to one: the seed for
    /// differentiating with respect to this number.
    fn execute_derivative(&self) -> Self;

    /// The value.
    fn zeroth_derivative(&self) -> T;

    /// The derivative.
    fn first_derivative(&self) -> T;
}

/// A dual number that converts to and from a plain number.
pub trait Coerceable<T>: Sized where T: Scalar {
    /// The plain number that stands for `self`.
    fn coerce_to(&self) -> T;

    /// The dual number with the value `value` and the derivative zero.
    fn coerce_from(value: T) -> Self;
}

/// What `x.execute_derivative()` returns.
pub open spec fn seeded<N: Derivable<T>, T: Scalar>(x: N) -> N {
    choose|r: N| call_ensures(N::execute_derivative, (&x,), r)
}

/// What `x.zeroth_derivative()` returns.
pub open spec fn value<N: Derivable<T>, T: Scalar>(x: N) -> T {
    choose|r: T| call_ensures(N::zeroth_derivative, (&x,), r)
}

/// What `x.first_derivative()` returns.
pub open spec fn slope<N: Derivable<T>, T: Scalar>(x: N) -> T {
    choose|r: T| call_ensures(N::first_derivative, (&x,), r)
}

/// What `N::coerce_from(v)` returns.
pub open spec fn lifted<N: Coerceable<T>, T: Scalar>(v: T) -> N {
    choose|r: N| call_ensures(N::coerce_from, (v,), r)
}

/// What `f(x)` returns.
pub open spec fn image<F: Fn(N) -> N, N>(f: F, x: N) -> N {
    choose|y: N| call_ensures(f, (x,), y)
}

/// Every operation of the dual number type `N` is a function of its
/// arguments.
pub open spec fn dual_is_functional<N: Derivable<T> + Coerceable<T>, T: Scalar>() -> bool {
    &&& forall|x: N, r: N| #[trigger]
        call_ensures(N::execute_derivative, (&x,), r) ==> r == seeded::<N, T>(x)
    &&& forall|x: N, r: T| #[trigger]
        call_ensures(N::zeroth_derivative, (&x,), r) ==> r == value::<N, T>(x)
    &&& forall|x: N, r: T| #[trigger]
        call_ensures(N::first_derivative, (&x,), r) ==> r == slope::<N, T>(x)
    &&& forall|v: T, r: N| #[trigger]
        call_ensures(N::coerce_from, (v,), r) ==> r == lifted::<N, T>(v)
}

/// `f` may be called on every dual number and is a function of its argument.
pub open spec fn is_pure<F: Fn(N) -> N, N>(f: F) -> bool {
    &&& forall|x: N| #[trigger] call_requires(f, (x,))
    &&& forall|x: N, y: N| #[trigger] call_ensures(f, (x,), y) ==> y == image(f, x)
}

/// What the search asks of its inputs: the function `f`, the dual numbers
/// `N` and the plain numbers `T` all compute functions.
pub open spec fn well_behaved<F: Fn(N) -> N, N: Derivable<T> + Coerceable<T>, T: Scalar>(
    f: F,
) -> bool {
    &&& is_pure::<F, N>(f)
    &&& dual_is_functional::<N, T>()
    &&& crate::scalar::arithmetic_is_functional::<T>()
}

} // verus!
