//! The numbers that a search computes with.
//!
//! The search never looks inside a number. It only asks for the few
//! operations of [`Scalar`], so any number type can be searched over once it
//! offers them: machine floats of either width, fixed-point numbers, exact
//! rationals. The contracts of the search speak of the operations through the
//! functions below, each of which names what one operation returns.
use vstd::prelude::*;

verus! {

/// A number type with the arithmetic and the order that the search needs.
///
/// An implementation is expected to make each operation a function of its
/// arguments: the same arguments always give the same result. The contracts of
/// the search hold for such implementations, see [`arithmetic_is_functional`].
pub trait Scalar: Copy {
    /// The number zero, against which signs are read.
    fn zero() -> Self;

    /// The distance from one to the next larger number of the type.
    fn epsilon() -> Self;

    /// The number nearest to the integer `value`.
    fn from_i32(value: i32) -> Self;

    /// `self + rhs`.
    fn add(self, rhs: Self) -> Self;

    /// `self - rhs`.
    fn sub(self, rhs: Self) -> Self;

    /// `self * rhs`.
    fn mul(self, rhs: Self) -> Self;

    /// `self / rhs`.
    fn div(self, rhs: Self) -> Self;

    /// The absolute value of `self`.
    fn abs(self) -> Self;

    /// Whether `self` is strictly less than `rhs`.
    fn lt(self, rhs: Self) -> bool;
}

/// What `T::zero()` returns.
pub open spec fn zero_value<T: Scalar>() -> T {
    choose|r: T| call_ensures(T::zero, (), r)
}

/// What `T::epsilon()` returns.
pub open spec fn epsilon_value<T: Scalar>() -> T {
    choose|r: T| call_ensures(T::epsilon, (), r)
}

/// What `T::from_i32(value)` returns.
pub open spec fn of_int<T: Scalar>(value: i32) -> T {
    choose|r: T| call_ensures(T::from_i32, (value,), r)
}

/// What `a.add(b)` returns.
pub open spec fn sum<T: Scalar>(a: T, b: T) -> T {
    choose|r: T| call_ensures(T::add, (a, b), r)
}

/// What `a.sub(b)` returns.
pub open spec fn difference<T: Scalar>(a: T, b: T) -> T {
    choose|r: T| call_ensures(T::sub, (a, b), r)
}

/// What `a.mul(b)` returns.
pub open spec fn product<T: Scalar>(a: T, b: T) -> T {
    choose|r: T| call_ensures(T::mul, (a, b), r)
}

/// What `a.div(b)` returns.
pub open spec fn quotient<T: Scalar>(a: T, b: T) -> T {
    choose|r: T| call_ensures(T::div, (a, b), r)
}

/// What `a.abs()` returns.
pub open spec fn magnitude<T: Scalar>(a: T) -> T {
    choose|r: T| call_ensures(T::abs, (a,), r)
}

/// What `a.lt(b)` returns.
pub open spec fn less<T: Scalar>(a: T, b: T) -> bool {
    choose|r: bool| call_ensures(T::lt, (a, b), r)
}

/// Whether `a` lies strictly above zero.
pub open spec fn is_positive<T: Scalar>(a: T) -> bool {
    less(zero_value::<T>(), a)
}

/// Whether `a` lies strictly below zero.
pub open spec fn is_negative<T: Scalar>(a: T) -> bool {
    less(a, zero_value::<T>())
}

/// Whether the order of `T` is transitive.
pub open spec fn order_is_transitive<T: Scalar>() -> bool {
    forall|a: T, b: T, c: T| #[trigger] less(a, b) && #[trigger] less(b, c) ==> less(a, c)
}

/// Every operation of `T` is a function: whatever a call returns is the one
/// value that the functions above name for its arguments.
pub open spec fn arithmetic_is_functional<T: Scalar>() -> bool {
    &&& forall|r: T| #[trigger] call_ensures(T::zero, (), r) ==> r == zero_value::<T>()
    &&& forall|r: T| #[trigger] call_ensures(T::epsilon, (), r) ==> r == epsilon_value::<T>()
    &&& forall|value: i32, r: T| #[trigger]
        call_ensures(T::from_i32, (value,), r) ==> r == of_int::<T>(value)
    &&& forall|a: T, b: T, r: T| #[trigger] call_ensures(T::add, (a, b), r) ==> r == sum(a, b)
    &&& forall|a: T, b: T, r: T| #[trigger]
        call_ensures(T::sub, (a, b), r) ==> r == difference(a, b)
    &&& forall|a: T, b: T, r: T| #[trigger]
        call_ensures(T::mul, (a, b), r) ==> r == product(a, b)
    &&& forall|a: T, b: T, r: T| #[trigger]
        call_ensures(T::div, (a, b), r) ==> r == quotient(a, b)
    &&& forall|a: T, r: T| #[trigger] call_ensures(T::abs, (a,), r) ==> r == magnitude(a)
    &&& forall|a: T, b: T, r: bool| #[trigger] call_ensures(T::lt, (a, b), r) ==> r == less(a, b)
}

} // verus!
