//! Finds the real roots of a differentiable function on an interval.
//!
//! The interval is scanned for sign changes, and each bracket found is refined
//! by Newton's method. Slopes come from evaluating the function on dual
//! numbers, so the caller supplies no derivative.
//!
//! The search is generic over its numbers ([`Scalar`]) and its dual numbers
//! ([`Derivable`], [`Coerceable`]), and never looks inside either. Its
//! contracts say exactly which operations are applied to which arguments, in
//! terms of what each operation returns. They hold where the operations and
//! the function searched are functions of their arguments, see
//! [`dual::well_behaved`].
//!
//! [`root_search`] is the whole search, [`try_root_search`] the same behind a
//! test of the bounds. [`find_bisections`] is the scan alone, and [`newton`]
//! the refinement from one guess.
pub mod bisection;
pub mod dual;
pub mod newton;
pub mod scalar;
pub mod search;

pub use crate::bisection::{find_bisections, BisectionOptions, BisectionResult};
pub use crate::dual::{Coerceable, Derivable};
pub use crate::newton::{newton, NewtonOptions, NewtonResult};
pub use crate::scalar::Scalar;
pub use crate::search::{
    root_search, try_root_search, IntervalError, RootSearchOptions, RootSearchResult,
};
