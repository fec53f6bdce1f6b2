//! The errors of the toolkit

use vstd::prelude::*;

verus! {

/// What can go wrong in the vector algebra and in the integration of
/// differential equations.
#[derive(Clone, Copy, Debug, PartialEq, Eq, Structural)]
pub enum Error {
    /// The length of an input differs from the dimension of the vector, or
    /// an operation of three-dimensional space was asked of another dimension.
    DimensionMismatch,
    /// The adaptive stepper has used up its retries without reaching the
    /// error bound.
    NonConvergent,
    /// A step size or a tolerance is not positive.
    InvalidConfiguration,
}

} // verus!
