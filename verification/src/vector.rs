//! The dimension of fixed-dimension vectors
//!
//! A vector of dimension `N` holds exactly `N` components. The functions of
//! this module guard that: they are where the length of an input is held
//! against the dimension, for components of any type.

use crate::error::Error;
use vstd::prelude::*;

verus! {

/// The components of a vector of dimension `N`, taken from *coeff*.
///
/// Fails with `DimensionMismatch` if the length of *coeff* is not `N`: no
/// component is cut off and none is made up. *zero* is the component of the
/// zero vector.
pub fn coefficients<C: Copy, const N: usize>(coeff: &[C], zero: C) -> (res: Result<[C; N], Error>)
    ensures
        coeff@.len() == N ==> res is Ok && res->Ok_0@ == coeff@,
        coeff@.len() != N ==> res == Err::<[C; N], Error>(Error::DimensionMismatch),
{
    if coeff.len() != N {
        return Err(Error::DimensionMismatch);
    }
    let mut arr: [C; N] = [zero;N];
    let mut i: usize = 0;
    while i < N
        invariant
            i <= N == coeff@.len(),
            arr@.len() == N,
            forall|k: int| 0 <= k < i ==> arr@[k] == coeff@[k],
        decreases N - i,
    {
        arr[i] = coeff[i];
        i += 1;
    }
    assert(arr@ =~= coeff@);
    Ok(arr)
}

/// The cross product and the rotation about an axis are operations of
/// three-dimensional space: for a vector of any other dimension they fail
/// with `DimensionMismatch`.
pub fn three_dimensional(dim: usize) -> (res: Result<(), Error>)
    ensures
        dim == 3 ==> res == Ok::<(), Error>(()),
        dim != 3 ==> res == Err::<(), Error>(Error::DimensionMismatch),
{
    if dim == 3 {
        Ok(())
    } else {
        Err(Error::DimensionMismatch)
    }
}

} // verus!
