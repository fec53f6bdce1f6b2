//! A collection of common numerical algorithms.
//!
//! The crate holds the integer and decision logic of the toolkit, each
//! function with its contract:
//!  - Sorting, with the order that it sorts by
//!  - Bit reversal for the fast Fourier transform
//!  - Exact factorials and binomial coefficients
//!  - The guards of the dimension of fixed-dimension vectors
//!  - The bookkeeping of the solver for ordinary differential equations: the
//!    steps of a run, its trajectory, and the retries of an adaptive step

pub mod error;
pub mod fourier;
pub mod function;
pub mod ode;
pub mod order;
pub mod sort;
pub mod vector;
