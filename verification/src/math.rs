//! Finite-field arithmetic over the Mersenne prime p = 2^61 - 1.

use vstd::prelude::*;

pub mod interpolation;
pub mod lagrange;
pub mod mersenne61;
pub mod polynomial;

verus! {

/// Errors arising from field arithmetic.
#[derive(Debug, Clone, Copy, PartialEq, Eq, Structural)]
pub enum FieldError {
    /// The multiplicative inverse of zero was requested.
    ZeroInverse,
}

} // verus!
