//! Failures of the commitment schemes.
use vstd::prelude::*;

verus! {

/// The operation that a polynomial was too large for.
#[derive(Clone, Copy, Debug, PartialEq, Eq, Structural)]
pub enum Operation {
    Trim,
    Commit,
    Open,
    BatchOpen,
    BatchVerify,
}

/// Why a commitment, an opening or a verification failed.
#[derive(Clone, Copy, Debug, PartialEq, Eq, Structural)]
pub enum Error {
    /// The parameters support degrees up to `upto`, but degree `got` was asked for.
    TooLargeDegree { operation: Operation, upto: usize, got: usize },
    /// The proof does not open the commitment to the claimed value.
    InvalidPcsOpen,
    /// The messages of a sum-check do not agree with each other.
    InvalidSumcheck,
    /// There are polynomials in more variables than the points have coordinates.
    TooManyVariates { operation: Operation, upto: usize, got: usize },
    /// There is a point with another number of coordinates than the polynomials have
    /// variables.
    InvalidPointLength { expected: usize, got: usize },
    /// The proof ends too early.
    TruncatedProof,
    /// The proof holds a number that is not a canonical field element.
    InvalidFieldElement,
    /// The proof holds coordinates that are not a point of the curve.
    InvalidPoint,
    /// The transcript produced a zero where an invertible challenge is needed.
    ZeroChallenge,
}

} // verus!
