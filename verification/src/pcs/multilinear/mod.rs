//! Commitment schemes for multilinear polynomials.

pub mod additive;
pub mod laws;
pub mod mercury;
pub mod steps;
pub mod sum_check;
