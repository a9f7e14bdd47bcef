//! Polynomial commitment schemes.

pub mod multilinear;
pub mod univariate;
