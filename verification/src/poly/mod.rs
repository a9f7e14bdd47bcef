//! Univariate and multilinear polynomials.

pub mod combine;
pub mod cube;
pub mod fft;
pub mod multilinear;
pub mod roots;
pub mod univariate;
pub mod zx;
