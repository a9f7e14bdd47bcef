//! Arithmetic and byte encodings shared by the polynomial, commitment and key modules.

pub mod bytes;
pub mod curve;
pub mod field;
pub mod transcript;
pub mod wire;
pub mod zp;
