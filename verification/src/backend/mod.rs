//! The HyperPlonk backend.

pub mod serde;
