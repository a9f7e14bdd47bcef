//! Verified core of a HyperPlonk backend over the BN254 curve: the byte format of
//! proving and verifying keys, and the Mercury multilinear commitment scheme.

pub mod backend;
pub mod error;
pub mod pcs;
pub mod poly;
pub mod util;
