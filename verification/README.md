# plonkish_backend

Verified parts of a HyperPlonk backend over the BN254 curve, written in Verus.

- `src/backend/serde.rs`: the byte format of proving and verifying keys and of the
  parameters of provers and verifiers. What is written is read back, and but for what becomes
  of expressions, keys are read only from bytes that could have been written.
- `src/pcs/multilinear/mercury.rs`: the Mercury commitment scheme
  (<https://eprint.iacr.org/2025/385>) on top of KZG (`src/pcs/univariate.rs`).
  `laws.rs` beside it states what holds of every opening; `verify` accepts all of them.
- `src/pcs/multilinear/additive.rs`, `sum_check.rs`: opening many polynomials at many points
  at once.
- `src/poly`: polynomials, as identities over the integers and as code over the field.
- `src/util`: the field, the curve, the transcript and the byte format of their elements.
- `app`: reading keys from streams, and expressions as values.

Field and curve arithmetic is that of `halo2curves`, hashing that of `sha3`, randomness that
of `rand`. Each call into them stands behind a small function whose contract is believed, and
whose comment says what is believed of which function.
