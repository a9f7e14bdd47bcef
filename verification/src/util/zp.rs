//! Congruence modulo the scalar field order, over the integers.
//!
//! Polynomial identities are stated and proved over the integers; this module
//! carries them over to field elements.
#[allow(unused_imports)]
use vstd::arithmetic::div_mod::*;
#[allow(unused_imports)]
use vstd::arithmetic::mul::*;
#[allow(unused_imports)]
use vstd::arithmetic::power::*;
use vstd::prelude::*;

verus! {

/// The order of the BN254 scalar field.
#[verifier::opaque]
pub open spec fn modulus() -> int {
    0x30644e72e131a029b85045b68181585d2833e84879b9709143e1f593f0000001int
}

/// `a` and `b` denote the same field element.
pub open spec fn same(a: int, b: int) -> bool {
    a % modulus() == b % modulus()
}

/// The representative of `a` in `0..modulus()`.
pub open spec fn red(a: int) -> int {
    a % modulus()
}

pub proof fn lemma_modulus()
    ensures
        modulus() > 0x10000,
        modulus() % 2 == 1,
{
    reveal(modulus);
}

pub proof fn lemma_red(a: int)
    ensures
        0 <= red(a) < modulus(),
        same(red(a), a),
        0 <= a < modulus() ==> red(a) == a,
{
    lemma_modulus();
    lemma_mod_bound(a, modulus());
    lemma_mod_twice(a, modulus());
    if 0 <= a < modulus() {
        lemma_small_mod(a as nat, modulus() as nat);
    }
}

pub proof fn lemma_same_add(a: int, b: int, c: int, d: int)
    requires
        same(a, b),
        same(c, d),
    ensures
        same(a + c, b + d),
{
    lemma_modulus();
    lemma_add_mod_noop(a, c, modulus());
    lemma_add_mod_noop(b, d, modulus());
}

pub proof fn lemma_same_sub(a: int, b: int, c: int, d: int)
    requires
        same(a, b),
        same(c, d),
    ensures
        same(a - c, b - d),
{
    lemma_modulus();
    lemma_sub_mod_noop(a, c, modulus());
    lemma_sub_mod_noop(b, d, modulus());
}

pub proof fn lemma_same_mul(a: int, b: int, c: int, d: int)
    requires
        same(a, b),
        same(c, d),
    ensures
        same(a * c, b * d),
{
    lemma_modulus();
    lemma_mul_mod_noop_general(a, c, modulus());
    lemma_mul_mod_noop_general(b, d, modulus());
}

pub proof fn lemma_same_pow(a: int, b: int, n: nat)
    requires
        same(a, b),
    ensures
        same(pow(a, n), pow(b, n)),
{
    lemma_modulus();
    lemma_pow_mod_noop(a, n, modulus());
    lemma_pow_mod_noop(b, n, modulus());
}

} // verus!
