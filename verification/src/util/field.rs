//! Elements of the BN254 scalar field.
#[allow(unused_imports)]
use crate::poly::roots;
#[allow(unused_imports)]
use crate::util::bytes;
#[allow(unused_imports)]
use crate::util::zp;
use halo2curves::bn256::Fr;
use halo2curves::ff::{Field, FromUniformBytes, PrimeField};
use halo2curves::serde::SerdeObject;
use rand::rngs::StdRng;
#[allow(unused_imports)]
use vstd::arithmetic::power::*;
#[allow(unused_imports)]
use vstd::arithmetic::power2::*;
use vstd::prelude::*;

verus! {

/// The generator that fresh secrets are drawn from.
#[verifier::external_type_specification]
#[verifier::external_body]
pub struct ExStdRng(rand::rngs::StdRng);

/// The Montgomery form of `v`: the product with `2^256`.
pub open spec fn montgomery(v: int) -> int {
    zp::red(
        v * 0x1_0000_0000_0000_0000_0000_0000_0000_0000_0000_0000_0000_0000_0000_0000_0000_0000int,
    )
}

/// The raw encoding of the scalar `v`: its Montgomery form in 32 bytes.
pub open spec fn raw_scalar(v: int) -> Seq<u8> {
    bytes::le_bytes(montgomery(v), 32)
}

/// The integer with the given 64-bit limbs, least significant first.
pub open spec fn limbs_value(l: Seq<u64>) -> int {
    l[0] + l[1] * 0x1_0000_0000_0000_0000int + l[2] * 0x1_0000_0000_0000_0000_0000_0000_0000_0000int
        + l[3] * 0x1_0000_0000_0000_0000_0000_0000_0000_0000_0000_0000_0000_0000int
}

/// A scalar, held as the four 64-bit limbs of its canonical representative.
#[derive(Clone, Copy, Debug, PartialEq, Eq)]
pub struct Scalar {
    limbs: [u64; 4],
}

impl View for Scalar {
    type V = int;

    /// The canonical representative, between 0 and the field order.
    closed spec fn view(&self) -> int {
        zp::red(limbs_value(self.limbs@))
    }
}

/// What `draw` gives for a generator, which it moves on.
fn drawn_by<F: FnOnce(&mut StdRng) -> Scalar>(draw: F, rng: &mut StdRng) -> (s: Scalar)
    requires
        forall|x: &mut StdRng| call_requires(draw, (x,)),
    ensures
        exists|x: &mut StdRng| *x == *old(rng) && #[trigger] call_ensures(draw, (x,), s),
{
    draw(rng)
}

/// The element `s` was drawn at random from the generator `rng`.
pub closed spec fn drawn(rng: StdRng, s: Scalar) -> bool {
    exists|x: &mut StdRng| *x == rng && #[trigger] call_ensures(Scalar::random, (x,), s)
}

/// What was drawn is the very element that the outside source of elements gave for the
/// generator, not one that was made of it.
pub(crate) proof fn law_drawn(rng: StdRng, s: Scalar)
    requires
        drawn(rng, s),
    ensures
        exists|x: &mut StdRng| *x == rng && #[trigger] call_ensures(Scalar::random, (x,), s),
{
}

impl Scalar {
    /// Draws an element at random.
    pub(crate) fn draw(rng: &mut StdRng) -> (s: Scalar)
        ensures
            drawn(*old(rng), s),
    {
        drawn_by(Scalar::random, rng)
    }

    #[verifier::type_invariant]
    spec fn canonical(self) -> bool {
        limbs_value(self.limbs@) < zp::modulus()
    }

    pub fn zero() -> (r: Scalar)
        ensures
            r@ == 0,
    {
        proof {
            zp::lemma_modulus();
            zp::lemma_red(0);
        }
        Scalar { limbs: [0, 0, 0, 0] }
    }

    pub fn one() -> (r: Scalar)
        ensures
            r@ == 1,
    {
        Scalar::from_u64(1)
    }

    pub fn from_u64(n: u64) -> (r: Scalar)
        ensures
            r@ == n,
    {
        proof {
            reveal(zp::modulus);
            zp::lemma_red(n as int);
        }
        Scalar { limbs: [n, 0, 0, 0] }
    }

    pub fn is_zero(&self) -> (b: bool)
        ensures
            b == (self@ == 0),
    {
        proof {
            use_type_invariant(self);
            zp::lemma_red(limbs_value(self.limbs@));
        }
        self.limbs[0] == 0 && self.limbs[1] == 0 && self.limbs[2] == 0 && self.limbs[3] == 0
    }

    /// `+` on `halo2curves::bn256::Fr`: addition modulo the field order.
    #[verifier::external_body]
    pub(crate) fn plus(&self, other: &Scalar) -> (r: Scalar)
        ensures
            r@ == zp::red(self@ + other@),
    {
        Scalar { limbs: (Fr::from_raw(self.limbs) + Fr::from_raw(other.limbs)).into() }
    }

    /// `-` on `halo2curves::bn256::Fr`: subtraction modulo the field order.
    #[verifier::external_body]
    pub(crate) fn minus(&self, other: &Scalar) -> (r: Scalar)
        ensures
            r@ == zp::red(self@ - other@),
    {
        Scalar { limbs: (Fr::from_raw(self.limbs) - Fr::from_raw(other.limbs)).into() }
    }

    /// `*` on `halo2curves::bn256::Fr`: multiplication modulo the field order.
    #[verifier::external_body]
    pub(crate) fn times(&self, other: &Scalar) -> (r: Scalar)
        ensures
            r@ == zp::red(self@ * other@),
    {
        Scalar { limbs: (Fr::from_raw(self.limbs) * Fr::from_raw(other.limbs)).into() }
    }

    /// `Field::invert` of `halo2curves::bn256::Fr`: the multiplicative inverse, which
    /// every element but zero has.
    #[verifier::external_body]
    pub(crate) fn invert(&self) -> (r: Option<Scalar>)
        ensures
            r is None <==> self@ == 0,
            r matches Some(v) ==> zp::red(self@ * v@) == 1,
    {
        Option::from(Fr::from_raw(self.limbs).invert()).map(|v: Fr| Scalar { limbs: v.into() })
    }

    /// `Field::random` of `halo2curves::bn256::Fr`: some element, drawn from the
    /// generator.
    #[verifier::external_body]
    pub(crate) fn random(rng: &mut StdRng) -> (r: Scalar) {
        Scalar { limbs: Fr::random(rng).into() }
    }

    /// `FromUniformBytes::from_uniform_bytes` of `halo2curves::bn256::Fr`: the
    /// little-endian number modulo the field order.
    #[verifier::external_body]
    pub(crate) fn from_uniform_bytes(wide: &[u8; 64]) -> (r: Scalar)
        ensures
            r@ == zp::red(bytes::le_nat(wide@)),
    {
        Scalar { limbs: Fr::from_uniform_bytes(wide).into() }
    }

    /// `PrimeField::from_repr` of `halo2curves::bn256::Fr`: the element with the given
    /// little-endian canonical representative.
    #[verifier::external_body]
    pub(crate) fn from_repr(repr: [u8; 32]) -> (r: Option<Scalar>)
        ensures
            r is Some <==> bytes::le_nat(repr@) < zp::modulus(),
            r matches Some(v) ==> v@ == bytes::le_nat(repr@),
    {
        Option::from(Fr::from_repr(repr)).map(|v: Fr| Scalar { limbs: v.into() })
    }

    /// `PrimeField::to_repr` of `halo2curves::bn256::Fr`: the little-endian bytes of the
    /// canonical representative.
    #[verifier::external_body]
    pub(crate) fn to_repr(&self) -> (r: [u8; 32])
        ensures
            r@ == bytes::le_bytes(self@, 32),
    {
        Fr::from_raw(self.limbs).to_repr()
    }

    /// `SerdeObject::write_raw` of `halo2curves::bn256::Fr`: appends the Montgomery form.
    /// Writing to memory does not fail.
    #[verifier::external_body]
    pub(crate) fn write_raw(&self, writer: &mut Vec<u8>)
        ensures
            final(writer)@ == old(writer)@ + raw_scalar(self@),
    {
        Fr::from_raw(self.limbs).write_raw(writer).unwrap()
    }

    /// `SerdeObject::read_raw` of `halo2curves::bn256::Fr`: the element whose Montgomery
    /// form is given, which must be below the field order.
    #[verifier::external_body]
    pub(crate) fn read_raw(raw: [u8; 32]) -> (r: Option<Scalar>)
        ensures
            r is Some <==> bytes::le_nat(raw@) < zp::modulus(),
            r matches Some(v) ==> montgomery(v@) == bytes::le_nat(raw@),
    {
        Fr::read_raw(&mut raw.as_slice()).ok().map(|v| Scalar { limbs: v.into() })
    }

    /// The limbs of the canonical representative, least significant first.
    pub(crate) fn limbs(&self) -> (r: [u64; 4])
        ensures
            limbs_value(r@) == self@,
    {
        proof {
            use_type_invariant(self);
            zp::lemma_red(limbs_value(self.limbs@));
        }
        self.limbs
    }

    /// `self * factor + addend`.
    pub(crate) fn mul_add(&self, factor: &Scalar, addend: &Scalar) -> (r: Scalar)
        ensures
            r@ == zp::red(self@ * factor@ + addend@),
    {
        let product = self.times(factor);
        proof {
            zp::lemma_red(self@ * factor@);
            zp::lemma_same_add(product@, self@ * factor@, addend@, addend@);
        }
        product.plus(addend)
    }

    /// `self` raised to the power `2^k`.
    pub(crate) fn pow_of_two(&self, k: usize) -> (r: Scalar)
        ensures
            r@ == zp::red(pow(self@, pow2(k as nat))),
    {
        let mut r = *self;
        proof {
            lemma2_to64();
            lemma_pow1(self@);
            broadcast use lemma_scalar_range;
            zp::lemma_red(self@);
        }
        for i in 0..k
            invariant
                r@ == zp::red(pow(self@, pow2(i as nat))),
        {
            proof {
                let e = pow2(i as nat);
                lemma_pow2_unfold((i + 1) as nat);
                lemma_pow_adds(self@, e, e);
                zp::lemma_red(pow(self@, e));
                zp::lemma_same_mul(r@, pow(self@, e), r@, pow(self@, e));
            }
            r = r.times(&r);
        }
        r
    }

    /// `PrimeField::ROOT_OF_UNITY` of `halo2curves::bn256::Fr`: an element of
    /// multiplicative order `2^28`, the largest power of two there is.
    #[verifier::external_body]
    fn max_root_of_unity() -> (r: Scalar)
        ensures
            roots::primitive(r@, 28),
    {
        Scalar { limbs: Fr::ROOT_OF_UNITY.into() }
    }

    /// `PrimeField::TWO_INV` of `halo2curves::bn256::Fr`: the inverse of two.
    #[verifier::external_body]
    fn two_inv() -> (r: Scalar)
        ensures
            zp::red(2 * r@) == 1,
    {
        Scalar { limbs: Fr::TWO_INV.into() }
    }

    /// A root of unity of order `2^k`.
    pub fn root_of_unity(k: usize) -> (r: Scalar)
        requires
            k <= 28,
        ensures
            roots::primitive(r@, k as nat),
    {
        let mut r = Scalar::max_root_of_unity();
        let mut order: usize = 28;
        while order > k
            invariant
                k <= order <= 28,
                roots::primitive(r@, order as nat),
            decreases order,
        {
            proof {
                roots::lemma_primitive_square(r@, order as nat);
                zp::lemma_red(r@ * r@);
                roots::lemma_primitive_same(r@ * r@, zp::red(r@ * r@), (order - 1) as nat);
            }
            r = r.times(&r);
            order = order - 1;
        }
        r
    }

    /// The inverse of `2^k`.
    pub fn pow2_inv(k: usize) -> (r: Scalar)
        ensures
            zp::red(pow2(k as nat) * r@) == 1,
    {
        let half = Scalar::two_inv();
        let mut r = Scalar::one();
        proof {
            lemma2_to64();
            zp::lemma_modulus();
            zp::lemma_red(1);
        }
        for i in 0..k
            invariant
                zp::red(2 * half@) == 1,
                zp::red(pow2(i as nat) * r@) == 1,
        {
            proof {
                let (e, a, b) = (pow2(i as nat) as int, r@, half@);
                lemma_pow2_unfold((i + 1) as nat);
                zp::lemma_modulus();
                zp::lemma_red(1);
                zp::lemma_red(a * b);
                zp::lemma_same_mul(e * a, 1, 2 * b, 1);
                assert((e * a) * (2 * b) == (2 * e) * (a * b)) by (nonlinear_arith);
                zp::lemma_same_mul(2 * e, 2 * e, zp::red(a * b), a * b);
            }
            r = r.times(&half);
        }
        r
    }
}

/// The inverse of `2^256`.
pub open spec fn inverse_of_montgomery_factor() -> int {
    0x15ebf95182c5551cc8260de4aeb85d5d090ef5a9e111ec87dc5ba0056db1194eint
}

/// The scalar with the Montgomery form `v`.
pub open spec fn from_montgomery(v: int) -> int {
    zp::red(v * inverse_of_montgomery_factor())
}

proof fn lemma_montgomery_factor()
    ensures
        zp::same(
            0x1_0000_0000_0000_0000_0000_0000_0000_0000_0000_0000_0000_0000_0000_0000_0000_0000int
                * inverse_of_montgomery_factor(),
            1,
        ),
{
    reveal(zp::modulus);
}

/// The Montgomery form determines the scalar.
pub proof fn lemma_montgomery(v: int)
    requires
        0 <= v < zp::modulus(),
    ensures
        0 <= montgomery(v) < zp::modulus(),
        from_montgomery(montgomery(v)) == v,
{
    let r = 0x1_0000_0000_0000_0000_0000_0000_0000_0000_0000_0000_0000_0000_0000_0000_0000_0000int;
    let i = inverse_of_montgomery_factor();
    lemma_montgomery_factor();
    zp::lemma_red(v * r);
    zp::lemma_same_mul(montgomery(v), v * r, i, i);
    vstd::arithmetic::mul::lemma_mul_is_associative(v, r, i);
    zp::lemma_same_mul(v, v, r * i, 1);
    zp::lemma_red(v);
}

/// Every number below the field order is the Montgomery form of a scalar.
pub proof fn lemma_from_montgomery(v: int)
    requires
        0 <= v < zp::modulus(),
    ensures
        0 <= from_montgomery(v) < zp::modulus(),
        montgomery(from_montgomery(v)) == v,
{
    let r = 0x1_0000_0000_0000_0000_0000_0000_0000_0000_0000_0000_0000_0000_0000_0000_0000_0000int;
    let i = inverse_of_montgomery_factor();
    lemma_montgomery_factor();
    zp::lemma_red(v * i);
    zp::lemma_same_mul(from_montgomery(v), v * i, r, r);
    assert((v * i) * r == v * (r * i)) by (nonlinear_arith);
    zp::lemma_same_mul(v, v, r * i, 1);
    zp::lemma_red(v);
}

/// The representatives of a sequence of scalars.
pub open spec fn values(s: Seq<Scalar>) -> Seq<int> {
    Seq::new(s.len(), |i: int| s[i]@)
}

/// A scalar denotes a canonical representative.
pub broadcast proof fn lemma_scalar_range(s: Scalar)
    ensures
        0 <= #[trigger] s@ < zp::modulus(),
{
    zp::lemma_red(limbs_value(s.limbs@));
}

} // verus!
