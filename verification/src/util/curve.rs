//! The BN254 groups and their pairing.
#[allow(unused_imports)]
use crate::poly::zx;
#[allow(unused_imports)]
use crate::util::bytes;
#[allow(unused_imports)]
use crate::util::field;
use crate::util::field::Scalar;
use crate::util::wire::ReadError;
#[allow(unused_imports)]
use crate::util::zp;
use halo2curves::bn256;
use halo2curves::ff::PrimeField;
use halo2curves::group::{Curve, Group};
use halo2curves::pairing::{MillerLoopResult, MultiMillerLoop};
use halo2curves::serde::SerdeObject;
use halo2curves::CurveAffine;
#[allow(unused_imports)]
use vstd::arithmetic::div_mod::*;
#[allow(unused_imports)]
use vstd::arithmetic::mul::*;
use vstd::prelude::*;

verus! {

/// The order of the field that the coordinates of points are taken from.
#[verifier::opaque]
pub open spec fn base_modulus() -> int {
    0x30644e72e131a029b85045b68181585d97816a916871ca8d3c208c16d87cfd47int
}

/// The neutral element, which is written `(0, 0)`.
pub open spec fn neutral() -> (int, int) {
    (0, 0)
}

/// The point is on `y^2 = x^3 + 3`, or is the neutral element.
pub open spec fn on_curve(p: (int, int)) -> bool {
    p == neutral() || (p.1 * p.1 - p.0 * p.0 * p.0 - 3) % base_modulus() == 0
}

/// The Montgomery form of a coordinate: the product with `2^256`.
pub open spec fn montgomery(v: int) -> int {
    (v * 0x1_0000_0000_0000_0000_0000_0000_0000_0000_0000_0000_0000_0000_0000_0000_0000_0000int)
        % base_modulus()
}

/// The raw encoding of a point: the Montgomery forms of its coordinates, 32 bytes each.
pub open spec fn raw_point(p: (int, int)) -> Seq<u8> {
    bytes::le_bytes(montgomery(p.0), 32) + bytes::le_bytes(montgomery(p.1), 32)
}

/// What is wrong with bytes as the raw encoding of a point. The second coordinate is
/// looked for when the first has been found to be below the field order.
pub open spec fn raw_point_error(raw: Seq<u8>) -> Option<ReadError> {
    if raw.len() < 32 {
        Some(ReadError::UnexpectedEof)
    } else if bytes::le_nat(raw.take(32)) >= base_modulus() {
        Some(ReadError::InvalidData)
    } else if raw.len() < 64 {
        Some(ReadError::UnexpectedEof)
    } else if bytes::le_nat(raw.subrange(32, 64)) >= base_modulus() {
        Some(ReadError::InvalidData)
    } else {
        None
    }
}

/// What is left of bytes that are not the raw encoding of a point: all behind the first
/// coordinate that is not below the field order, and nothing if there are too few.
pub open spec fn after_bad_point(raw: Seq<u8>) -> Seq<u8> {
    if raw_point_error(raw) == Some(ReadError::UnexpectedEof) {
        Seq::empty()
    } else if bytes::le_nat(raw.take(32)) >= base_modulus() {
        raw.skip(32)
    } else {
        raw.skip(64)
    }
}

/// The inverse of `2^256`.
pub open spec fn inverse_of_montgomery_factor() -> int {
    0x2e67157159e5c639cf63e9cfb74492d9eb2022850278edf8ed84884a014afa37int
}

/// The coordinate with the Montgomery form `v`.
pub open spec fn from_montgomery(v: int) -> int {
    (v * inverse_of_montgomery_factor()) % base_modulus()
}

proof fn lemma_factors_cancel(v: int, r: int, i: int, q: int)
    requires
        0 <= v < q,
        (r * i) % q == 1,
    ensures
        ((v * r) % q * i) % q == v,
{
    lemma_mul_mod_noop_left(v * r, i, q);
    lemma_mul_is_associative(v, r, i);
    lemma_mul_mod_noop_right(v, r * i, q);
    lemma_small_mod(v as nat, q as nat);
}

/// The Montgomery form determines the coordinate.
pub proof fn lemma_montgomery(v: int)
    requires
        0 <= v < base_modulus(),
    ensures
        0 <= montgomery(v) < base_modulus(),
        from_montgomery(montgomery(v)) == v,
{
    let r = 0x1_0000_0000_0000_0000_0000_0000_0000_0000_0000_0000_0000_0000_0000_0000_0000_0000int;
    let i = inverse_of_montgomery_factor();
    assert((r * i) % base_modulus() == 1) by {
        reveal(base_modulus);
    }
    lemma_factors_cancel(v, r, i, base_modulus());
}

/// Every number below the field order is the Montgomery form of a coordinate.
pub proof fn lemma_from_montgomery(v: int)
    requires
        0 <= v < base_modulus(),
    ensures
        0 <= from_montgomery(v) < base_modulus(),
        montgomery(from_montgomery(v)) == v,
{
    let r = 0x1_0000_0000_0000_0000_0000_0000_0000_0000_0000_0000_0000_0000_0000_0000_0000_0000int;
    let i = inverse_of_montgomery_factor();
    assert((i * r) % base_modulus() == 1) by {
        reveal(base_modulus);
    }
    lemma_factors_cancel(v, i, r, base_modulus());
}

/// A coordinate, held as the four 64-bit limbs of its canonical representative.
#[derive(Clone, Copy, Debug, PartialEq, Eq)]
pub struct Coordinate {
    limbs: [u64; 4],
}

impl View for Coordinate {
    type V = int;

    closed spec fn view(&self) -> int {
        field::limbs_value(self.limbs@) % base_modulus()
    }
}

impl Coordinate {
    #[verifier::type_invariant]
    spec fn canonical(self) -> bool {
        field::limbs_value(self.limbs@) < base_modulus()
    }

    /// `PrimeField::from_repr` of `halo2curves::bn256::Fq`: the element with the given
    /// little-endian canonical representative.
    #[verifier::external_body]
    pub(crate) fn from_repr(repr: [u8; 32]) -> (r: Option<Coordinate>)
        ensures
            r is Some <==> bytes::le_nat(repr@) < base_modulus(),
            r matches Some(v) ==> v@ == bytes::le_nat(repr@),
    {
        Option::from(bn256::Fq::from_repr(repr)).map(|v: bn256::Fq| Coordinate { limbs: v.into() })
    }

    /// `PrimeField::to_repr` of `halo2curves::bn256::Fq`: the little-endian bytes of the
    /// canonical representative.
    #[verifier::external_body]
    pub(crate) fn to_repr(&self) -> (r: [u8; 32])
        ensures
            r@ == bytes::le_bytes(self@, 32),
    {
        bn256::Fq::from_raw(self.limbs).to_repr()
    }
}

pub broadcast proof fn lemma_coordinate_range(c: Coordinate)
    ensures
        0 <= #[trigger] c@ < base_modulus(),
{
    reveal(base_modulus);
}

/// A pair of coordinates, which need not be on the curve.
#[derive(Clone, Copy, Debug, PartialEq, Eq)]
pub struct G1Affine {
    pub x: Coordinate,
    pub y: Coordinate,
}

impl View for G1Affine {
    type V = (int, int);

    open spec fn view(&self) -> (int, int) {
        (self.x@, self.y@)
    }
}

/// The coordinates are canonical, and on the curve.
pub open spec fn valid(p: (int, int)) -> bool {
    &&& 0 <= p.0 < base_modulus()
    &&& 0 <= p.1 < base_modulus()
    &&& on_curve(p)
}

pub proof fn lemma_valid(p: G1Affine)
    requires
        on_curve(p@),
    ensures
        valid(p@),
{
    lemma_coordinate_range(p.x);
    lemma_coordinate_range(p.y);
}

/// The coordinates of the points.
pub open spec fn points(s: Seq<G1Affine>) -> Seq<(int, int)> {
    Seq::new(s.len(), |i: int| s[i]@)
}

pub open spec fn all_on_curve(s: Seq<(int, int)>) -> bool {
    forall|i: int| 0 <= i < s.len() ==> on_curve(#[trigger] s[i])
}

/// The coordinates of the given multiple, between 0 and the group order, of the
/// generator of the first group.
pub uninterp spec fn g1_multiple(k: int) -> (int, int);

/// The coordinates of the given multiple, between 0 and the group order, of the
/// generator of the second group.
pub uninterp spec fn g2_multiple(k: int) -> Seq<int>;

/// The sum of the points, each taken as often as its scalar says.
pub uninterp spec fn g1_combination(scalars: Seq<int>, bases: Seq<(int, int)>) -> (int, int);

/// The product of the pairings of `a` with `b` and of `c` with `d` is one.
pub uninterp spec fn pairings_cancel(a: (int, int), b: Seq<int>, c: (int, int), d: Seq<int>) -> bool;

/// `k` times the generator of the first group.
pub open spec fn g1(k: int) -> (int, int) {
    g1_multiple(zp::red(k))
}

/// `k` times the generator of the second group.
pub open spec fn g2(k: int) -> Seq<int> {
    g2_multiple(zp::red(k))
}

/// The points are the given multiples of the generator.
pub open spec fn are_multiples(s: Seq<(int, int)>, logs: Seq<int>) -> bool {
    s.len() == logs.len() && forall|i: int| 0 <= i < s.len() ==> #[trigger] s[i] == g1(logs[i])
}

impl G1Affine {
    /// `CurveAffine::from_xy` of `halo2curves::bn256::G1Affine`: the point with the given
    /// coordinates, if it is on the curve or the identity.
    #[verifier::external_body]
    pub(crate) fn from_xy(x: Coordinate, y: Coordinate) -> (r: Option<G1Affine>)
        ensures
            r is Some <==> on_curve((x@, y@)),
            r matches Some(p) ==> p@ == (x@, y@),
    {
        let point = <bn256::G1Affine as CurveAffine>::from_xy(
            bn256::Fq::from_raw(x.limbs),
            bn256::Fq::from_raw(y.limbs),
        );
        Option::from(point).map(
            |p: bn256::G1Affine|
                G1Affine {
                    x: Coordinate { limbs: p.x.into() },
                    y: Coordinate { limbs: p.y.into() },
                },
        )
    }

    /// `SerdeObject::write_raw` of `halo2curves::bn256::G1Affine`: appends the Montgomery
    /// forms of the coordinates. Writing to memory does not fail.
    #[verifier::external_body]
    pub(crate) fn write_raw(&self, writer: &mut Vec<u8>)
        ensures
            final(writer)@ == old(writer)@ + raw_point(self@),
    {
        let point = bn256::G1Affine {
            x: bn256::Fq::from_raw(self.x.limbs),
            y: bn256::Fq::from_raw(self.y.limbs),
        };
        point.write_raw(writer).unwrap()
    }

    /// `SerdeObject::read_raw` of `halo2curves::bn256::G1Affine`: the pair of coordinates
    /// whose Montgomery forms the bytes start with, each of which must be below the field
    /// order. Nothing is asked about the curve. The second result is how many bytes are left
    /// unread; how many are when they run out is not known.
    #[verifier::external_body]
    pub(crate) fn read_raw(raw: &[u8]) -> (r: (Result<G1Affine, ReadError>, usize))
        ensures
            match raw_point_error(raw@) {
                Some(e) => {
                    &&& r.0 == Err::<G1Affine, ReadError>(e)
                    &&& e == ReadError::InvalidData ==> r.1 == after_bad_point(raw@).len()
                },
                None => {
                    &&& r.0 matches Ok(p)
                    &&& montgomery(p@.0) == bytes::le_nat(raw@.take(32))
                    &&& montgomery(p@.1) == bytes::le_nat(raw@.subrange(32, 64))
                    &&& r.1 == raw@.len() - 64
                },
            },
    {
        let mut reader = raw;
        let point = match bn256::G1Affine::read_raw(&mut reader) {
            Ok(p) => Ok(G1Affine { x: Coordinate { limbs: p.x.into() }, y: Coordinate { limbs: p.y.into() } }),
            Err(e) => match e.kind() {
                std::io::ErrorKind::UnexpectedEof => Err(ReadError::UnexpectedEof),
                _ => Err(ReadError::InvalidData),
            },
        };
        (point, reader.len())
    }

    /// `*` of the generator of `halo2curves::bn256::G1` with a scalar: a multiple of the
    /// generator, which is on the curve. The multiple by zero is the neutral element, whose
    /// affine coordinates are both zero.
    #[verifier::external_body]
    pub(crate) fn generator_times(k: &Scalar) -> (r: G1Affine)
        ensures
            r@ == g1_multiple(k@),
            on_curve(r@),
            k@ == 0 ==> r@ == neutral(),
    {
        let p = (bn256::G1::generator() * bn256::Fr::from_raw(k.limbs())).to_affine();
        G1Affine { x: Coordinate { limbs: p.x.into() }, y: Coordinate { limbs: p.y.into() } }
    }

    /// `halo2curves::msm::best_multiexp`: a linear combination of points of the curve.
    /// The group is cyclic of the order of the scalar field, so a combination of multiples
    /// of the generator is the multiple by the inner product. A combination in which all
    /// scalars are zero is the neutral element, whose affine coordinates are both zero. It
    /// goes by the low 32 bits of the number of points, so no more than they can count are
    /// admitted.
    #[verifier::external_body]
    pub(crate) fn combination(scalars: &Vec<Scalar>, bases: &Vec<G1Affine>) -> (r: G1Affine)
        requires
            scalars.len() == bases.len(),
            bases.len() <= u32::MAX,
            all_on_curve(points(bases@)),
        ensures
            r@ == g1_combination(field::values(scalars@), points(bases@)),
            on_curve(r@),
            zx::is_zero(field::values(scalars@)) ==> r@ == neutral(),
            forall|logs: Seq<int>| #[trigger]
                are_multiples(points(bases@), logs) ==> r@ == g1(
                    zx::dot(field::values(scalars@), logs),
                ),
    {
        let coeffs: Vec<bn256::Fr> = scalars.iter().map(|s| bn256::Fr::from_raw(s.limbs())).collect();
        let bases: Vec<bn256::G1Affine> = bases.iter().map(|p| bn256::G1Affine {
            x: bn256::Fq::from_raw(p.x.limbs),
            y: bn256::Fq::from_raw(p.y.limbs),
        }).collect();
        let p = halo2curves::msm::best_multiexp(&coeffs, &bases).to_affine();
        G1Affine { x: Coordinate { limbs: p.x.into() }, y: Coordinate { limbs: p.y.into() } }
    }
}

/// A point of the second group, held as the limbs of its four coordinates.
#[derive(Clone, Copy, Debug, PartialEq, Eq)]
pub struct G2Affine {
    x: [Coordinate; 2],
    y: [Coordinate; 2],
}

impl View for G2Affine {
    type V = Seq<int>;

    closed spec fn view(&self) -> Seq<int> {
        seq![self.x@[0]@, self.x@[1]@, self.y@[0]@, self.y@[1]@]
    }
}

impl G2Affine {
    /// `*` of the generator of `halo2curves::bn256::G2` with a scalar: a multiple of the
    /// generator.
    #[verifier::external_body]
    pub(crate) fn generator_times(k: &Scalar) -> (r: G2Affine)
        ensures
            r@ == g2_multiple(k@),
    {
        let p = (bn256::G2::generator() * bn256::Fr::from_raw(k.limbs())).to_affine();
        G2Affine {
            x: [p.x.c0, p.x.c1].map(|c| Coordinate { limbs: c.into() }),
            y: [p.y.c0, p.y.c1].map(|c| Coordinate { limbs: c.into() }),
        }
    }
}

/// `Bn256::multi_miller_loop` of `halo2curves` with its final exponentiation, on two pairs
/// of points: whether the pairings of the pairs multiply to one. The pairing is bilinear
/// and does not degenerate, so for multiples of the generators this is a statement about
/// the products of their factors.
#[verifier::external_body]
pub(crate) fn pairing_product_is_one(a: &G1Affine, b: &G2Affine, c: &G1Affine, d: &G2Affine) -> (r: bool)
    ensures
        r == pairings_cancel(a@, b@, c@, d@),
        forall|i: int, j: int, k: int, l: int|
            #![trigger g1(i), g2(j), g1(k), g2(l)]
            a@ == g1(i) && b@ == g2(j) && c@ == g1(k) && d@ == g2(l) ==> r == (zp::red(
                i * j + k * l,
            ) == 0),
{
    let fq = |v: &Coordinate| bn256::Fq::from_raw(v.limbs);
    let g1 = |p: &G1Affine| bn256::G1Affine { x: fq(&p.x), y: fq(&p.y) };
    let fq2 = |v: &[Coordinate; 2]| bn256::Fq2 { c0: fq(&v[0]), c1: fq(&v[1]) };
    let g2 = |p: &G2Affine| bn256::G2Prepared::from_affine(bn256::G2Affine { x: fq2(&p.x), y: fq2(&p.y) });
    let terms = [(&g1(a), &g2(b)), (&g1(c), &g2(d))];
    bn256::Bn256::multi_miller_loop(&terms).final_exponentiation() == bn256::Gt::identity()
}

} // verus!
