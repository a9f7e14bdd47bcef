//! The KZG commitment scheme for univariate polynomials.
use crate::error::{Error, Operation};
use crate::poly::univariate::UnivariatePolynomial;
#[allow(unused_imports)]
use crate::poly::zx;
#[allow(unused_imports)]
use crate::util::curve;
use crate::util::curve::{pairing_product_is_one, G1Affine, G2Affine};
#[allow(unused_imports)]
use crate::util::field;
use crate::util::field::Scalar;
#[allow(unused_imports)]
use crate::util::transcript::Transcript;
use crate::util::transcript::{ProofReader, ProofWriter};
#[allow(unused_imports)]
use crate::util::zp;
use rand::rngs::StdRng;
#[allow(unused_imports)]
use vstd::arithmetic::mul::*;
#[allow(unused_imports)]
use vstd::arithmetic::power::*;
use vstd::prelude::*;

verus! {

/// The KZG scheme over BN254.
#[derive(Clone, Copy, Debug)]
pub struct UnivariateKzg;

/// `1, s, s^2, ..`, `n` of them.
pub open spec fn powers(s: int, n: nat) -> Seq<int> {
    Seq::new(n, |i: int| pow(s, i as nat))
}

/// The points are the multiples of the generator by `1, s, s^2, ..`.
pub open spec fn powers_of(bases: Seq<(int, int)>, s: int) -> bool {
    curve::are_multiples(bases, powers(s, bases.len()))
}

/// The commitment to a polynomial: its coefficients combined with the powers of the secret.
pub open spec fn commitment(bases: Seq<(int, int)>, coeffs: Seq<int>) -> (int, int) {
    curve::g1_combination(coeffs, bases.take(coeffs.len() as int))
}

/// The commitment to `coeffs` is a point of the curve, for the zero polynomial the neutral
/// element. For powers of a secret it is the multiple by the value of the polynomial at the
/// secret.
pub open spec fn committed(bases: Seq<(int, int)>, coeffs: Seq<int>) -> bool {
    &&& curve::valid(commitment(bases, coeffs))
    &&& zx::is_zero(coeffs) ==> commitment(bases, coeffs) == curve::neutral()
    &&& forall|s: int| #[trigger]
        powers_of(bases, s) ==> commitment(bases, coeffs) == curve::g1(zx::eval(coeffs, s))
}

/// For multiples of the generator, the combination of the points is the multiple by the
/// inner product of the scalars and the factors.
pub open spec fn combined(scalars: Seq<int>, points: Seq<(int, int)>) -> bool {
    forall|logs: Seq<int>| #[trigger]
        curve::are_multiples(points, logs) ==> curve::g1_combination(scalars, points)
            == curve::g1(zx::dot(scalars, logs))
}

/// The polynomial `a p + c q`, coefficient by coefficient.
pub open spec fn linear(a: int, p: Seq<int>, c: int, q: Seq<int>) -> Seq<int> {
    zx::red(Seq::new(p.len(), |i: int| a * p[i] + c * q[i]))
}

/// Commitments are linear in the polynomial: for the powers of a secret, the commitment to
/// `a p + c q` is `a` times the commitment to `p` and `c` times that to `q`.
pub proof fn law_commitment_linear(
    bases: Seq<(int, int)>,
    s: int,
    a: int,
    p: Seq<int>,
    c: int,
    q: Seq<int>,
)
    requires
        p.len() == q.len(),
        powers_of(bases, s),
        committed(bases, p),
        committed(bases, q),
        committed(bases, linear(a, p, c, q)),
        combined(seq![a, c], seq![commitment(bases, p), commitment(bases, q)]),
    ensures
        commitment(bases, linear(a, p, c, q)) == curve::g1_combination(
            seq![a, c],
            seq![commitment(bases, p), commitment(bases, q)],
        ),
{
    let r = Seq::new(p.len(), |i: int| a * p[i] + c * q[i]);
    let (x, y) = (zx::eval(p, s), zx::eval(q, s));
    let ap = zx::axpy(Seq::new(p.len(), |i: int| 0int), a, p);
    assert(r =~= zx::axpy(ap, c, q));
    zx::lemma_eval_axpy(ap, c, q, s);
    zx::lemma_eval_axpy(Seq::new(p.len(), |i: int| 0int), a, p, s);
    zx::lemma_eval_zeros(p.len(), s);
    zx::lemma_red_same(r);
    zx::lemma_eval_same(zx::red(r), r, s, s);
    let (k, logs) = (seq![a, c], seq![x, y]);
    let points = seq![commitment(bases, p), commitment(bases, q)];
    assert(curve::are_multiples(points, logs));
    assert(zx::dot(k.skip(1).skip(1), logs.skip(1).skip(1)) == 0);
    assert(zx::dot(k.skip(1), logs.skip(1)) == c * y);
    assert(zx::dot(k, logs) == a * x + zx::dot(k.skip(1), logs.skip(1)));
}

/// What a verifier knows of the secret.
pub struct VerifierKey {
    pub g1: (int, int),
    pub g2: Seq<int>,
    pub s_g2: Seq<int>,
}

impl VerifierKey {
    /// The key belongs to the secret `s`.
    pub open spec fn of(self, s: int) -> bool {
        &&& self.g1 == curve::g1(1)
        &&& self.g2 == curve::g2(1)
        &&& self.s_g2 == curve::g2(s)
    }

    /// The pairing equation that `quotient` commits to the combination of `points`
    /// divided by `X - s`, the `X` having been moved to the combination.
    pub open spec fn divides(
        self,
        scalars: Seq<int>,
        points: Seq<(int, int)>,
        quotient: (int, int),
    ) -> bool {
        curve::pairings_cancel(
            curve::g1_combination(scalars, points),
            self.g2,
            curve::g1_combination(seq![zp::red(-1)], seq![quotient]),
            self.s_g2,
        )
    }

    /// The pairing equation for the opening of `comm` at `z` to `v`.
    pub open spec fn opens(
        self,
        comm: (int, int),
        z: int,
        v: int,
        quotient: (int, int),
    ) -> bool {
        self.divides(
            seq![1int, zp::red(0 - v), z],
            seq![comm, self.g1, quotient],
            quotient,
        )
    }
}

/// The secret-free remainder of a setup.
pub struct UnivariateKzgParam {
    powers_of_s_g1: Vec<G1Affine>,
    g2: G2Affine,
    s_g2: G2Affine,
}

/// What a prover needs.
pub struct UnivariateKzgProverParam {
    powers_of_s_g1: Vec<G1Affine>,
}

/// What a verifier needs.
#[derive(Clone, Copy, Debug)]
pub struct UnivariateKzgVerifierParam {
    g1: G1Affine,
    g2: G2Affine,
    s_g2: G2Affine,
}

impl View for UnivariateKzgVerifierParam {
    type V = VerifierKey;

    closed spec fn view(&self) -> VerifierKey {
        VerifierKey { g1: self.g1@, g2: self.g2@, s_g2: self.s_g2@ }
    }
}

impl UnivariateKzgVerifierParam {
    #[verifier::type_invariant]
    spec fn valid(self) -> bool {
        curve::on_curve(self.g1@)
    }

    /// The generator of the first group.
    pub fn g1(&self) -> (r: G1Affine)
        ensures
            r@ == self@.g1,
            curve::on_curve(r@),
    {
        proof {
            use_type_invariant(self);
        }
        self.g1
    }
}

impl View for UnivariateKzgProverParam {
    type V = Seq<(int, int)>;

    /// The powers of the secret, as points.
    closed spec fn view(&self) -> Seq<(int, int)> {
        curve::points(self.powers_of_s_g1@)
    }
}

impl UnivariateKzgProverParam {
    #[verifier::type_invariant]
    spec fn valid(self) -> bool {
        &&& 0 < self.powers_of_s_g1@.len() <= u32::MAX
        &&& curve::all_on_curve(curve::points(self.powers_of_s_g1@))
    }

    /// The largest degree that can be committed to.
    pub fn degree(&self) -> (r: usize)
        ensures
            r + 1 == self@.len(),
            r < u32::MAX,
    {
        proof {
            use_type_invariant(self);
        }
        self.powers_of_s_g1.len() - 1
    }
}

impl UnivariateKzgParam {
    #[verifier::type_invariant]
    spec fn valid(self) -> bool {
        &&& 0 < self.powers_of_s_g1@.len() <= u32::MAX
        &&& curve::all_on_curve(curve::points(self.powers_of_s_g1@))
    }

    /// The powers of the secret, as points.
    pub closed spec fn powers_of_s(self) -> Seq<(int, int)> {
        curve::points(self.powers_of_s_g1@)
    }

    /// The parameters were derived from the secret `s`.
    pub open spec fn belongs_to(self, s: int) -> bool {
        &&& 0 <= s < zp::modulus()
        &&& powers_of(self.powers_of_s(), s)
        &&& self.key().of(s)
    }

    /// The verifier's part.
    pub closed spec fn key(self) -> VerifierKey {
        VerifierKey {
            g1: curve::points(self.powers_of_s_g1@)[0],
            g2: self.g2@,
            s_g2: self.s_g2@,
        }
    }

    /// The largest degree that can be committed to.
    pub fn degree(&self) -> (r: usize)
        ensures
            r + 1 == self.powers_of_s().len(),
            r < u32::MAX,
    {
        proof {
            use_type_invariant(self);
        }
        self.powers_of_s_g1.len() - 1
    }
}

/// What it is to belong to a secret `s`, which is a field element: the points are the multiples
/// of the generator by the powers of `s`, and the verifier's part holds the generators and the
/// multiple of the second by `s`.
pub proof fn law_parameters(param: UnivariateKzgParam, s: int, i: int)
    requires
        param.belongs_to(s),
        0 <= i < param.powers_of_s().len(),
    ensures
        0 <= s < zp::modulus(),
        param.powers_of_s()[i] == curve::g1_multiple(zp::red(pow(s, i as nat))),
        param.key().g1 == curve::g1_multiple(zp::red(1)),
        param.key().g2 == curve::g2_multiple(zp::red(1)),
        param.key().s_g2 == curve::g2_multiple(zp::red(s)),
{
}

/// What a commitment is: for the powers of a secret, the multiple of the generator by the value
/// of the polynomial at the secret; and for the zero polynomial the neutral element.
pub proof fn law_commitment(bases: Seq<(int, int)>, coeffs: Seq<int>, s: int)
    requires
        committed(bases, coeffs),
    ensures
        (forall|i: int|
            0 <= i < bases.len() ==> #[trigger] bases[i] == curve::g1_multiple(
                zp::red(pow(s, i as nat)),
            )) ==> commitment(bases, coeffs) == curve::g1_multiple(
            zp::red(zx::eval(coeffs, s)),
        ),
        (forall|i: int| 0 <= i < coeffs.len() ==> #[trigger] coeffs[i] == 0) ==> commitment(
            bases,
            coeffs,
        ) == (0int, 0int),
        commitment(bases, coeffs) == curve::g1_combination(
            coeffs,
            bases.take(coeffs.len() as int),
        ),
        curve::on_curve(commitment(bases, coeffs)),
{
    if forall|i: int|
        0 <= i < bases.len() ==> #[trigger] bases[i] == curve::g1_multiple(
            zp::red(pow(s, i as nat)),
        ) {
        assert(powers_of(bases, s));
    }
}

/// What a combination of points is: of multiples of the generator, the multiple by the inner
/// product of the scalars and the factors.
pub proof fn law_combined(scalars: Seq<int>, points: Seq<(int, int)>, logs: Seq<int>)
    requires
        combined(scalars, points),
        points.len() == logs.len(),
        forall|i: int|
            0 <= i < points.len() ==> #[trigger] points[i] == curve::g1_multiple(
                zp::red(logs[i]),
            ),
    ensures
        curve::g1_combination(scalars, points) == curve::g1_multiple(
            zp::red(zx::dot(scalars, logs)),
        ),
{
    assert(curve::are_multiples(points, logs));
}

/// The value of a polynomial is the sum of its coefficients, each with its power.
pub proof fn law_value(c: Seq<int>, x: int)
    ensures
        zx::eval(c, x) == zx::dot(c, Seq::new(c.len(), |i: int| pow(x, i as nat))),
{
    lemma_eval_at_secret(c, x, c.len());
    assert(powers(x, c.len()) =~= Seq::new(c.len(), |i: int| pow(x, i as nat)));
}

proof fn lemma_dot_powers(c: Seq<int>, s: int, j: nat, n: nat)
    requires
        c.len() <= n,
    ensures
        zx::dot(c, Seq::new(n, |i: int| pow(s, (j + i) as nat))) == pow(s, j) * zx::eval(c, s),
    decreases c.len(),
{
    if c.len() == 0 {
        assert(pow(s, j) * 0 == 0);
    } else {
        let p = Seq::new(n, |i: int| pow(s, (j + i) as nat));
        let c1 = c.skip(1);
        lemma_dot_powers(c1, s, j + 1, (n - 1) as nat);
        assert(p.skip(1) =~= Seq::new((n - 1) as nat, |i: int| pow(s, (j + 1 + i) as nat)));
        reveal(pow);
        let (e, k) = (zx::eval(c1, s), pow(s, j));
        assert(pow(s, j + 1) == s * k);
        assert(c[0] * k + (s * k) * e == k * (c[0] + s * e)) by (nonlinear_arith);
    }
}

/// Combining the powers of the secret with coefficients evaluates the polynomial there.
pub proof fn lemma_eval_at_secret(c: Seq<int>, s: int, n: nat)
    requires
        c.len() <= n,
    ensures
        zx::dot(c, powers(s, n)) == zx::eval(c, s),
{
    lemma_dot_powers(c, s, 0, n);
    assert(powers(s, n) =~= Seq::new(n, |i: int| pow(s, (0 + i) as nat)));
    lemma_pow0(s);
    assert(1 * zx::eval(c, s) == zx::eval(c, s));
}

/// A claimed value of one of several polynomials at one of several points.
#[derive(Clone, Copy, Debug, PartialEq, Eq)]
pub struct Evaluation {
    pub poly: usize,
    pub point: usize,
    pub value: Scalar,
}

impl Evaluation {
    pub fn new(poly: usize, point: usize, value: Scalar) -> (r: Evaluation)
        ensures
            r == (Evaluation { poly, point, value }),
    {
        Evaluation { poly, point, value }
    }
}

/// The indices are within the given numbers of polynomials and points.
pub open spec fn evaluations_fit(evals: Seq<Evaluation>, polys: nat, points: nat) -> bool {
    forall|i: int|
        0 <= i < evals.len() ==> (#[trigger] evals[i]).poly < polys && evals[i].point < points
}

/// The pairs of polynomial and point of the evaluations.
pub open spec fn indices(evals: Seq<Evaluation>) -> Seq<(int, int)> {
    Seq::new(evals.len(), |i: int| (evals[i].poly as int, evals[i].point as int))
}

/// The transcript after opening each pair of polynomial and point in turn.
pub open spec fn opened(
    bases: Seq<(int, int)>,
    polys: Seq<Seq<int>>,
    points: Seq<int>,
    pairs: Seq<(int, int)>,
    t: Transcript,
) -> Transcript
    decreases pairs.len(),
{
    if pairs.len() == 0 {
        t
    } else {
        let e = pairs.last();
        opened(bases, polys, points, pairs.drop_last(), t).with_point(
            commitment(bases, zx::red(zx::quotient(polys[e.0], points[e.1]))),
        )
    }
}

/// The commitments to the quotients of an opening are what they should be.
pub open spec fn quotients_committed(
    bases: Seq<(int, int)>,
    polys: Seq<Seq<int>>,
    points: Seq<int>,
    pairs: Seq<(int, int)>,
) -> bool {
    forall|i: int|
        0 <= i < pairs.len() ==> committed(
            bases,
            zx::red(zx::quotient(polys[(#[trigger] pairs[i]).0], points[pairs[i].1])),
        )
}

/// The commitments to the quotients of an opening, in order.
pub open spec fn quotient_commitments(
    bases: Seq<(int, int)>,
    polys: Seq<Seq<int>>,
    points: Seq<int>,
    pairs: Seq<(int, int)>,
) -> Seq<(int, int)> {
    Seq::new(
        pairs.len(),
        |i: int|
            commitment(bases, zx::red(zx::quotient(polys[pairs[i].0], points[pairs[i].1]))),
    )
}

/// The transcript after writing points.
pub open spec fn with_points(t: Transcript, ps: Seq<(int, int)>) -> Transcript
    decreases ps.len(),
{
    if ps.len() == 0 {
        t
    } else {
        with_points(t, ps.drop_last()).with_point(ps.last())
    }
}

/// An opening writes the commitments to its quotients.
pub proof fn lemma_opened(
    bases: Seq<(int, int)>,
    polys: Seq<Seq<int>>,
    points: Seq<int>,
    pairs: Seq<(int, int)>,
    t: Transcript,
)
    ensures
        opened(bases, polys, points, pairs, t) == with_points(
            t,
            quotient_commitments(bases, polys, points, pairs),
        ),
    decreases pairs.len(),
{
    if pairs.len() > 0 {
        let qs = quotient_commitments(bases, polys, points, pairs);
        lemma_opened(bases, polys, points, pairs.drop_last(), t);
        assert(qs.drop_last() =~= quotient_commitments(bases, polys, points, pairs.drop_last()));
    }
}

/// A verifier who stands where a prover stood reads the points that the prover wrote
/// next, and then stands where the prover stood after them.
pub proof fn law_points_read_back(t: Transcript, ps: Seq<(int, int)>, all: Seq<u8>)
    requires
        forall|i: int| 0 <= i < ps.len() ==> curve::valid(#[trigger] ps[i]),
        with_points(t, ps).written_in(all),
    ensures
        t.written_in(all),
        next_points(ps.len(), t.reading(all)) == Ok::<(Seq<(int, int)>, Transcript), Error>(
            (ps, with_points(t, ps).reading(all)),
        ),
    decreases ps.len(),
{
    if ps.len() > 0 {
        let before = ps.drop_last();
        let w = with_points(t, before);
        assert(curve::valid(ps[ps.len() - 1]));
        crate::util::transcript::law_point_read_back(w, ps.last(), all);
        assert forall|i: int| 0 <= i < before.len() implies curve::valid(#[trigger] before[i]) by {
            assert(curve::valid(ps[i]));
        }
        law_points_read_back(t, before, all);
        assert(before.push(ps.last()) =~= ps);
    } else {
        assert(ps =~= Seq::empty());
    }
}

/// The next `n` points of a proof.
pub open spec fn next_points(n: nat, t: Transcript) -> Result<
    (Seq<(int, int)>, Transcript),
    Error,
>
    decreases n,
{
    if n == 0 {
        Ok((Seq::empty(), t))
    } else {
        match next_points((n - 1) as nat, t) {
            Err(e) => Err(e),
            Ok((ps, t1)) => match t1.read_point() {
                Err(e) => Err(e),
                Ok((p, t2)) => Ok((ps.push(p), t2)),
            },
        }
    }
}

/// The points that are read stand in the proof one after the other, 64 bytes each, the
/// coordinates most significant byte first. They are on the curve, and what is left is what
/// stands behind them.
pub proof fn law_next_points(n: nat, t: Transcript, i: int)
    requires
        next_points(n, t) is Ok,
        0 <= i < n,
    ensures
        64 * n <= t.proof.len(),
        next_points(n, t)->Ok_0.0.len() == n,
        next_points(n, t)->Ok_0.0[i] == (t.number_at(64 * i), t.number_at(64 * i + 32)),
        curve::on_curve(next_points(n, t)->Ok_0.0[i]),
        next_points(n, t)->Ok_0.1.proof == t.proof.skip(64 * n as int),
    decreases n,
{
    let m = (n - 1) as nat;
    let (ps, t1) = next_points(m, t)->Ok_0;
    if m == 0 {
        assert(t.proof.skip(0) =~= t.proof);
    } else {
        law_next_points(m, t, if i < m { i } else { 0 });
    }
    let at = 64 * m as int;
    assert(t1.proof =~= t.proof.skip(at));
    assert(t1.proof.subrange(0, 32) =~= t.proof.subrange(at, at + 32));
    assert(t1.proof.subrange(32, 64) =~= t.proof.subrange(at + 32, at + 64));
    assert(t1.proof.skip(64) =~= t.proof.skip(64 * n as int));
}

/// Where a verifier stands who has read the next `n` points, or as many as there are.
pub open spec fn after_points(n: nat, t: Transcript) -> Transcript
    decreases n,
{
    if n == 0 {
        t
    } else {
        match next_points((n - 1) as nat, t) {
            Err(_) => after_points((n - 1) as nat, t),
            Ok((_, t1)) => match t1.read_point() {
                Err(_) => t1,
                Ok((_, t2)) => t2,
            },
        }
    }
}

/// The claimed values of the evaluations.
pub open spec fn claims(evals: Seq<Evaluation>) -> Seq<int> {
    Seq::new(evals.len(), |i: int| evals[i].value@)
}

/// All pairing equations hold for the given quotient commitments.
pub open spec fn all_open(
    key: VerifierKey,
    comms: Seq<(int, int)>,
    points: Seq<int>,
    pairs: Seq<(int, int)>,
    values: Seq<int>,
    quotients: Seq<(int, int)>,
) -> bool {
    forall|i: int|
        0 <= i < pairs.len() ==> key.opens(
            comms[(#[trigger] pairs[i]).0],
            points[pairs[i].1],
            values[i],
            quotients[i],
        )
}

/// The openings hold of the secret `s`: each commitment, less its value, is `s` less the
/// point times its quotient.
pub open spec fn all_divide(
    s: int,
    comms: Seq<int>,
    points: Seq<int>,
    pairs: Seq<(int, int)>,
    values: Seq<int>,
    quotients: Seq<int>,
) -> bool {
    forall|i: int|
        0 <= i < pairs.len() ==> zp::same(
            comms[(#[trigger] pairs[i]).0] - values[i],
            (s - points[pairs[i].1]) * quotients[i],
        )
}

/// The values of the coefficients of polynomials.
pub open spec fn coefficients(polys: Seq<UnivariatePolynomial>) -> Seq<Seq<int>> {
    Seq::new(polys.len(), |i: int| polys[i]@)
}

impl UnivariateKzg {
    /// Draws a secret and derives parameters for polynomials with up to `poly_size`
    /// coefficients. `batch_size` does not matter to this scheme.
    pub fn setup(poly_size: usize, _batch_size: usize, rng: &mut StdRng) -> (r: Result<
        UnivariateKzgParam,
        Error,
    >)
        requires
            0 < poly_size <= u32::MAX,
        ensures
            r is Ok,
            r->Ok_0.powers_of_s().len() == poly_size,
            exists|s: int| #[trigger] r->Ok_0.belongs_to(s),
            exists|s: Scalar| #[trigger]
                field::drawn(*old(rng), s) && r->Ok_0.belongs_to(s@),
    {
        let s = Scalar::draw(rng);
        let param = UnivariateKzg::setup_with_secret(poly_size, &s);
        proof {
            field::lemma_scalar_range(s);
            assert(param.belongs_to(s@));
        }
        let r: Result<UnivariateKzgParam, Error> = Ok(param);
        assert(r->Ok_0.belongs_to(s@));
        r
    }

    /// The parameters for the secret `s`. If it is zero, so are its powers but the first,
    /// and their multiples are the neutral element.
    pub fn setup_with_secret(poly_size: usize, s: &Scalar) -> (r: UnivariateKzgParam)
        requires
            0 < poly_size <= u32::MAX,
        ensures
            r.powers_of_s().len() == poly_size,
            r.belongs_to(s@),
            s@ == 0 ==> forall|i: int|
                0 < i < poly_size ==> #[trigger] r.powers_of_s()[i] == curve::neutral(),
    {
        let mut powers_of_s_g1: Vec<G1Affine> = Vec::new();
        let mut power = Scalar::one();
        proof {
            lemma_pow0(s@);
            zp::lemma_modulus();
            zp::lemma_red(1);
        }
        for i in 0..poly_size
            invariant
                powers_of_s_g1.len() == i,
                power@ == zp::red(pow(s@, i as nat)),
                forall|j: int|
                    0 <= j < i ==> #[trigger] powers_of_s_g1@[j]@ == curve::g1(pow(s@, j as nat)),
                forall|j: int| 0 <= j < i ==> curve::on_curve(#[trigger] powers_of_s_g1@[j]@),
                s@ == 0 ==> forall|j: int|
                    0 < j < i ==> #[trigger] powers_of_s_g1@[j]@ == curve::neutral(),
        {
            powers_of_s_g1.push(G1Affine::generator_times(&power));
            proof {
                let p = pow(s@, i as nat);
                zp::lemma_red(p);
                if s@ == 0 && i > 0 {
                    lemma0_pow(i as nat);
                    zp::lemma_modulus();
                }
                zp::lemma_same_mul(power@, p, s@, s@);
                reveal(pow);
                lemma_mul_is_commutative(p, s@);
                assert(pow(s@, (i + 1) as nat) == p * s@);
            }
            power = power.times(s);
        }
        let one = Scalar::one();
        let g2 = G2Affine::generator_times(&one);
        let s_g2 = G2Affine::generator_times(s);
        proof {
            field::lemma_scalar_range(*s);
            zp::lemma_red(s@);
            assert(powers_of_s_g1@[0]@ == curve::g1(1));
        }
        UnivariateKzgParam { powers_of_s_g1, g2, s_g2 }
    }

    /// The parameters for polynomials with up to `poly_size` coefficients.
    pub fn trim(param: &UnivariateKzgParam, poly_size: usize, _batch_size: usize) -> (r: Result<
        (UnivariateKzgProverParam, UnivariateKzgVerifierParam),
        Error,
    >)
        requires
            0 < poly_size,
        ensures
            match r {
                Ok((pp, vp)) => {
                    &&& poly_size <= param.powers_of_s().len()
                    &&& pp@ == param.powers_of_s().take(poly_size as int)
                    &&& vp@ == param.key()
                },
                Err(e) => {
                    &&& poly_size > param.powers_of_s().len()
                    &&& e == (Error::TooLargeDegree {
                        operation: Operation::Trim,
                        upto: (param.powers_of_s().len() - 1) as usize,
                        got: (poly_size - 1) as usize,
                    })
                },
            },
    {
        let degree = param.degree();
        if degree + 1 < poly_size {
            return Err(
                Error::TooLargeDegree {
                    operation: Operation::Trim,
                    upto: degree,
                    got: poly_size - 1,
                },
            );
        }
        proof {
            use_type_invariant(param);
        }
        let powers_of_s_g1 = prefix(&param.powers_of_s_g1, poly_size);
        let ghost all = param.powers_of_s();
        assert(curve::points(powers_of_s_g1@) =~= all.take(poly_size as int));
        assert forall|i: int| 0 <= i < poly_size implies curve::on_curve(
            #[trigger] curve::points(powers_of_s_g1@)[i],
        ) by {
            assert(curve::on_curve(all[i]));
        }
        assert(curve::on_curve(all[0]));
        let pp = UnivariateKzgProverParam { powers_of_s_g1 };
        let vp = UnivariateKzgVerifierParam {
            g1: param.powers_of_s_g1[0],
            g2: param.g2,
            s_g2: param.s_g2,
        };
        Ok((pp, vp))
    }

    /// The commitment to the polynomial with the given coefficients.
    pub fn commit_monomial(pp: &UnivariateKzgProverParam, coeffs: &Vec<Scalar>) -> (r: G1Affine)
        requires
            coeffs.len() <= pp@.len(),
        ensures
            r@ == commitment(pp@, field::values(coeffs@)),
            committed(pp@, field::values(coeffs@)),
    {
        proof {
            use_type_invariant(pp);
        }
        let n: usize = coeffs.len();
        let bases = prefix(&pp.powers_of_s_g1, n);
        let ghost all = pp@;
        let ghost used = curve::points(bases@);
        proof {
            assert(used =~= all.take(n as int));
            assert forall|i: int| 0 <= i < n implies curve::on_curve(#[trigger] used[i]) by {
                assert(curve::on_curve(all[i]));
            }
        }
        let r = G1Affine::combination(coeffs, &bases);
        proof {
            assert forall|s: int| #[trigger] powers_of(pp@, s) implies r@ == curve::g1(
                zx::eval(field::values(coeffs@), s),
            ) by {
                let logs = powers(s, n as nat);
                assert forall|i: int| 0 <= i < n implies #[trigger] used[i] == curve::g1(
                    logs[i],
                ) by {
                    assert(all[i] == curve::g1(powers(s, all.len())[i]));
                }
                assert(curve::are_multiples(used, logs));
                lemma_eval_at_secret(field::values(coeffs@), s, n as nat);
            }
            curve::lemma_valid(r);
        }
        r
    }

    /// The combination of commitments with the given factors.
    pub fn combine_commitments(scalars: &Vec<Scalar>, comms: &Vec<G1Affine>) -> (r: G1Affine)
        requires
            scalars.len() == comms.len(),
            comms.len() <= u32::MAX,
            curve::all_on_curve(curve::points(comms@)),
        ensures
            r@ == curve::g1_combination(field::values(scalars@), curve::points(comms@)),
            curve::on_curve(r@),
            zx::is_zero(field::values(scalars@)) ==> r@ == curve::neutral(),
            combined(field::values(scalars@), curve::points(comms@)),
    {
        G1Affine::combination(scalars, comms)
    }

    /// Opens `poly` at `point` by committing to its quotient by `X - point`.
    pub fn open(
        pp: &UnivariateKzgProverParam,
        poly: &UnivariatePolynomial,
        point: &Scalar,
        transcript: &mut ProofWriter,
    )
        requires
            poly@.len() <= pp@.len(),
        ensures
            final(transcript)@ == old(transcript)@.with_point(
                commitment(pp@, zx::red(zx::quotient(poly@, point@))),
            ),
            committed(pp@, zx::red(zx::quotient(poly@, point@))),
    {
        let (quotient, _) = poly.div_rem_linear(point);
        let comm = UnivariateKzg::commit_monomial(pp, quotient.coeffs());
        transcript.write_commitment(&comm);
    }

    /// Opens every evaluation in turn.
    pub fn batch_open(
        pp: &UnivariateKzgProverParam,
        polys: &Vec<UnivariatePolynomial>,
        points: &Vec<Scalar>,
        evals: &Vec<Evaluation>,
        transcript: &mut ProofWriter,
    )
        requires
            evaluations_fit(evals@, polys.len() as nat, points.len() as nat),
            forall|i: int| 0 <= i < polys.len() ==> (#[trigger] polys@[i])@.len() <= pp@.len(),
        ensures
            final(transcript)@ == opened(
                pp@,
                coefficients(polys@),
                field::values(points@),
                indices(evals@),
                old(transcript)@,
            ),
            quotients_committed(
                pp@,
                coefficients(polys@),
                field::values(points@),
                indices(evals@),
            ),
    {
        let ghost t = transcript@;
        let ghost (cs, zs) = (coefficients(polys@), field::values(points@));
        let ghost pairs = indices(evals@);
        assert(pairs.take(0) =~= Seq::empty());
        for i in 0..evals.len()
            invariant
                cs == coefficients(polys@),
                zs == field::values(points@),
                evaluations_fit(evals@, polys.len() as nat, points.len() as nat),
                forall|i: int| 0 <= i < polys.len() ==> (#[trigger] polys@[i])@.len() <= pp@.len(),
                pairs == indices(evals@),
                transcript@ == opened(pp@, cs, zs, pairs.take(i as int), t),
                quotients_committed(pp@, cs, zs, pairs.take(i as int)),
        {
            let e = evals[i];
            UnivariateKzg::open(pp, &polys[e.poly], &points[e.point], transcript);
            assert(pairs.take(i + 1).drop_last() =~= pairs.take(i as int));
            assert(pairs.take(i + 1).last() == pairs[i as int]);
            assert forall|j: int| 0 <= j < i + 1 implies committed(
                pp@,
                zx::red(zx::quotient(cs[(#[trigger] pairs.take(i + 1)[j]).0], zs[pairs.take(i + 1)[j].1])),
            ) by {
                if j < i {
                    assert(pairs.take(i + 1)[j] == pairs.take(i as int)[j]);
                }
            }
        }
        assert(pairs.take(evals.len() as int) =~= pairs);
    }

    /// Reads `num` commitments.
    pub fn read_commitments(num: usize, transcript: &mut ProofReader) -> (r: Result<
        Vec<G1Affine>,
        Error,
    >)
        ensures
            match next_points(num as nat, old(transcript)@) {
                Ok((ps, after)) => {
                    &&& r matches Ok(v)
                    &&& curve::points(v@) == ps
                    &&& v.len() == num
                    &&& curve::all_on_curve(ps)
                    &&& final(transcript)@ == after
                },
                Err(e) => {
                    &&& r == Err::<Vec<G1Affine>, Error>(e)
                    &&& final(transcript)@ == after_points(num as nat, old(transcript)@)
                },
            },
    {
        let ghost t = transcript@;
        let mut out: Vec<G1Affine> = Vec::new();
        assert(curve::points(out@) =~= Seq::empty());
        for i in 0..num
            invariant
                t == old(transcript)@,
                out.len() == i,
                curve::all_on_curve(curve::points(out@)),
                next_points(i as nat, t) == Ok::<(Seq<(int, int)>, Transcript), Error>(
                    (curve::points(out@), transcript@),
                ),
        {
            let ghost before = curve::points(out@);
            match transcript.read_commitment() {
                Err(e) => {
                    proof {
                        assert(next_points((i + 1) as nat, t) == Err::<
                            (Seq<(int, int)>, Transcript),
                            Error,
                        >(e));
                        lemma_next_points_error((i + 1) as nat, num as nat, t);
                    }
                    return Err(e);
                },
                Ok(p) => {
                    out.push(p);
                    assert(curve::points(out@) =~= before.push(p@));
                    assert forall|j: int| 0 <= j < out.len() implies curve::on_curve(
                        #[trigger] curve::points(out@)[j],
                    ) by {
                        if j < i {
                            assert(curve::on_curve(before[j]));
                        }
                    }
                },
            }
        }
        Ok(out)
    }

    /// The pairing equation that `quotient` commits to the combination of `points`
    /// divided by `X - s`.
    pub fn divides(
        vp: &UnivariateKzgVerifierParam,
        scalars: &Vec<Scalar>,
        points: &Vec<G1Affine>,
        quotient: &G1Affine,
    ) -> (r: bool)
        requires
            scalars.len() == points.len(),
            points.len() <= u32::MAX,
            curve::all_on_curve(curve::points(points@)),
            curve::on_curve(quotient@),
        ensures
            r == vp@.divides(field::values(scalars@), curve::points(points@), quotient@),
            forall|s: int, logs: Seq<int>, q: int|
                #![trigger vp@.of(s), curve::are_multiples(curve::points(points@), logs), curve::g1(q)]
                vp@.of(s) && curve::are_multiples(curve::points(points@), logs) && quotient@
                    == curve::g1(q) ==> r == zp::same(
                    zx::dot(field::values(scalars@), logs),
                    s * q,
                ),
    {
        let lhs = G1Affine::combination(scalars, points);
        let zero = Scalar::zero();
        let one = Scalar::one();
        let minus_one = zero.minus(&one);
        let mut k: Vec<Scalar> = Vec::new();
        k.push(minus_one);
        let mut q1: Vec<G1Affine> = Vec::new();
        q1.push(*quotient);
        proof {
            assert(curve::points(q1@) =~= seq![quotient@]);
            assert(field::values(k@) =~= seq![zp::red(-1)]);
        }
        let rhs = G1Affine::combination(&k, &q1);
        let r = pairing_product_is_one(&lhs, &vp.g2, &rhs, &vp.s_g2);
        proof {
            let c = field::values(scalars@);
            assert forall|s: int, logs: Seq<int>, q: int|
                #![trigger vp@.of(s), curve::are_multiples(curve::points(points@), logs), curve::g1(q)]
                vp@.of(s) && curve::are_multiples(curve::points(points@), logs) && quotient@
                    == curve::g1(q) implies r == zp::same(zx::dot(c, logs), s * q) by {
                let d = zx::dot(c, logs);
                assert(lhs@ == curve::g1(d));
                assert(curve::are_multiples(curve::points(q1@), seq![q]));
                let m = zx::dot(field::values(k@), seq![q]);
                assert(zx::dot(field::values(k@).skip(1), seq![q].skip(1)) == 0);
                assert(m == zp::red(-1) * q);
                assert(rhs@ == curve::g1(m));
                assert(vp.g2@ == curve::g2(1) && vp.s_g2@ == curve::g2(s));
                assert(r == (zp::red(d * 1 + m * s) == 0));
                lemma_cancel(d, q, s);
            }
        }
        r
    }

    /// Verifies every evaluation, with the quotient commitments read from the proof.
    pub fn batch_verify(
        vp: &UnivariateKzgVerifierParam,
        comms: &Vec<G1Affine>,
        points: &Vec<Scalar>,
        evals: &Vec<Evaluation>,
        transcript: &mut ProofReader,
    ) -> (r: Result<(), Error>)
        requires
            evaluations_fit(evals@, comms.len() as nat, points.len() as nat),
            curve::all_on_curve(curve::points(comms@)),
        ensures
            match next_points(evals.len() as nat, old(transcript)@) {
                Ok((qs, after)) => {
                    &&& final(transcript)@ == after
                    &&& r == if all_open(
                        vp@,
                        curve::points(comms@),
                        field::values(points@),
                        indices(evals@),
                        claims(evals@),
                        qs,
                    ) {
                        Ok::<(), Error>(())
                    } else {
                        Err(Error::InvalidPcsOpen)
                    }
                    &&& forall|s: int, cs: Seq<int>, ls: Seq<int>|
                        #![trigger vp@.of(s), curve::are_multiples(curve::points(comms@), cs), curve::are_multiples(qs, ls)]
                        vp@.of(s) && curve::are_multiples(curve::points(comms@), cs)
                            && curve::are_multiples(qs, ls) ==> (r is Ok <==> all_divide(
                            s,
                            cs,
                            field::values(points@),
                            indices(evals@),
                            claims(evals@),
                            ls,
                        ))
                },
                Err(e) => {
                    &&& r == Err::<(), Error>(e)
                    &&& final(transcript)@ == after_points(evals.len() as nat, old(transcript)@)
                },
            },
    {
        let ghost (zs, cp) = (field::values(points@), curve::points(comms@));
        let quotients = match UnivariateKzg::read_commitments(evals.len(), transcript) {
            Err(e) => {
                return Err(e);
            },
            Ok(v) => v,
        };
        let ghost qs = curve::points(quotients@);
        let ghost (pairs, vs) = (indices(evals@), claims(evals@));
        let mut ok = true;
        for i in 0..evals.len()
            invariant
                zs == field::values(points@),
                cp == curve::points(comms@),
                qs == curve::points(quotients@),
                quotients.len() == evals.len(),
                curve::all_on_curve(qs),
                curve::all_on_curve(cp),
                evaluations_fit(evals@, comms.len() as nat, points.len() as nat),
                pairs == indices(evals@),
                vs == claims(evals@),
                ok == all_open(vp@, cp, zs, pairs.take(i as int), vs, qs),
                forall|s: int, cs: Seq<int>, ls: Seq<int>|
                    #![trigger vp@.of(s), curve::are_multiples(cp, cs), curve::are_multiples(qs, ls)]
                    vp@.of(s) && curve::are_multiples(cp, cs) && curve::are_multiples(qs, ls)
                        ==> ok == all_divide(s, cs, zs, pairs.take(i as int), vs, ls),
        {
            let e = evals[i];
            let ghost before = ok;
            proof {
                assert(curve::on_curve(cp[e.poly as int]));
                assert(curve::on_curve(qs[i as int]));
            }
            let here = UnivariateKzg::check_opening(
                vp,
                &comms[e.poly],
                &points[e.point],
                &e.value,
                &quotients[i],
            );
            ok = ok && here;
            proof {
                let (done, more) = (pairs.take(i as int), pairs.take(i + 1));
                let pair = (e.poly as int, e.point as int);
                assert(forall|j: int| 0 <= j < i ==> done[j] == more[j]);
                assert(more[i as int] == pair && vs[i as int] == e.value@);
                assert(zs[e.point as int] == points@[e.point as int]@);
                assert(cp[e.poly as int] == comms@[e.poly as int]@);
                assert(qs[i as int] == quotients@[i as int]@);
                assert(ok == all_open(vp@, cp, zs, more, vs, qs)) by {
                    if before && here {
                        assert forall|j: int| 0 <= j < more.len() implies vp@.opens(
                            cp[(#[trigger] more[j]).0],
                            zs[more[j].1],
                            vs[j],
                            qs[j],
                        ) by {
                            if j < i {
                                assert(done[j] == more[j]);
                            }
                        }
                    } else if !before {
                        let j = choose|j: int|
                            0 <= j < done.len() && !vp@.opens(
                                cp[(#[trigger] done[j]).0],
                                zs[done[j].1],
                                vs[j],
                                qs[j],
                            );
                        assert(more[j] == done[j]);
                    }
                }
                assert forall|s: int, cs: Seq<int>, ls: Seq<int>|
                    #![trigger vp@.of(s), curve::are_multiples(cp, cs), curve::are_multiples(qs, ls)]
                    vp@.of(s) && curve::are_multiples(cp, cs) && curve::are_multiples(
                        qs,
                        ls,
                    ) implies ok == all_divide(s, cs, zs, more, vs, ls) by {
                    let (c, z, v, l) = (cs[pair.0], zs[pair.1], e.value@, ls[i as int]);
                    assert(cp[pair.0] == curve::g1(c));
                    assert(qs[i as int] == curve::g1(l));
                    assert(here == zp::same(c - v, (s - z) * l));
                    assert(before == all_divide(s, cs, zs, done, vs, ls));
                    if before && here {
                        assert forall|j: int| 0 <= j < more.len() implies zp::same(
                            cs[(#[trigger] more[j]).0] - vs[j],
                            (s - zs[more[j].1]) * ls[j],
                        ) by {
                            if j < i {
                                assert(done[j] == more[j]);
                            }
                        }
                    } else if !before {
                        let j = choose|j: int|
                            0 <= j < done.len() && !zp::same(
                                cs[(#[trigger] done[j]).0] - vs[j],
                                (s - zs[done[j].1]) * ls[j],
                            );
                        assert(more[j] == done[j]);
                    }
                }
            }
        }
        assert(pairs.take(evals.len() as int) =~= pairs);
        if ok {
            Ok(())
        } else {
            Err(Error::InvalidPcsOpen)
        }
    }

    /// The pairing equation for the opening of `comm` at `z` to `v`.
    pub fn check_opening(
        vp: &UnivariateKzgVerifierParam,
        comm: &G1Affine,
        z: &Scalar,
        v: &Scalar,
        quotient: &G1Affine,
    ) -> (r: bool)
        requires
            curve::on_curve(comm@),
            curve::on_curve(quotient@),
        ensures
            r == vp@.opens(comm@, z@, v@, quotient@),
            forall|s: int, c: int, q: int|
                #![trigger vp@.of(s), curve::g1(c), curve::g1(q)]
                vp@.of(s) && comm@ == curve::g1(c) && quotient@ == curve::g1(q) ==> r == zp::same(
                    c - v@,
                    (s - z@) * q,
                ),
    {
        proof {
            use_type_invariant(vp);
        }
        let zero = Scalar::zero();
        let minus_v = zero.minus(v);
        let mut scalars: Vec<Scalar> = Vec::new();
        scalars.push(Scalar::one());
        scalars.push(minus_v);
        scalars.push(*z);
        let mut points: Vec<G1Affine> = Vec::new();
        points.push(*comm);
        points.push(vp.g1);
        points.push(*quotient);
        let ghost (ss, pp) = (field::values(scalars@), curve::points(points@));
        proof {
            assert(ss =~= seq![1int, zp::red(0 - v@), z@]);
            assert(pp =~= seq![comm@, vp@.g1, quotient@]);
        }
        let r = UnivariateKzg::divides(vp, &scalars, &points, quotient);
        proof {
            assert forall|s: int, c: int, q: int|
                #![trigger vp@.of(s), curve::g1(c), curve::g1(q)]
                vp@.of(s) && comm@ == curve::g1(c) && quotient@ == curve::g1(q) implies r
                == zp::same(c - v@, (s - z@) * q) by {
                let logs = seq![c, 1int, q];
                assert(curve::are_multiples(pp, logs));
                zx::lemma_dot_three(ss, logs);
                lemma_move(c, v@, z@, q, s);
            }
        }
        r
    }
}

proof fn lemma_next_points_error(i: nat, n: nat, t: Transcript)
    requires
        i <= n,
        next_points(i, t) is Err,
    ensures
        next_points(n, t) is Err,
        next_points(n, t)->Err_0 == next_points(i, t)->Err_0,
        after_points(n, t) == after_points(i, t),
    decreases n - i,
{
    if i < n {
        lemma_next_points_error(i + 1, n, t);
    }
}

proof fn lemma_same_difference(a: int, b: int)
    ensures
        zp::same(a, b) <==> zp::red(a - b) == 0,
{
    zp::lemma_modulus();
    zp::lemma_red(0);
    if zp::same(a, b) {
        zp::lemma_same_sub(a, b, b, b);
    }
    if zp::red(a - b) == 0 {
        zp::lemma_same_add(a - b, 0, b, b);
    }
}

proof fn lemma_cancel(d: int, q: int, s: int)
    ensures
        (zp::red(d * 1 + (zp::red(-1) * q) * s) == 0) == zp::same(d, s * q),
{
    let m = zp::red(-1) * q;
    zp::lemma_red(-1);
    zp::lemma_same_mul(zp::red(-1), -1, q, q);
    zp::lemma_same_mul(m, -1 * q, s, s);
    zp::lemma_same_add(d, d, m * s, (-1 * q) * s);
    assert((-1 * q) * s == -(s * q)) by (nonlinear_arith);
    lemma_same_difference(d, s * q);
}

proof fn lemma_move(c: int, v: int, z: int, q: int, s: int)
    ensures
        zp::same(c + zp::red(0 - v) + z * q, s * q) == zp::same(c - v, (s - z) * q),
{
    let lhs = c + zp::red(0 - v) + z * q;
    zp::lemma_red(0 - v);
    zp::lemma_same_add(c, c, zp::red(0 - v), 0 - v);
    zp::lemma_same_add(c + zp::red(0 - v), c - v, z * q, z * q);
    lemma_same_difference(c - v + z * q, s * q);
    lemma_same_difference(c - v, (s - z) * q);
    assert((s - z) * q == s * q - z * q) by (nonlinear_arith);
}

/// The first `n` points.
fn prefix(v: &Vec<G1Affine>, n: usize) -> (r: Vec<G1Affine>)
    requires
        n <= v.len(),
    ensures
        r@ == v@.take(n as int),
{
    let mut r: Vec<G1Affine> = Vec::new();
    for i in 0..n
        invariant
            n <= v.len(),
            r@ == v@.take(i as int),
    {
        r.push(v[i]);
        assert(v@.take(i + 1) =~= v@.take(i as int).push(v@[i as int]));
    }
    r
}

} // verus!
