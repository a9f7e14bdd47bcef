//! The Mercury commitment scheme of <https://eprint.iacr.org/2025/385>.
//!
//! A multilinear polynomial in `n` variables is committed to as the univariate polynomial
//! `f` whose coefficients are its values on the boolean cube. To open it at a point, the
//! variables are split in two: the first `t` of them index the columns of `f`, read as
//! rows of `b = 2^t` coefficients, and the others the rows.
use crate::error::{Error, Operation};
use crate::pcs::multilinear::additive;
use crate::pcs::multilinear::steps;
use crate::pcs::univariate;
use crate::pcs::univariate::{
    Evaluation, UnivariateKzg, UnivariateKzgParam, UnivariateKzgProverParam,
    UnivariateKzgVerifierParam,
};
#[allow(unused_imports)]
use crate::pcs::multilinear::laws;
#[allow(unused_imports)]
use crate::poly::combine;
#[allow(unused_imports)]
use crate::poly::cube;
use crate::poly::multilinear;
use crate::poly::multilinear::MultilinearPolynomial;
use crate::poly::univariate::UnivariatePolynomial;
#[allow(unused_imports)]
use crate::poly::zx;
#[allow(unused_imports)]
use crate::util::curve;
use crate::util::curve::G1Affine;
#[allow(unused_imports)]
use crate::util::field;
use crate::util::field::Scalar;
#[allow(unused_imports)]
use crate::util::transcript::Transcript;
use crate::util::transcript::{ProofReader, ProofWriter};
#[allow(unused_imports)]
use crate::util::zp;
use rand::rngs::StdRng;
use std::marker::PhantomData;
#[allow(unused_imports)]
use vstd::arithmetic::power::*;
#[allow(unused_imports)]
use vstd::arithmetic::power2::*;
use vstd::prelude::*;

verus! {

/// The Mercury scheme on top of a univariate scheme.
#[derive(Debug)]
pub struct Mercury<Pcs>(PhantomData<Pcs>);

impl<Pcs> Clone for Mercury<Pcs> {
    fn clone(&self) -> (r: Mercury<Pcs>)
        ensures
            r == *self,
    {
        Mercury(PhantomData)
    }
}

/// How many of `n` variables are folded first.
pub open spec fn folded_vars(n: nat) -> nat {
    (n / 2 + 1) as nat
}

/// The length of a row.
pub open spec fn width(n: nat) -> int {
    pow2(folded_vars(n)) as int
}

/// `eq` of the first variables of `u`, one weight for each column.
pub open spec fn column_weights(u: Seq<int>) -> Seq<int> {
    zx::red(cube::eq(u.take(folded_vars(u.len()) as int)))
}

/// `eq` of the other variables of `u`, one weight for each row, up to the length of a row.
pub open spec fn row_weights(u: Seq<int>) -> Seq<int> {
    zx::pad(zx::red(cube::eq(u.skip(folded_vars(u.len()) as int))), width(u.len()) as nat)
}

/// `h`: the rows of `f` weighed with the first variables of `u`.
pub open spec fn folded(f: Seq<int>, u: Seq<int>) -> Seq<int> {
    zx::red(
        zx::by_rows(f, width(u.len()), cube::eq(u.take(folded_vars(u.len()) as int))),
    )
}

/// `g`: the remainder of `f` by `X^b - alpha`.
pub open spec fn remainder(f: Seq<int>, b: int, alpha: int) -> Seq<int> {
    zx::red(zx::by_columns(f, b, alpha))
}

/// `q`: the quotient of `f` by `X^b - alpha`.
pub open spec fn quotient(f: Seq<int>, b: int, alpha: int) -> Seq<int> {
    zx::red(zx::block_quotient(f, b, alpha))
}

/// `s`: the coefficients of `X, X^2, ..` in the batched inner product polynomial
/// `g(X) P(1/X) + g(1/X) P(X) + gamma (h(X) Q(1/X) + h(1/X) Q(X))`, where `P` and `Q`
/// are the weights of the columns and of the rows.
pub open spec fn inner_product_tail(
    g: Seq<int>,
    gamma: int,
    h: Seq<int>,
    u: Seq<int>,
) -> Seq<int> {
    zx::red(
        steps::batched_tail(
            g,
            column_weights(u),
            gamma,
            zx::pad(h, width(u.len()) as nat),
            row_weights(u),
        ),
    )
}

/// `f(X) - (zeta^b - alpha) q(X) - g(zeta)`, which vanishes at `zeta`.
pub open spec fn numerator(
    f: Seq<int>,
    b: int,
    alpha: int,
    zeta: int,
    q: Seq<int>,
    g_zeta: int,
) -> Seq<int> {
    let k = zp::red(zp::red(pow(zeta, b as nat)) - alpha);
    zx::red(
        Seq::new(
            f.len(),
            |i: int| f[i] - k * zx::at(q, i) - (if i == 0 { g_zeta } else { 0 }),
        ),
    )
}

/// `v` is the field element whose product with `z` is one.
pub open spec fn is_inverse(z: int, v: int) -> bool {
    0 <= v < zp::modulus() && zp::red(z * v) == 1
}

/// The field element whose product with `z` is one.
pub open spec fn inverse(z: int) -> int {
    choose|v: int| is_inverse(z, v)
}

pub proof fn lemma_inverse(z: int, v: int)
    requires
        is_inverse(z, v),
    ensures
        inverse(z) == v,
{
    let w = inverse(z);
    assert(is_inverse(z, w));
    zp::lemma_modulus();
    zp::lemma_red(1);
    zp::lemma_same_mul(z * w, 1, v, v);
    zp::lemma_same_mul(z * v, 1, w, w);
    assert((z * w) * v == (z * v) * w) by (nonlinear_arith);
    zp::lemma_red(v);
    zp::lemma_red(w);
}

/// The challenges and the polynomials of an opening.
pub struct Opening {
    pub h: Seq<int>,
    pub alpha: int,
    pub g: Seq<int>,
    pub q: Seq<int>,
    pub gamma: int,
    pub s: Seq<int>,
    pub d: Seq<int>,
    pub zeta: int,
    /// The transcript when `zeta` has been drawn.
    pub transcript: Transcript,
}

/// The opening of `f` at `u`, up to the last challenge.
pub open spec fn opening(
    bases: Seq<(int, int)>,
    f: Seq<int>,
    u: Seq<int>,
    t: Transcript,
) -> Opening {
    let b = width(u.len());
    let h = folded(f, u);
    let t1 = t.with_point(univariate::commitment(bases, h));
    let alpha = t1.challenge();
    let g = remainder(f, b, alpha);
    let q = quotient(f, b, alpha);
    let t2 = t1.squeezed().with_point(univariate::commitment(bases, g)).with_point(
        univariate::commitment(bases, q),
    );
    let gamma = t2.challenge();
    let s = inner_product_tail(g, gamma, h, u);
    let d = g.reverse();
    let t3 = t2.squeezed().with_point(univariate::commitment(bases, s)).with_point(
        univariate::commitment(bases, d),
    );
    Opening { h, alpha, g, q, gamma, s, d, zeta: t3.challenge(), transcript: t3.squeezed() }
}

/// The polynomials that are opened, in order.
pub open spec fn opened_polys(o: Opening) -> Seq<Seq<int>> {
    seq![o.g, o.h, o.s, o.d]
}

/// The points that they are opened at, in order.
pub open spec fn opened_points(o: Opening) -> Seq<int> {
    seq![o.zeta, inverse(o.zeta), o.alpha]
}

/// Which polynomial is opened where.
pub open spec fn opened_indices() -> Seq<(int, int)> {
    seq![
        (0int, 0int),
        (0int, 1int),
        (1int, 0int),
        (1int, 1int),
        (2int, 0int),
        (2int, 1int),
        (3int, 0int),
        (1int, 2int),
    ]
}

/// The evaluations have the given indices and values.
pub open spec fn evaluations_are(
    evals: Seq<Evaluation>,
    indices: Seq<(int, int)>,
    values: Seq<int>,
) -> bool {
    &&& evals.len() == indices.len()
    &&& values.len() == indices.len()
    &&& forall|i: int|
        0 <= i < evals.len() ==> (#[trigger] evals[i]).poly == indices[i].0 && evals[i].point
            == indices[i].1 && evals[i].value@ == values[i]
}

/// The values of the opened polynomials.
pub open spec fn opened_values(o: Opening) -> Seq<int> {
    Seq::new(
        8,
        |i: int|
            zp::red(
                zx::eval(
                    opened_polys(o)[opened_indices()[i].0],
                    opened_points(o)[opened_indices()[i].1],
                ),
            ),
    )
}

/// The transcript after writing scalars.
pub open spec fn with_scalars(t: Transcript, v: Seq<int>) -> Transcript
    decreases v.len(),
{
    if v.len() == 0 {
        t
    } else {
        with_scalars(t, v.drop_last()).with_scalar(v.last())
    }
}

/// The quotient of the numerator by `X - zeta`.
pub open spec fn zeta_quotient(f: Seq<int>, b: int, o: Opening) -> Seq<int> {
    zx::red(
        zx::quotient(
            numerator(f, b, o.alpha, o.zeta, o.q, zp::red(zx::eval(o.g, o.zeta))),
            o.zeta,
        ),
    )
}

/// The transcript when the values and the quotient at `zeta` have been written.
pub open spec fn before_openings(
    bases: Seq<(int, int)>,
    f: Seq<int>,
    u: Seq<int>,
    o: Opening,
) -> Transcript {
    with_scalars(o.transcript, opened_values(o).take(6)).with_point(
        univariate::commitment(bases, zeta_quotient(f, width(u.len()), o)),
    )
}

/// The transcript after a whole opening.
pub open spec fn opened(
    bases: Seq<(int, int)>,
    f: Seq<int>,
    u: Seq<int>,
    t: Transcript,
) -> Transcript {
    let o = opening(bases, f, u, t);
    univariate::opened(
        bases,
        opened_polys(o),
        opened_points(o),
        opened_indices(),
        before_openings(bases, f, u, o),
    )
}

/// All commitments of an opening are what they should be.
pub open spec fn opening_committed(
    bases: Seq<(int, int)>,
    f: Seq<int>,
    u: Seq<int>,
    o: Opening,
) -> bool {
    &&& univariate::committed(bases, o.h)
    &&& univariate::committed(bases, o.g)
    &&& univariate::committed(bases, o.q)
    &&& univariate::committed(bases, o.s)
    &&& univariate::committed(bases, o.d)
    &&& univariate::committed(bases, zeta_quotient(f, width(u.len()), o))
    &&& univariate::quotients_committed(
        bases,
        opened_polys(o),
        opened_points(o),
        opened_indices(),
    )
}

/// What a verifier reads and draws, up to the univariate openings.
pub struct Received {
    pub h: (int, int),
    pub alpha: int,
    pub g: (int, int),
    pub q: (int, int),
    pub gamma: int,
    pub s: (int, int),
    pub d: (int, int),
    pub zeta: int,
    pub values: Seq<int>,
    pub phi: (int, int),
}

/// The next `n` scalars of a proof.
pub open spec fn next_scalars(n: nat, t: Transcript) -> Result<(Seq<int>, Transcript), Error>
    decreases n,
{
    if n == 0 {
        Ok((Seq::empty(), t))
    } else {
        match next_scalars((n - 1) as nat, t) {
            Err(e) => Err(e),
            Ok((vs, t1)) => match t1.read_scalar() {
                Err(e) => Err(e),
                Ok((v, t2)) => Ok((vs.push(v), t2)),
            },
        }
    }
}

/// A verifier who stands where a prover stood reads the scalars that the prover wrote
/// next, and then stands where the prover stood after them.
pub proof fn law_scalars_read_back(t: Transcript, vs: Seq<int>, all: Seq<u8>)
    requires
        forall|i: int| 0 <= i < vs.len() ==> 0 <= #[trigger] vs[i] < zp::modulus(),
        with_scalars(t, vs).written_in(all),
    ensures
        t.written_in(all),
        next_scalars(vs.len(), t.reading(all)) == Ok::<(Seq<int>, Transcript), Error>(
            (vs, with_scalars(t, vs).reading(all)),
        ),
    decreases vs.len(),
{
    if vs.len() > 0 {
        let before = vs.drop_last();
        let w = with_scalars(t, before);
        assert(0 <= vs[vs.len() - 1] < zp::modulus());
        crate::util::transcript::law_scalar_read_back(w, vs.last(), all);
        assert forall|i: int| 0 <= i < before.len() implies 0 <= #[trigger] before[i]
            < zp::modulus() by {
            assert(0 <= vs[i] < zp::modulus());
        }
        law_scalars_read_back(t, before, all);
        assert(before.push(vs.last()) =~= vs);
    } else {
        assert(vs =~= Seq::empty());
    }
}

/// The scalars that are read stand in the proof one after the other, 32 bytes each, most
/// significant byte first. They are below the field order, and what is left is what stands
/// behind them.
pub proof fn law_next_scalars(n: nat, t: Transcript, i: int)
    requires
        next_scalars(n, t) is Ok,
        0 <= i < n,
    ensures
        32 * n <= t.proof.len(),
        next_scalars(n, t)->Ok_0.0.len() == n,
        next_scalars(n, t)->Ok_0.0[i] == t.number_at(32 * i),
        t.number_at(32 * i) < zp::modulus(),
        next_scalars(n, t)->Ok_0.1.proof == t.proof.skip(32 * n as int),
    decreases n,
{
    let m = (n - 1) as nat;
    let (vs, t1) = next_scalars(m, t)->Ok_0;
    if m == 0 {
        assert(t.proof.skip(0) =~= t.proof);
    } else {
        law_next_scalars(m, t, if i < m { i } else { 0 });
    }
    let at = 32 * m as int;
    assert(t1.proof =~= t.proof.skip(at));
    assert(t1.proof.subrange(0, 32) =~= t.proof.subrange(at, at + 32));
    assert(t1.proof.skip(32) =~= t.proof.skip(32 * n as int));
}

/// What a verifier reads and draws from a transcript.
pub open spec fn received(t: Transcript) -> Result<(Received, Transcript), Error> {
    match univariate::next_points(1, t) {
        Err(e) => Err(e),
        Ok((p1, t1)) => match univariate::next_points(2, t1.squeezed()) {
            Err(e) => Err(e),
            Ok((p2, t2)) => match univariate::next_points(2, t2.squeezed()) {
                Err(e) => Err(e),
                Ok((p3, t3)) => if t3.challenge() == 0 {
                    Err(Error::ZeroChallenge)
                } else {
                    match next_scalars(6, t3.squeezed()) {
                        Err(e) => Err(e),
                        Ok((values, t4)) => match univariate::next_points(1, t4) {
                            Err(e) => Err(e),
                            Ok((p5, t5)) => Ok(
                                (
                                    Received {
                                        h: p1[0],
                                        alpha: t1.challenge(),
                                        g: p2[0],
                                        q: p2[1],
                                        gamma: t2.challenge(),
                                        s: p3[0],
                                        d: p3[1],
                                        zeta: t3.challenge(),
                                        values,
                                        phi: p5[0],
                                    },
                                    t5,
                                ),
                            ),
                        },
                    }
                },
            },
        },
    }
}

/// Where a verifier stands who has read the next `n` scalars, or as many as there are.
pub open spec fn after_scalars(n: nat, t: Transcript) -> Transcript
    decreases n,
{
    if n == 0 {
        t
    } else {
        match next_scalars((n - 1) as nat, t) {
            Err(_) => after_scalars((n - 1) as nat, t),
            Ok((_, t1)) => match t1.read_scalar() {
                Err(_) => t1,
                Ok((_, t2)) => t2,
            },
        }
    }
}

/// Where a verifier stands who has read a proof, or as much of it as there is.
pub open spec fn after_proof(t: Transcript) -> Transcript {
    match univariate::next_points(1, t) {
        Err(_) => univariate::after_points(1, t),
        Ok((_, t1)) => match univariate::next_points(2, t1.squeezed()) {
            Err(_) => univariate::after_points(2, t1.squeezed()),
            Ok((_, t2)) => match univariate::next_points(2, t2.squeezed()) {
                Err(_) => univariate::after_points(2, t2.squeezed()),
                Ok((_, t3)) => if t3.challenge() == 0 {
                    t3.squeezed()
                } else {
                    match next_scalars(6, t3.squeezed()) {
                        Err(_) => after_scalars(6, t3.squeezed()),
                        Ok((_, t4)) => match univariate::next_points(1, t4) {
                            Err(_) => univariate::after_points(1, t4),
                            Ok((_, t5)) => univariate::after_points(8, t5),
                        },
                    }
                },
            },
        },
    }
}

impl Received {
    /// The points that the polynomials are opened at, in order.
    pub open spec fn points(self) -> Seq<int> {
        seq![self.zeta, inverse(self.zeta), self.alpha]
    }

    /// The commitments that are opened, in order.
    pub open spec fn commitments(self) -> Seq<(int, int)> {
        seq![self.g, self.h, self.s, self.d]
    }

    /// The value of `d(X) = X^(b-1) g(1/X)` at `zeta`.
    pub open spec fn d_zeta(self, u: Seq<int>) -> int {
        zp::red(pow(self.zeta, (width(u.len()) - 1) as nat) * self.values[1])
    }

    /// The value of `h` at `alpha`, from the inner product identity at `zeta`, where the
    /// values of the weights are products of binomials.
    pub open spec fn h_alpha(self, u: Seq<int>, v: int) -> int {
        let (z, y) = (self.zeta, inverse(self.zeta));
        let u1 = u.take(folded_vars(u.len()) as int);
        let u2 = u.skip(folded_vars(u.len()) as int);
        let outer = self.values[0] * cube::eq_at(u1, y) + self.values[1] * cube::eq_at(u1, z);
        let inner = self.values[2] * cube::eq_at(u2, y) + self.values[3] * cube::eq_at(u2, z);
        let tail = z * self.values[4] + y * self.values[5];
        zp::red(inverse(2) * (outer + self.gamma * inner - tail) - self.gamma * v)
    }

    /// The values of all openings, the last two of which the verifier works out.
    pub open spec fn claims(self, u: Seq<int>, v: int) -> Seq<int> {
        self.values.push(self.d_zeta(u)).push(self.h_alpha(u, v))
    }

    /// The factors of `f`, `q`, `1` and the quotient in the division identity at `zeta`.
    pub open spec fn factors(self, u: Seq<int>) -> Seq<int> {
        let k = zp::red(zp::red(pow(self.zeta, width(u.len()) as nat)) - self.alpha);
        seq![1int, zp::red(0 - k), zp::red(0 - self.values[0]), self.zeta]
    }

    /// All pairing equations hold for a commitment to a polynomial that is claimed to
    /// have the value `v` at `u`.
    pub open spec fn accepted(
        self,
        key: univariate::VerifierKey,
        comm: (int, int),
        u: Seq<int>,
        v: int,
        quotients: Seq<(int, int)>,
    ) -> bool {
        &&& key.divides(self.factors(u), seq![comm, self.q, key.g1, self.phi], self.phi)
        &&& univariate::all_open(
            key,
            self.commitments(),
            self.points(),
            opened_indices(),
            self.claims(u, v),
            quotients,
        )
    }

    /// The commitments are the given multiples of the generator, in the order of
    /// `f, h, g, q, s, d` and the quotient at `zeta`.
    pub open spec fn are_multiples(self, comm: (int, int), l: Seq<int>) -> bool {
        curve::are_multiples(seq![comm, self.h, self.g, self.q, self.s, self.d, self.phi], l)
    }

    /// The pairing equations, for the secret `s` and commitments that are the multiples
    /// `l` of the generator.
    pub open spec fn holds(
        self,
        s: int,
        l: Seq<int>,
        u: Seq<int>,
        v: int,
        quotients: Seq<int>,
    ) -> bool {
        &&& zp::same(zx::dot(self.factors(u), seq![l[0], l[3], 1, l[6]]), s * l[6])
        &&& univariate::all_divide(
            s,
            seq![l[2], l[1], l[4], l[5]],
            self.points(),
            opened_indices(),
            self.claims(u, v),
            quotients,
        )
    }
}

/// What a verifier answers who is given the proof in `t` that the polynomial behind `comm`
/// has the value `v` at `u`.
pub open spec fn verdict(
    key: univariate::VerifierKey,
    comm: (int, int),
    u: Seq<int>,
    v: int,
    t: Transcript,
) -> Result<(), Error> {
    match received(t) {
        Err(e) => Err(e),
        Ok((rc, t1)) => match univariate::next_points(8, t1) {
            Err(e) => Err(e),
            Ok((quotients, _)) => if rc.accepted(key, comm, u, v, quotients) {
                Ok(())
            } else {
                Err(Error::InvalidPcsOpen)
            },
        },
    }
}

/// For a key that belongs to a secret and a proof whose points are multiples of the
/// generator, the answer is whether the equations hold of the secret and the multiples.
pub open spec fn decided_by_multiples(
    key: univariate::VerifierKey,
    comm: (int, int),
    u: Seq<int>,
    v: int,
    t: Transcript,
    answer: bool,
) -> bool {
    match received(t) {
        Err(_) => true,
        Ok((rc, t1)) => match univariate::next_points(8, t1) {
            Err(_) => true,
            Ok((quotients, _)) => forall|s: int, l: Seq<int>, ql: Seq<int>|
                #![trigger key.of(s), rc.are_multiples(comm, l), curve::are_multiples(quotients, ql)]
                key.of(s) && rc.are_multiples(comm, l) && curve::are_multiples(quotients, ql) ==> (
                answer <==> rc.holds(s, l, u, v, ql)),
        },
    }
}

/// The size of the table of a polynomial in as many variables as `point` has coordinates.
pub proof fn lemma_shape(n: nat)
    requires
        n >= 1,
    ensures
        1 <= folded_vars(n) <= n,
        n - folded_vars(n) <= folded_vars(n),
        pow2(n) == pow2((n - folded_vars(n)) as nat) * width(n),
        1 <= pow2((n - folded_vars(n)) as nat) <= width(n),
        pow2(n) <= u32::MAX ==> n <= 31 && folded_vars(n) <= 16 && width(n) <= 65536,
{
    let t = folded_vars(n);
    lemma2_to64();
    lemma_pow2_adds((n - t) as nat, t);
    lemma_pow2_pos(t);
    lemma_pow2_pos((n - t) as nat);
    if n - t < t {
        lemma_pow2_strictly_increases((n - t) as nat, t);
    }
    if n >= 32 {
        if n > 32 {
            lemma_pow2_strictly_increases(32, n);
        }
    } else if t < 16 {
        lemma_pow2_strictly_increases(t, 16);
    }
}

/// The coefficients of `f(X) - (zeta^b - alpha) q(X) - g(zeta)`.
fn numerator_coeffs(
    f: &Vec<Scalar>,
    t: usize,
    alpha: &Scalar,
    zeta: &Scalar,
    q: &Vec<Scalar>,
    g_zeta: &Scalar,
) -> (r: Vec<Scalar>)
    ensures
        field::values(r@) == numerator(
            field::values(f@),
            pow2(t as nat) as int,
            alpha@,
            zeta@,
            field::values(q@),
            g_zeta@,
        ),
{
    let ghost (cf, cq) = (field::values(f@), field::values(q@));
    let ghost target = numerator(cf, pow2(t as nat) as int, alpha@, zeta@, cq, g_zeta@);
    let zeta_pow = zeta.pow_of_two(t);
    let k = zeta_pow.minus(alpha);
    let mut r: Vec<Scalar> = Vec::new();
    for i in 0..f.len()
        invariant
            cf == field::values(f@),
            cq == field::values(q@),
            k@ == zp::red(zp::red(pow(zeta@, pow2(t as nat))) - alpha@),
            target == numerator(cf, pow2(t as nat) as int, alpha@, zeta@, cq, g_zeta@),
            r.len() == i,
            forall|j: int| 0 <= j < i ==> (#[trigger] r@[j])@ == target[j],
    {
        let mut v = f[i];
        let ghost mut x = cf[i as int];
        proof {
            field::lemma_scalar_range(v);
            zp::lemma_red(x);
        }
        if i < q.len() {
            let kq = k.times(&q[i]);
            proof {
                zp::lemma_red(k@ * cq[i as int]);
                zp::lemma_same_sub(v@, x, kq@, k@ * cq[i as int]);
                x = x - k@ * cq[i as int];
                zp::lemma_red(v@ - kq@);
            }
            v = v.minus(&kq);
        } else {
            assert(k@ * 0 == 0);
        }
        if i == 0 {
            proof {
                zp::lemma_same_sub(v@, x, g_zeta@, g_zeta@);
                x = x - g_zeta@;
            }
            v = v.minus(g_zeta);
        }
        proof {
            assert(v@ == zp::red(x));
        }
        r.push(v);
    }
    assert(field::values(r@) =~= target);
    r
}

/// The polynomial is too large to be committed to.
pub open spec fn too_large(pp: Seq<(int, int)>, poly: Seq<int>, operation: Operation) -> Error {
    Error::TooLargeDegree {
        operation,
        upto: (pp.len() - 1) as usize,
        got: (poly.len() - 1) as usize,
    }
}

/// What is said of a polynomial that is too large: how large a degree is possible, and what it
/// would have to be.
pub proof fn law_too_large(pp: Seq<(int, int)>, poly: Seq<int>, operation: Operation)
    ensures
        too_large(pp, poly, operation) == (Error::TooLargeDegree {
            operation,
            upto: (pp.len() - 1) as usize,
            got: (poly.len() - 1) as usize,
        }),
{
}

/// The number of coordinates of the first point, or zero if there is none.
pub open spec fn num_vars(points: Seq<Vec<Scalar>>) -> nat {
    if points.len() == 0 {
        0
    } else {
        points[0].len() as nat
    }
}

/// What opening `f` at `u` answers, and where it leaves the prover: an opening is written
/// unless there are too few parameters, or no inverse of a challenge.
pub open spec fn open_result(
    bases: Seq<(int, int)>,
    f: Seq<int>,
    u: Seq<int>,
    t: Transcript,
    r: Result<(), Error>,
    after: Transcript,
) -> bool {
    let o = opening(bases, f, u, t);
    if bases.len() < f.len() {
        &&& r == Err::<(), Error>(too_large(bases, f, Operation::Open))
        &&& after == t
    } else if o.zeta == 0 {
        &&& r == Err::<(), Error>(Error::ZeroChallenge)
        &&& after == o.transcript
    } else {
        &&& r is Ok
        &&& after == opened(bases, f, u, t)
        &&& opening_committed(bases, f, u, o)
    }
}

impl Mercury<UnivariateKzg> {
    /// Draws a secret and derives parameters for polynomials with up to `poly_size` values
    /// on the cube.
    pub fn setup(poly_size: usize, batch_size: usize, rng: &mut StdRng) -> (r: Result<
        UnivariateKzgParam,
        Error,
    >)
        requires
            0 < poly_size <= u32::MAX,
        ensures
            r is Ok,
            r->Ok_0.powers_of_s().len() == poly_size,
            exists|s: int| #[trigger] r->Ok_0.belongs_to(s),
            exists|s: Scalar| #[trigger]
                field::drawn(*old(rng), s) && r->Ok_0.belongs_to(s@),
    {
        UnivariateKzg::setup(poly_size, batch_size, rng)
    }

    /// The parameters for polynomials with up to `poly_size` values on the cube.
    pub fn trim(param: &UnivariateKzgParam, poly_size: usize, batch_size: usize) -> (r: Result<
        (UnivariateKzgProverParam, UnivariateKzgVerifierParam),
        Error,
    >)
        requires
            0 < poly_size,
        ensures
            match r {
                Ok((pp, vp)) => {
                    &&& poly_size <= param.powers_of_s().len()
                    &&& pp@ == param.powers_of_s().take(poly_size as int)
                    &&& vp@ == param.key()
                },
                Err(e) => {
                    &&& poly_size > param.powers_of_s().len()
                    &&& e == (Error::TooLargeDegree {
                        operation: Operation::Trim,
                        upto: (param.powers_of_s().len() - 1) as usize,
                        got: (poly_size - 1) as usize,
                    })
                },
            },
    {
        UnivariateKzg::trim(param, poly_size, batch_size)
    }

    /// Commits to the univariate polynomial whose coefficients are the values of `poly`.
    pub fn commit(pp: &UnivariateKzgProverParam, poly: &MultilinearPolynomial) -> (r: Result<
        G1Affine,
        Error,
    >)
        ensures
            match r {
                Ok(c) => {
                    &&& poly@.len() <= pp@.len()
                    &&& c@ == univariate::commitment(pp@, poly@)
                    &&& univariate::committed(pp@, poly@)
                },
                Err(e) => {
                    &&& poly@.len() > pp@.len()
                    &&& e == too_large(pp@, poly@, Operation::Commit)
                },
            },
    {
        let degree = pp.degree();
        let evals = poly.evals();
        if degree + 1 < evals.len() {
            return Err(
                Error::TooLargeDegree {
                    operation: Operation::Commit,
                    upto: degree,
                    got: evals.len() - 1,
                },
            );
        }
        Ok(UnivariateKzg::commit_monomial(pp, evals))
    }

    /// Commits to each polynomial in turn, up to the first that is too large.
    pub fn batch_commit(pp: &UnivariateKzgProverParam, polys: &Vec<MultilinearPolynomial>) -> (r:
        Result<Vec<G1Affine>, Error>)
        ensures
            match r {
                Ok(v) => {
                    &&& v.len() == polys.len()
                    &&& forall|i: int|
                        0 <= i < polys.len() ==> (#[trigger] polys@[i])@.len() <= pp@.len()
                            && v@[i]@ == univariate::commitment(pp@, polys@[i]@)
                            && univariate::committed(pp@, polys@[i]@)
                },
                Err(e) => exists|i: int|
                    #![trigger polys@[i]]
                    0 <= i < polys.len() && polys@[i]@.len() > pp@.len() && e == too_large(
                        pp@,
                        polys@[i]@,
                        Operation::Commit,
                    ) && forall|j: int| 0 <= j < i ==> (#[trigger] polys@[j])@.len() <= pp@.len(),
            },
    {
        let mut out: Vec<G1Affine> = Vec::new();
        for i in 0..polys.len()
            invariant
                out.len() == i,
                forall|k: int|
                    0 <= k < i ==> (#[trigger] polys@[k])@.len() <= pp@.len() && out@[k]@
                        == univariate::commitment(pp@, polys@[k]@) && univariate::committed(
                        pp@,
                        polys@[k]@,
                    ),
        {
            match Mercury::commit(pp, &polys[i]) {
                Err(e) => {
                    return Err(e);
                },
                Ok(c) => {
                    out.push(c);
                },
            }
        }
        Ok(out)
    }

    /// Reads `num_polys` commitments from a proof.
    pub fn read_commitments(
        _vp: &UnivariateKzgVerifierParam,
        num_polys: usize,
        transcript: &mut ProofReader,
    ) -> (r: Result<Vec<G1Affine>, Error>)
        ensures
            match univariate::next_points(num_polys as nat, old(transcript)@) {
                Ok((ps, after)) => {
                    &&& r matches Ok(v)
                    &&& curve::points(v@) == ps
                    &&& v.len() == num_polys
                    &&& curve::all_on_curve(ps)
                    &&& final(transcript)@ == after
                },
                Err(e) => {
                    &&& r == Err::<Vec<G1Affine>, Error>(e)
                    &&& final(transcript)@ == univariate::after_points(
                        num_polys as nat,
                        old(transcript)@,
                    )
                },
            },
    {
        UnivariateKzg::read_commitments(num_polys, transcript)
    }

    /// Verifies that the polynomial behind `comm` has the value `eval` at `point`. What
    /// `open` wrote for a polynomial is accepted with its commitment and its value.
    pub fn verify(
        vp: &UnivariateKzgVerifierParam,
        comm: &G1Affine,
        point: &Vec<Scalar>,
        eval: &Scalar,
        transcript: &mut ProofReader,
    ) -> (r: Result<(), Error>)
        requires
            point.len() > 0,
            curve::on_curve(comm@),
        ensures
            final(transcript)@ == after_proof(old(transcript)@),
            r == verdict(vp@, comm@, field::values(point@), eval@, old(transcript)@),
            decided_by_multiples(
                vp@,
                comm@,
                field::values(point@),
                eval@,
                old(transcript)@,
                r is Ok,
            ),
            forall|bases: Seq<(int, int)>, f: Seq<int>, t: Transcript, all: Seq<u8>| #[trigger]
                laws::was_opened(
                    bases,
                    vp@,
                    f,
                    comm@,
                    field::values(point@),
                    eval@,
                    t,
                    all,
                    old(transcript)@,
                ) ==> r is Ok && final(transcript)@ == opened(
                    bases,
                    f,
                    field::values(point@),
                    t,
                ).reading(all),
    {
        let ghost (u, t0) = (field::values(point@), transcript@);
        let r = check_opening(vp, comm, point, eval, transcript);
        proof {
            assert forall|bases: Seq<(int, int)>, f: Seq<int>, t: Transcript, all: Seq<u8>|
                #[trigger] laws::was_opened(
                    bases,
                    vp@,
                    f,
                    comm@,
                    u,
                    eval@,
                    t,
                    all,
                    t0,
                ) implies r is Ok && transcript@ == opened(bases, f, u, t).reading(all) by {
                let o = opening(bases, f, u, t);
                let s = choose|s: int| #[trigger] univariate::powers_of(bases, s) && vp@.of(s)
                    && comm@ == curve::g1(zx::eval(f, s));
                laws::law_proof_read_back(bases, f, u, t, all);
                laws::law_opened_multiples(bases, f, comm@, u, o, s);
                laws::law_completeness(bases, f, u, t, s);
            }
        }
        r
    }

    /// Opens `poly` at `point`. The commitment and the value are not needed.
    pub fn open(
        pp: &UnivariateKzgProverParam,
        poly: &MultilinearPolynomial,
        _comm: &G1Affine,
        point: &Vec<Scalar>,
        _eval: &Scalar,
        transcript: &mut ProofWriter,
    ) -> (r: Result<(), Error>)
        requires
            poly@.len() > pp@.len() || (point.len() > 0 && poly@.len() == pow2(
                point.len() as nat,
            )),
        ensures
            open_result(pp@, poly@, field::values(point@), old(transcript)@, r, final(transcript)@),
    {
        Self::open_poly(pp, poly, point, transcript)
    }

    /// Opens every evaluation of one of `polys` at one of `points`. The commitments are not
    /// needed.
    pub fn batch_open(
        pp: &UnivariateKzgProverParam,
        polys: &Vec<MultilinearPolynomial>,
        _comms: &Vec<G1Affine>,
        points: &Vec<Vec<Scalar>>,
        evals: &Vec<Evaluation>,
        transcript: &mut ProofWriter,
    ) -> (r: Result<(), Error>)
        requires
            additive::openable(
                additive::values_of(polys@),
                additive::coordinates(points@),
                evals@,
                num_vars(points@),
            ),
        ensures
            additive::open_result(
                pp@,
                additive::values_of(polys@),
                additive::coordinates(points@),
                univariate::indices(evals@),
                num_vars(points@),
                old(transcript)@,
                r,
                final(transcript)@,
            ),
    {
        let num_vars: usize = if points.len() == 0 {
            0
        } else {
            points[0].len()
        };
        additive::batch_open(pp, num_vars, polys, points, evals, transcript)
    }

    /// Verifies every evaluation, with the proof read from the transcript. What `batch_open`
    /// wrote is accepted with the commitments to the polynomials and their values.
    pub fn batch_verify(
        vp: &UnivariateKzgVerifierParam,
        comms: &Vec<G1Affine>,
        points: &Vec<Vec<Scalar>>,
        evals: &Vec<Evaluation>,
        transcript: &mut ProofReader,
    ) -> (r: Result<(), Error>)
        requires
            additive::verifiable(
                curve::points(comms@),
                additive::coordinates(points@),
                evals@,
                num_vars(points@),
            ),
        ensures
            additive::verify_result(
                vp@,
                curve::points(comms@),
                additive::coordinates(points@),
                univariate::indices(evals@),
                univariate::claims(evals@),
                num_vars(points@),
                old(transcript)@,
                r,
                final(transcript)@,
            ),
            forall|bases: Seq<(int, int)>, polys: Seq<Seq<int>>, t: Transcript, all: Seq<u8>|
                #[trigger] additive::was_opened(
                    bases,
                    vp@,
                    polys,
                    curve::points(comms@),
                    additive::coordinates(points@),
                    univariate::indices(evals@),
                    univariate::claims(evals@),
                    num_vars(points@),
                    t,
                    all,
                    old(transcript)@,
                ) ==> r is Ok,
    {
        let num_vars: usize = if points.len() == 0 {
            0
        } else {
            points[0].len()
        };
        additive::batch_verify(vp, num_vars, comms, points, evals, transcript)
    }

    /// Opens `poly` at `point`.
    pub(crate) fn open_poly(
        pp: &UnivariateKzgProverParam,
        poly: &MultilinearPolynomial,
        point: &Vec<Scalar>,
        transcript: &mut ProofWriter,
    ) -> (r: Result<(), Error>)
        requires
            poly@.len() > pp@.len() || (point.len() > 0 && poly@.len() == pow2(
                point.len() as nat,
            )),
        ensures
            open_result(pp@, poly@, field::values(point@), old(transcript)@, r, final(transcript)@),
    {
        let ghost (cf, u, t0) = (poly@, field::values(point@), transcript@);
        let num_vars: usize = point.len();
        let degree = pp.degree();
        let f = poly.evals();
        if degree + 1 < f.len() {
            return Err(
                Error::TooLargeDegree {
                    operation: Operation::Open,
                    upto: degree,
                    got: f.len() - 1,
                },
            );
        }
        proof {
            lemma_shape(num_vars as nat);
        }
        let t: usize = num_vars / 2 + 1;
        let b: usize = multilinear::power_of_two(t);
        let m: usize = multilinear::power_of_two(num_vars - t);
        let ghost o = opening(pp@, cf, u, t0);
        let ghost u1 = u.take(t as int);

        // `h(X)`
        proof {
            vstd::arithmetic::div_mod::lemma_mod_multiples_basic(m as int, b as int);
        }
        let h = UnivariatePolynomial::monomial(multilinear::fold(f, point, t));
        proof {
            cube::lemma_fold_rows(cf, u1, m as int);
            zx::lemma_blocks(cf.len() as int, b as int, m as int);
            assert(h@ == o.h);
            assert(h@.len() == m);
        }
        let h_comm = UnivariateKzg::commit_monomial(pp, h.coeffs());
        transcript.write_commitment(&h_comm);

        // `g(X)` and `q(X)`, with `f(X) = (X^b - alpha) q(X) + g(X)`
        let alpha = transcript.squeeze_challenge();
        let (g_coeffs, q_coeffs) = steps::divide(f, b, m, &alpha);
        let g = UnivariatePolynomial::monomial(g_coeffs);
        let q = UnivariatePolynomial::monomial(q_coeffs);
        proof {
            assert(g@ == o.g && q@ == o.q);
            assert(b <= cf.len()) by (nonlinear_arith)
                requires
                    cf.len() == m * b,
                    m >= 1,
                    b >= 1,
            ;
        }
        let g_comm = UnivariateKzg::commit_monomial(pp, g.coeffs());
        let q_comm = UnivariateKzg::commit_monomial(pp, q.coeffs());
        transcript.write_commitment(&g_comm);
        transcript.write_commitment(&q_comm);

        // `s(X)` and `d(X)`
        let gamma = transcript.squeeze_challenge();
        proof {
            assert(u.len() - t as int == num_vars - t);
        }
        let p_u1 = multilinear::eq_xy(&prefix(point, t), 0);
        let p_u2 = multilinear::eq_xy(point, t);
        proof {
            assert(field::values(point@.take(t as int)) =~= u1);
            assert(u1.skip(0) =~= u1);
        }
        let s = UnivariatePolynomial::monomial(
            steps::inner_product_tail(
                g.coeffs(),
                &p_u1,
                &gamma,
                &steps::padded(h.coeffs(), b),
                &steps::padded(&p_u2, b),
                t,
            ),
        );
        let d = UnivariatePolynomial::monomial(steps::reversed(g.coeffs()));
        proof {
            assert(s@ == o.s && d@ == o.d);
        }
        let s_comm = UnivariateKzg::commit_monomial(pp, s.coeffs());
        let d_comm = UnivariateKzg::commit_monomial(pp, d.coeffs());
        transcript.write_commitment(&s_comm);
        transcript.write_commitment(&d_comm);

        let zeta = transcript.squeeze_challenge();
        assert(zeta@ == o.zeta && transcript@ == o.transcript);
        let zeta_inv = match zeta.invert() {
            None => {
                return Err(Error::ZeroChallenge);
            },
            Some(v) => v,
        };
        proof {
            field::lemma_scalar_range(zeta_inv);
            lemma_inverse(zeta@, zeta_inv@);
        }

        let g_zeta = g.evaluate(&zeta);
        let mut evals: Vec<Evaluation> = Vec::new();
        evals.push(Evaluation::new(0, 0, g_zeta));
        evals.push(Evaluation::new(0, 1, g.evaluate(&zeta_inv)));
        evals.push(Evaluation::new(1, 0, h.evaluate(&zeta)));
        evals.push(Evaluation::new(1, 1, h.evaluate(&zeta_inv)));
        evals.push(Evaluation::new(2, 0, s.evaluate(&zeta)));
        evals.push(Evaluation::new(2, 1, s.evaluate(&zeta_inv)));
        evals.push(Evaluation::new(3, 0, d.evaluate(&zeta)));
        evals.push(Evaluation::new(1, 2, h.evaluate(&alpha)));
        let ghost vs = opened_values(o);
        assert(evaluations_are(evals@, opened_indices(), vs));
        let mut values: Vec<Scalar> = Vec::new();
        for i in 0..6
            invariant
                evals.len() == 8,
                vs.len() == 8,
                evaluations_are(evals@, opened_indices(), vs),
                values.len() == i,
                forall|j: int| 0 <= j < i ==> (#[trigger] values@[j])@ == vs[j],
        {
            values.push(evals[i].value);
            assert(evals@[i as int].value@ == vs[i as int]);
        }
        assert(field::values(values@) =~= vs.take(6));
        write_scalars(&values, transcript);

        // The quotient of `f(X) - (zeta^b - alpha) q(X) - g(zeta)` by `X - zeta`
        let phi_numerator = UnivariatePolynomial::monomial(
            numerator_coeffs(f, t, &alpha, &zeta, q.coeffs(), &g_zeta),
        );
        let (phi, _) = phi_numerator.div_rem_linear(&zeta);
        let phi_zeta = UnivariateKzg::commit_monomial(pp, phi.coeffs());
        transcript.write_commitment(&phi_zeta);
        assert(transcript@ == before_openings(pp@, cf, u, o));

        let mut polys: Vec<UnivariatePolynomial> = Vec::new();
        polys.push(g);
        polys.push(h);
        polys.push(s);
        polys.push(d);
        let mut points: Vec<Scalar> = Vec::new();
        points.push(zeta);
        points.push(zeta_inv);
        points.push(alpha);
        proof {
            assert(univariate::coefficients(polys@) =~= opened_polys(o));
            assert(field::values(points@) =~= opened_points(o));
            assert(univariate::indices(evals@) =~= opened_indices());
        }
        UnivariateKzg::batch_open(pp, &polys, &points, &evals, transcript);
        Ok(())
    }
}

/// The pairing equations for the value `eval` at `point`, with the proof read from the
/// transcript.
fn check_opening(
    vp: &UnivariateKzgVerifierParam,
    comm: &G1Affine,
    point: &Vec<Scalar>,
    eval: &Scalar,
    transcript: &mut ProofReader,
) -> (r: Result<(), Error>)
    requires
        point.len() > 0,
        curve::on_curve(comm@),
    ensures
        final(transcript)@ == after_proof(old(transcript)@),
        received(old(transcript)@) matches Ok((rc, _)) ==> is_inverse(rc.zeta, inverse(rc.zeta)),
        r == verdict(vp@, comm@, field::values(point@), eval@, old(transcript)@),
        decided_by_multiples(
            vp@,
            comm@,
            field::values(point@),
            eval@,
            old(transcript)@,
            r is Ok,
        ),
{
    let ghost (u, t0) = (field::values(point@), transcript@);
    let t: usize = point.len() / 2 + 1;
    let hs = match UnivariateKzg::read_commitments(1, transcript) {
        Err(e) => {
            return Err(e);
        },
        Ok(v) => v,
    };
    let alpha = transcript.squeeze_challenge();
    let gq = match UnivariateKzg::read_commitments(2, transcript) {
        Err(e) => {
            return Err(e);
        },
        Ok(v) => v,
    };
    let gamma = transcript.squeeze_challenge();
    let sd = match UnivariateKzg::read_commitments(2, transcript) {
        Err(e) => {
            return Err(e);
        },
        Ok(v) => v,
    };
    let zeta = transcript.squeeze_challenge();
    let zeta_inv = match zeta.invert() {
        None => {
            return Err(Error::ZeroChallenge);
        },
        Some(v) => v,
    };
    let values = match read_scalars(6, transcript) {
        Err(e) => {
            return Err(e);
        },
        Ok(v) => v,
    };
    let phis = match UnivariateKzg::read_commitments(1, transcript) {
        Err(e) => {
            return Err(e);
        },
        Ok(v) => v,
    };
    let (h, g, q) = (hs[0], gq[0], gq[1]);
    let (s, d, phi) = (sd[0], sd[1], phis[0]);
    let ghost rc = (received(t0)->Ok_0).0;
    let ghost t5 = (received(t0)->Ok_0).1;
    proof {
        field::lemma_scalar_range(zeta_inv);
        lemma_inverse(zeta@, zeta_inv@);
        assert(h@ == curve::points(hs@)[0]);
        assert(g@ == curve::points(gq@)[0] && q@ == curve::points(gq@)[1]);
        assert(s@ == curve::points(sd@)[0] && d@ == curve::points(sd@)[1]);
        assert(phi@ == curve::points(phis@)[0]);
        assert(rc.h == h@ && rc.g == g@ && rc.q == q@ && rc.s == s@ && rc.d == d@);
        assert(rc.phi == phi@ && rc.values == field::values(values@));
        assert(rc.alpha == alpha@ && rc.gamma == gamma@ && rc.zeta == zeta@);
    }

    // f(X) - (zeta^b - alpha) q(X) - g(zeta) = (X - zeta) phi(X)
    let zero = Scalar::zero();
    let k = zeta.pow_of_two(t).minus(&alpha);
    let mut factors: Vec<Scalar> = Vec::new();
    factors.push(Scalar::one());
    factors.push(zero.minus(&k));
    factors.push(zero.minus(&values[0]));
    factors.push(zeta);
    let mut terms: Vec<G1Affine> = Vec::new();
    terms.push(*comm);
    terms.push(q);
    terms.push(vp.g1());
    terms.push(phi);
    let ghost tp = curve::points(terms@);
    proof {
        assert(field::values(factors@) =~= rc.factors(u));
        assert(tp =~= seq![comm@, rc.q, vp@.g1, rc.phi]);
        assert forall|i: int| 0 <= i < 4 implies curve::on_curve(#[trigger] tp[i]) by {}
    }
    let divided = UnivariateKzg::divides(vp, &factors, &terms, &phi);

    // The openings at zeta, 1 / zeta and alpha
    let d_zeta = zeta.pow_of_two(t).times(&zeta_inv).times(&values[1]);
    let h_alpha = inner_product_value(&values, &zeta, &zeta_inv, &gamma, point, t, eval);
    proof {
        lemma_d_zeta(zeta@, zeta_inv@, t as nat, values@[1]@);
    }
    let mut evals: Vec<Evaluation> = Vec::new();
    evals.push(Evaluation::new(0, 0, values[0]));
    evals.push(Evaluation::new(0, 1, values[1]));
    evals.push(Evaluation::new(1, 0, values[2]));
    evals.push(Evaluation::new(1, 1, values[3]));
    evals.push(Evaluation::new(2, 0, values[4]));
    evals.push(Evaluation::new(2, 1, values[5]));
    evals.push(Evaluation::new(3, 0, d_zeta));
    evals.push(Evaluation::new(1, 2, h_alpha));
    let mut comms: Vec<G1Affine> = Vec::new();
    comms.push(g);
    comms.push(h);
    comms.push(s);
    comms.push(d);
    let mut points: Vec<Scalar> = Vec::new();
    points.push(zeta);
    points.push(zeta_inv);
    points.push(alpha);
    proof {
        assert(univariate::indices(evals@) =~= opened_indices());
        assert(univariate::claims(evals@) =~= rc.claims(u, eval@));
        assert(field::values(points@) =~= rc.points());
        assert(curve::points(comms@) =~= rc.commitments());
        assert forall|i: int| 0 <= i < 4 implies curve::on_curve(
            #[trigger] curve::points(comms@)[i],
        ) by {}
    }
    let opened = match UnivariateKzg::batch_verify(vp, &comms, &points, &evals, transcript) {
        Ok(_) => true,
        Err(Error::InvalidPcsOpen) => false,
        Err(e) => {
            return Err(e);
        },
    };
    proof {
        if let Ok((quotients, _)) = univariate::next_points(8, t5) {
            assert forall|sec: int, l: Seq<int>, ql: Seq<int>|
                #![trigger vp@.of(sec), rc.are_multiples(comm@, l), curve::are_multiples(quotients, ql)]
                vp@.of(sec) && rc.are_multiples(comm@, l) && curve::are_multiples(
                    quotients,
                    ql,
                ) implies ((divided && opened) <==> rc.holds(sec, l, u, eval@, ql)) by {
                let all = seq![comm@, rc.h, rc.g, rc.q, rc.s, rc.d, rc.phi];
                assert(all[0] == curve::g1(l[0]) && all[1] == curve::g1(l[1]));
                assert(all[2] == curve::g1(l[2]) && all[3] == curve::g1(l[3]));
                assert(all[4] == curve::g1(l[4]) && all[5] == curve::g1(l[5]));
                assert(all[6] == curve::g1(l[6]));
                assert(curve::are_multiples(tp, seq![l[0], l[3], 1, l[6]]));
                assert(curve::are_multiples(
                    curve::points(comms@),
                    seq![l[2], l[1], l[4], l[5]],
                ));
            }
        }
    }
    if divided && opened {
        Ok(())
    } else {
        Err(Error::InvalidPcsOpen)
    }
}

proof fn lemma_d_zeta(zeta: int, zeta_inv: int, t: nat, v: int)
    requires
        is_inverse(zeta, zeta_inv),
    ensures
        zp::red(zp::red(zp::red(pow(zeta, pow2(t))) * zeta_inv) * v) == zp::red(
            pow(zeta, (pow2(t) - 1) as nat) * v,
        ),
{
    lemma_pow2_pos(t);
    let n = pow2(t);
    let (p, p1) = (pow(zeta, n), pow(zeta, (n - 1) as nat));
    reveal(pow);
    assert(p == zeta * p1);
    zp::lemma_modulus();
    zp::lemma_red(1);
    zp::lemma_red(p);
    zp::lemma_same_mul(zp::red(p), p, zeta_inv, zeta_inv);
    assert(p * zeta_inv == (zeta * zeta_inv) * p1) by (nonlinear_arith)
        requires
            p == zeta * p1,
    ;
    zp::lemma_same_mul(zeta * zeta_inv, 1, p1, p1);
    zp::lemma_red(zp::red(p) * zeta_inv);
    zp::lemma_same_mul(zp::red(zp::red(p) * zeta_inv), p1, v, v);
}

proof fn lemma_weighted(a: int, x: int, rx: int, b: int, y: int, ry: int, bry: int)
    requires
        rx == zp::red(x),
        ry == zp::red(y),
        bry == zp::red(b * ry),
    ensures
        zp::same(a * rx + bry, a * x + b * y),
{
    zp::lemma_red(x);
    zp::lemma_red(y);
    zp::lemma_same_mul(a, a, rx, x);
    zp::lemma_same_mul(b, b, ry, y);
    zp::lemma_red(b * ry);
    zp::lemma_same_add(a * rx, a * x, bry, b * y);
}

/// The value of `h` at `alpha` that the inner product identity at `zeta` asks for.
fn inner_product_value(
    values: &Vec<Scalar>,
    zeta: &Scalar,
    zeta_inv: &Scalar,
    gamma: &Scalar,
    point: &Vec<Scalar>,
    t: usize,
    eval: &Scalar,
) -> (r: Scalar)
    requires
        values.len() == 6,
        t <= point.len(),
    ensures
        ({
            let u = field::values(point@);
            let v = field::values(values@);
            let (u1, u2) = (u.take(t as int), u.skip(t as int));
            let outer = v[0] * cube::eq_at(u1, zeta_inv@) + v[1] * cube::eq_at(u1, zeta@);
            let inner = v[2] * cube::eq_at(u2, zeta_inv@) + v[3] * cube::eq_at(u2, zeta@);
            let tail = zeta@ * v[4] + zeta_inv@ * v[5];
            r@ == zp::red(inverse(2) * (outer + gamma@ * inner - tail) - gamma@ * eval@)
        }),
{
    let ghost u = field::values(point@);
    let ghost (u1, u2) = (u.take(t as int), u.skip(t as int));
    let n: usize = point.len();
    proof {
        assert(u.subrange(0, t as int) =~= u1);
        assert(u.subrange(t as int, n as int) =~= u2);
    }
    let p1 = multilinear::eq_xy_at(point, 0, t, zeta);
    let p1_inv = multilinear::eq_xy_at(point, 0, t, zeta_inv);
    let p2 = multilinear::eq_xy_at(point, t, n, zeta);
    let p2_inv = multilinear::eq_xy_at(point, t, n, zeta_inv);
    let outer = values[0].mul_add(&p1_inv, &values[1].times(&p1));
    let inner = values[2].mul_add(&p2_inv, &values[3].times(&p2));
    let tail = zeta.mul_add(&values[4], &zeta_inv.times(&values[5]));
    let total = gamma.mul_add(&inner, &outer).minus(&tail);
    let half = Scalar::pow2_inv(1);
    let scaled = half.times(&total);
    let r = scaled.minus(&gamma.times(eval));
    proof {
        let v = field::values(values@);
        let (e1, e1i) = (cube::eq_at(u1, zeta@), cube::eq_at(u1, zeta_inv@));
        let (e2, e2i) = (cube::eq_at(u2, zeta@), cube::eq_at(u2, zeta_inv@));
        let o = v[0] * e1i + v[1] * e1;
        let i = v[2] * e2i + v[3] * e2;
        let w = zeta@ * v[4] + zeta_inv@ * v[5];
        lemma_weighted(v[0], e1i, p1_inv@, v[1], e1, p1@, zp::red(v[1] * p1@));
        lemma_weighted(v[2], e2i, p2_inv@, v[3], e2, p2@, zp::red(v[3] * p2@));
        zp::lemma_red(v[0] * p1_inv@ + zp::red(v[1] * p1@));
        zp::lemma_red(v[2] * p2_inv@ + zp::red(v[3] * p2@));
        assert(zp::same(outer@, o) && zp::same(inner@, i));
        zp::lemma_red(zeta_inv@ * v[5]);
        zp::lemma_same_add(zeta@ * v[4], zeta@ * v[4], zp::red(zeta_inv@ * v[5]), zeta_inv@ * v[5]);
        zp::lemma_red(zeta@ * v[4] + zp::red(zeta_inv@ * v[5]));
        assert(zp::same(tail@, w));
        zp::lemma_same_mul(gamma@, gamma@, inner@, i);
        zp::lemma_same_add(gamma@ * inner@, gamma@ * i, outer@, o);
        zp::lemma_red(gamma@ * inner@ + outer@);
        let x = zp::red(gamma@ * inner@ + outer@);
        zp::lemma_same_sub(x, gamma@ * i + o, tail@, w);
        zp::lemma_red(x - tail@);
        assert(zp::same(total@, o + gamma@ * i - w));
        lemma2_to64();
        field::lemma_scalar_range(half);
        lemma_inverse(2, half@);
        zp::lemma_same_mul(half@, half@, total@, o + gamma@ * i - w);
        zp::lemma_red(half@ * total@);
        zp::lemma_red(gamma@ * eval@);
        zp::lemma_same_sub(
            scaled@,
            half@ * (o + gamma@ * i - w),
            zp::red(gamma@ * eval@),
            gamma@ * eval@,
        );
    }
    r
}

/// Writes scalars.
pub(crate) fn write_scalars(scalars: &Vec<Scalar>, transcript: &mut ProofWriter)
    ensures
        final(transcript)@ == with_scalars(old(transcript)@, field::values(scalars@)),
{
    let ghost (t, vs) = (transcript@, field::values(scalars@));
    assert(vs.take(0) =~= Seq::empty());
    for i in 0..scalars.len()
        invariant
            vs == field::values(scalars@),
            transcript@ == with_scalars(t, vs.take(i as int)),
    {
        transcript.write_field_element(&scalars[i]);
        assert(vs.take(i + 1).drop_last() =~= vs.take(i as int));
        assert(vs.take(i + 1).last() == vs[i as int]);
    }
    assert(vs.take(vs.len() as int) =~= vs);
}

/// Reads `n` scalars.
pub(crate) fn read_scalars(n: usize, transcript: &mut ProofReader) -> (r: Result<Vec<Scalar>, Error>)
    ensures
        match next_scalars(n as nat, old(transcript)@) {
            Ok((vs, after)) => {
                &&& r matches Ok(v)
                &&& field::values(v@) == vs
                &&& v.len() == n
                &&& final(transcript)@ == after
            },
            Err(e) => {
                &&& r == Err::<Vec<Scalar>, Error>(e)
                &&& final(transcript)@ == after_scalars(n as nat, old(transcript)@)
            },
        },
{
    let ghost t = transcript@;
    let mut out: Vec<Scalar> = Vec::new();
    assert(field::values(out@) =~= Seq::empty());
    for i in 0..n
        invariant
            t == old(transcript)@,
            out.len() == i,
            next_scalars(i as nat, t) == Ok::<(Seq<int>, Transcript), Error>(
                (field::values(out@), transcript@),
            ),
    {
        let ghost before = field::values(out@);
        match transcript.read_field_element() {
            Err(e) => {
                proof {
                    assert(next_scalars((i + 1) as nat, t) == Err::<(Seq<int>, Transcript), Error>(
                        e,
                    ));
                    lemma_next_scalars_error((i + 1) as nat, n as nat, t);
                }
                return Err(e);
            },
            Ok(v) => {
                out.push(v);
                assert(field::values(out@) =~= before.push(v@));
            },
        }
    }
    Ok(out)
}

proof fn lemma_next_scalars_error(i: nat, n: nat, t: Transcript)
    requires
        i <= n,
        next_scalars(i, t) is Err,
    ensures
        next_scalars(n, t) is Err,
        next_scalars(n, t)->Err_0 == next_scalars(i, t)->Err_0,
        after_scalars(n, t) == after_scalars(i, t),
    decreases n - i,
{
    if i < n {
        lemma_next_scalars_error(i + 1, n, t);
    }
}

/// The first `n` scalars.
fn prefix(v: &Vec<Scalar>, n: usize) -> (r: Vec<Scalar>)
    requires
        n <= v.len(),
    ensures
        r@ == v@.take(n as int),
{
    let mut r: Vec<Scalar> = Vec::new();
    for i in 0..n
        invariant
            n <= v.len(),
            r@ == v@.take(i as int),
    {
        r.push(v[i]);
        assert(v@.take(i + 1) =~= v@.take(i as int).push(v@[i as int]));
    }
    r
}

} // verus!
