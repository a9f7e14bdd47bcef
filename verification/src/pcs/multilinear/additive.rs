//! Opening many polynomials at many points at once, for a scheme whose commitments can be
//! added up.
//!
//! The polynomials are weighed with `eq` of fresh challenges and gathered by their points.
//! A sum-check reduces the claims at all points to one claim about a single combination of
//! the polynomials.
use crate::error::{Error, Operation};
#[allow(unused_imports)]
use crate::pcs::multilinear::laws;
use crate::pcs::multilinear::mercury;
use crate::pcs::multilinear::mercury::Mercury;
use crate::pcs::multilinear::sum_check;
#[allow(unused_imports)]
use crate::pcs::multilinear::sum_check::{Checked, Proved};
#[allow(unused_imports)]
use crate::pcs::univariate;
use crate::pcs::univariate::{
    Evaluation, UnivariateKzg, UnivariateKzgProverParam, UnivariateKzgVerifierParam,
};
#[allow(unused_imports)]
use crate::poly::combine;
#[allow(unused_imports)]
use crate::poly::cube;
use crate::poly::multilinear;
use crate::poly::multilinear::MultilinearPolynomial;
#[allow(unused_imports)]
use crate::poly::zx;
#[allow(unused_imports)]
use crate::util::curve;
use crate::util::curve::G1Affine;
#[allow(unused_imports)]
use crate::util::field;
use crate::util::field::Scalar;
#[allow(unused_imports)]
use crate::util::transcript::Transcript;
use crate::util::transcript::{ProofReader, ProofWriter};
#[allow(unused_imports)]
use crate::util::zp;
#[allow(unused_imports)]
use vstd::arithmetic::power2::*;
use vstd::prelude::*;

verus! {

/// How many times `n` must be halved, rounding up, to get to one.
pub open spec fn log_size(n: nat) -> nat
    decreases n,
{
    if n <= 1 {
        0
    } else {
        1 + log_size((n - n / 2) as nat)
    }
}

proof fn lemma_log_size(n: nat)
    ensures
        n <= pow2(log_size(n)),
    decreases n,
{
    if n <= 1 {
        lemma2_to64();
    } else {
        let h = (n - n / 2) as nat;
        lemma_log_size(h);
        lemma_pow2_unfold(log_size(n));
    }
}

/// The next `n` challenges.
pub open spec fn squeezed(n: nat, t: Transcript) -> (Seq<int>, Transcript)
    decreases n,
{
    if n == 0 {
        (Seq::empty(), t)
    } else {
        let (cs, t1) = squeezed((n - 1) as nat, t);
        (cs.push(t1.challenge()), t1.squeezed())
    }
}

proof fn lemma_squeezed(n: nat, t: Transcript, all: Seq<u8>)
    ensures
        squeezed(n, t).0.len() == n,
        squeezed(n, t).1.proof == t.proof,
        squeezed(n, t.reading(all)) == (squeezed(n, t).0, squeezed(n, t).1.reading(all)),
    decreases n,
{
    if n > 0 {
        lemma_squeezed((n - 1) as nat, t, all);
    }
}

/// The product over all variables of `p x + (1 - p) (1 - x)`.
pub open spec fn eq_pair(p: Seq<int>, x: Seq<int>) -> int
    decreases p.len(),
{
    if p.len() == 0 || x.len() == 0 {
        1
    } else {
        (p[0] * x[0] + (1 - p[0]) * (1 - x[0])) * eq_pair(p.skip(1), x.skip(1))
    }
}

proof fn lemma_dot_spread(p: int, a: Seq<int>, x: int, b: Seq<int>)
    requires
        a.len() == b.len(),
    ensures
        zx::dot(cube::spread(p, a), cube::spread(x, b)) == (p * x + (1 - p) * (1 - x)) * zx::dot(
            a,
            b,
        ),
    decreases a.len(),
{
    let k = p * x + (1 - p) * (1 - x);
    let (s, r) = (cube::spread(p, a), cube::spread(x, b));
    if a.len() > 0 {
        let (a1, b1) = (a.skip(1), b.skip(1));
        lemma_dot_spread(p, a1, x, b1);
        assert(s.skip(1).skip(1) =~= cube::spread(p, a1));
        assert(r.skip(1).skip(1) =~= cube::spread(x, b1));
        let (u, v, d) = (a[0], b[0], zx::dot(a1, b1));
        assert(s[0] == (1 - p) * u && s.skip(1)[0] == p * u);
        assert(r[0] == (1 - x) * v && r.skip(1)[0] == x * v);
        assert(zx::dot(s.skip(1), r.skip(1)) == (p * u) * (x * v) + k * d);
        assert(zx::dot(s, r) == ((1 - p) * u) * ((1 - x) * v) + zx::dot(s.skip(1), r.skip(1)));
        assert(((1 - p) * u) * ((1 - x) * v) == ((1 - p) * (1 - x)) * (u * v))
            by (nonlinear_arith);
        assert((p * u) * (x * v) == (p * x) * (u * v)) by (nonlinear_arith);
        assert((p * x) * (u * v) + ((1 - p) * (1 - x)) * (u * v) == k * (u * v))
            by (nonlinear_arith)
            requires
                k == p * x + (1 - p) * (1 - x),
        ;
        assert(k * (u * v) + k * d == k * (u * v + d)) by (nonlinear_arith);
    } else {
        assert(k * 0 == 0);
    }
}

/// The value of `eq(X, p)` at `x`.
proof fn lemma_eq_pair(p: Seq<int>, x: Seq<int>)
    requires
        p.len() == x.len(),
    ensures
        zx::dot(cube::eq(p), cube::eq(x)) == eq_pair(p, x),
    decreases p.len(),
{
    if p.len() == 0 {
        let one = seq![1int];
        assert(zx::dot(one.skip(1), one.skip(1)) == 0);
        let v = one[0];
        assert(zx::dot(one, one) == v * v + zx::dot(one.skip(1), one.skip(1)));
        assert(v * v == 1) by (nonlinear_arith)
            requires
                v == 1,
        ;
    } else {
        cube::lemma_eq_len(p.skip(1));
        cube::lemma_eq_len(x.skip(1));
        lemma_eq_pair(p.skip(1), x.skip(1));
        lemma_dot_spread(p[0], cube::eq(p.skip(1)), x[0], cube::eq(x.skip(1)));
    }
}

/// The points that are asked for, one for each evaluation.
pub open spec fn places(pairs: Seq<(int, int)>) -> Seq<int> {
    Seq::new(pairs.len(), |k: int| pairs[k].1)
}

/// The polynomials that are asked for, one for each evaluation.
pub open spec fn tables(polys: Seq<Seq<int>>, pairs: Seq<(int, int)>) -> Seq<Seq<int>> {
    Seq::new(pairs.len(), |k: int| polys[pairs[k].0])
}

/// One weight for each evaluation, drawn from the transcript.
pub open spec fn weights(n: nat, t: Transcript) -> Seq<int> {
    zx::red(cube::eq(squeezed(log_size(n), t).0)).take(n as int)
}

/// For each point, the polynomials that are asked for there, weighed and added up.
pub open spec fn gathered(
    polys: Seq<Seq<int>>,
    num_points: nat,
    pairs: Seq<(int, int)>,
    w: Seq<int>,
    size: nat,
) -> Seq<Seq<int>> {
    Seq::new(
        num_points,
        |i: int|
            zx::red(
                combine::combination(
                    combine::masked(w, places(pairs), i),
                    tables(polys, pairs),
                    size,
                ),
            ),
    )
}

/// For each point, the values of `eq(X, point)` on the cube.
pub open spec fn eq_tables(points: Seq<Seq<int>>) -> Seq<Seq<int>> {
    Seq::new(points.len(), |i: int| zx::red(cube::eq(points[i])))
}

/// The sum-check that claims the evaluations.
pub open spec fn reduction(
    polys: Seq<Seq<int>>,
    points: Seq<Seq<int>>,
    pairs: Seq<(int, int)>,
    n: nat,
    t: Transcript,
) -> Proved {
    let w = weights(pairs.len(), t);
    sum_check::proved(
        n,
        combine::flat(eq_tables(points)),
        combine::flat(gathered(polys, points.len(), pairs, w, pow2(n))),
        squeezed(log_size(pairs.len()), t).1,
    )
}

/// The single polynomial that is opened in place of all.
pub open spec fn combined(
    polys: Seq<Seq<int>>,
    points: Seq<Seq<int>>,
    pairs: Seq<(int, int)>,
    n: nat,
    t: Transcript,
) -> Seq<int> {
    let w = weights(pairs.len(), t);
    zx::red(
        combine::combination(
            reduction(polys, points, pairs, n, t).e,
            gathered(polys, points.len(), pairs, w, pow2(n)),
            pow2(n),
        ),
    )
}

/// The factors of the commitments, one for each evaluation, when the sum-check has drawn
/// `challenges`.
pub open spec fn factors(
    points: Seq<Seq<int>>,
    pairs: Seq<(int, int)>,
    w: Seq<int>,
    challenges: Seq<int>,
) -> Seq<int> {
    Seq::new(
        pairs.len(),
        |k: int| zp::red(zp::red(eq_pair(points[pairs[k].1], challenges)) * w[k]),
    )
}

/// The commitments that are asked for, one for each evaluation.
pub open spec fn summands(comms: Seq<(int, int)>, pairs: Seq<(int, int)>) -> Seq<(int, int)> {
    Seq::new(pairs.len(), |k: int| comms[pairs[k].0])
}

/// What a verifier answers who is given the proof in `t` of the claimed `values`.
pub open spec fn verdict(
    key: univariate::VerifierKey,
    comms: Seq<(int, int)>,
    points: Seq<Seq<int>>,
    pairs: Seq<(int, int)>,
    values: Seq<int>,
    n: nat,
    t: Transcript,
) -> Result<(), Error> {
    let w = weights(pairs.len(), t);
    match sum_check::checked(
        n,
        zp::red(zx::dot(values, w)),
        squeezed(log_size(pairs.len()), t).1,
    ) {
        Err(e) => Err(e),
        Ok(c) => if c.consistent {
            mercury::verdict(
                key,
                curve::g1_combination(
                    factors(points, pairs, w, c.challenges),
                    summands(comms, pairs),
                ),
                c.challenges,
                c.value,
                c.transcript,
            )
        } else {
            Err(Error::InvalidSumcheck)
        },
    }
}

/// Where a verifier stands who has read the proof of `k` claimed `values`, or as much of it
/// as there is. The polynomial opening is read only after a consistent sum-check.
pub open spec fn after_batch(k: nat, values: Seq<int>, n: nat, t: Transcript) -> Transcript {
    let t1 = squeezed(log_size(k), t).1;
    match sum_check::checked(n, zp::red(zx::dot(values, weights(k, t))), t1) {
        Err(_) => sum_check::after_rounds(n, t1),
        Ok(c) => if c.consistent {
            mercury::after_proof(c.transcript)
        } else {
            sum_check::after_rounds(n, t1)
        },
    }
}

/// The polynomials are tables for `n` variables, the points have `n` coordinates, and each
/// evaluation is of one of the polynomials at one of the points.
pub open spec fn fits(
    polys: Seq<Seq<int>>,
    points: Seq<Seq<int>>,
    pairs: Seq<(int, int)>,
    n: nat,
) -> bool {
    &&& combine::all_of_len(polys, pow2(n))
    &&& combine::all_of_len(points, n)
    &&& forall|k: int|
        0 <= k < pairs.len() ==> 0 <= (#[trigger] pairs[k]).0 < polys.len() && 0 <= pairs[k].1
            < points.len()
}

proof fn lemma_dot_commutes(a: Seq<int>, b: Seq<int>)
    requires
        a.len() == b.len(),
    ensures
        zx::dot(a, b) == zx::dot(b, a),
    decreases a.len(),
{
    if a.len() > 0 {
        lemma_dot_commutes(a.skip(1), b.skip(1));
        vstd::arithmetic::mul::lemma_mul_is_commutative(a[0], b[0]);
    }
}

proof fn lemma_sum_same(a: Seq<int>, b: Seq<int>)
    requires
        zx::same(a, b),
    ensures
        zp::same(combine::sum(a), combine::sum(b)),
    decreases a.len(),
{
    if a.len() > 0 {
        let k = a.len() - 1;
        assert forall|i: int| 0 <= i < k implies zp::same(
            #[trigger] a.drop_last()[i],
            b.drop_last()[i],
        ) by {
            assert(zp::same(a[i], b[i]));
        }
        lemma_sum_same(a.drop_last(), b.drop_last());
        assert(zp::same(a[k], b[k]));
        zp::lemma_same_add(
            combine::sum(a.drop_last()),
            combine::sum(b.drop_last()),
            a.last(),
            b.last(),
        );
    }
}

/// The tables of a reduction have the length of a table.
proof fn lemma_lengths(
    polys: Seq<Seq<int>>,
    points: Seq<Seq<int>>,
    pairs: Seq<(int, int)>,
    n: nat,
    w: Seq<int>,
)
    requires
        fits(polys, points, pairs, n),
    ensures
        combine::all_of_len(tables(polys, pairs), pow2(n)),
        combine::all_of_len(gathered(polys, points.len(), pairs, w, pow2(n)), pow2(n)),
        combine::all_of_len(eq_tables(points), pow2(n)),
        sum_check::shaped(
            n,
            combine::flat(eq_tables(points)),
            combine::flat(gathered(polys, points.len(), pairs, w, pow2(n))),
        ),
{
    let (e, m) = (eq_tables(points), gathered(polys, points.len(), pairs, w, pow2(n)));
    let ts = tables(polys, pairs);
    assert forall|k: int| 0 <= k < ts.len() implies (#[trigger] ts[k]).len() == pow2(n) by {
        let pair = pairs[k];
        assert(polys[pair.0].len() == pow2(n));
    }
    assert forall|i: int| 0 <= i < e.len() implies (#[trigger] e[i]).len() == pow2(n) by {
        assert(points[i].len() == n);
        cube::lemma_eq_len(points[i]);
    }
    combine::lemma_flat_len(e, pow2(n));
    combine::lemma_flat_len(m, pow2(n));
    lemma_pow2_pos(n);
    vstd::arithmetic::div_mod::lemma_mod_multiples_basic(points.len() as int, pow2(n) as int);
}

/// The sum-check is about the weighed sum of the values.
proof fn lemma_claim(
    polys: Seq<Seq<int>>,
    points: Seq<Seq<int>>,
    pairs: Seq<(int, int)>,
    n: nat,
    w: Seq<int>,
    values: Seq<int>,
)
    requires
        fits(polys, points, pairs, n),
        w.len() == pairs.len(),
        values.len() == pairs.len(),
        forall|k: int|
            0 <= k < pairs.len() ==> values[k] == laws::multilinear_value(
                polys[(#[trigger] pairs[k]).0],
                points[pairs[k].1],
            ),
    ensures
        zp::red(zx::dot(values, w)) == zp::red(
            zx::dot(
                combine::flat(eq_tables(points)),
                combine::flat(gathered(polys, points.len(), pairs, w, pow2(n))),
            ),
        ),
{
    let size = pow2(n);
    let (e, m) = (eq_tables(points), gathered(polys, points.len(), pairs, w, size));
    let (ts, at) = (tables(polys, pairs), places(pairs));
    let v = |i: int, k: int| zx::dot(ts[k], cube::eq(points[i]));
    let ones = Seq::new(points.len(), |i: int| 1int);
    lemma_lengths(polys, points, pairs, n, w);
    combine::lemma_dot_flat(e, m, size);
    let by_point = Seq::new(points.len(), |i: int| zx::dot(e[i], m[i]));
    let exact = Seq::new(
        points.len(),
        |i: int|
            ones[i] * zx::dot(combine::masked(w, at, i), Seq::new(w.len(), |k: int| v(i, k))),
    );
    assert forall|i: int| 0 <= i < points.len() implies zp::same(
        #[trigger] by_point[i],
        exact[i],
    ) by {
        let (q, c) = (cube::eq(points[i]), combine::masked(w, at, i));
        let g = combine::combination(c, ts, size);
        assert(points[i].len() == n);
        cube::lemma_eq_len(points[i]);
        zx::lemma_red_same(q);
        zx::lemma_red_same(g);
        zx::lemma_dot_same(zx::red(q), q, zx::red(g), g);
        lemma_dot_commutes(q, g);
        combine::lemma_dot_combination(c, ts, size, q);
        assert(Seq::new(ts.len(), |k: int| zx::dot(ts[k], q)) =~= Seq::new(
            w.len(),
            |k: int| v(i, k),
        ));
        let d = zx::dot(c, Seq::new(w.len(), |k: int| v(i, k)));
        assert(1 * d == d);
    }
    lemma_sum_same(by_point, exact);
    assert forall|k: int| 0 <= k < at.len() implies 0 <= #[trigger] at[k] < ones.len() by {
        let pair = pairs[k];
    }
    combine::lemma_masked(ones, w, at, v);
    let there = Seq::new(w.len(), |k: int| ones[at[k]] * v(at[k], k));
    assert forall|k: int| 0 <= k < w.len() implies zp::same(#[trigger] there[k], values[k]) by {
        let pair = pairs[k];
        let x = zx::dot(polys[pair.0], cube::eq(points[pair.1]));
        assert(there[k] == 1 * x);
        zp::lemma_red(x);
    }
    assert(zx::same(w, w));
    zx::lemma_dot_same(w, w, there, values);
    lemma_dot_commutes(w, values);
}

/// The sum-check leaves the value of the combination at the challenges.
proof fn lemma_combined_value(
    polys: Seq<Seq<int>>,
    points: Seq<Seq<int>>,
    pairs: Seq<(int, int)>,
    n: nat,
    t: Transcript,
)
    requires
        fits(polys, points, pairs, n),
    ensures
        ({
            let p = reduction(polys, points, pairs, n, t);
            &&& p.challenges.len() == n
            &&& p.e.len() == points.len()
            &&& forall|i: int|
                0 <= i < points.len() ==> zp::same(
                    #[trigger] p.e[i],
                    eq_pair(points[i], p.challenges),
                )
            &&& laws::multilinear_value(combined(polys, points, pairs, n, t), p.challenges)
                == zp::red(zx::dot(p.e, p.m))
        }),
{
    let size = pow2(n);
    let w = weights(pairs.len(), t);
    let (e, m) = (eq_tables(points), gathered(polys, points.len(), pairs, w, size));
    let (fe, fm) = (combine::flat(e), combine::flat(m));
    let p = reduction(polys, points, pairs, n, t);
    let ch = p.challenges;
    let q = cube::eq(ch);
    lemma_lengths(polys, points, pairs, n, w);
    sum_check::law_proved_tables(n, fe, fm, squeezed(log_size(pairs.len()), t).1);
    cube::lemma_eq_len(ch);
    combine::lemma_flat_len(e, size);
    combine::lemma_flat_len(m, size);
    lemma_pow2_pos(n);
    zx::lemma_blocks(fe.len() as int, size as int, points.len() as int);
    cube::lemma_fold_rows(fe, ch, points.len() as int);
    cube::lemma_fold_rows(fm, ch, points.len() as int);
    let rows = Seq::new(points.len(), |i: int| zx::dot(m[i], q));
    assert forall|i: int| 0 <= i < points.len() implies rows[i] == zx::by_rows(
        fm,
        size as int,
        q,
    )[i] by {
        combine::lemma_flat_row(m, size, i);
    }
    assert(rows =~= zx::by_rows(fm, size as int, q));
    assert forall|i: int| 0 <= i < points.len() implies zp::same(
        #[trigger] p.e[i],
        eq_pair(points[i], ch),
    ) by {
        combine::lemma_flat_row(e, size, i);
        assert(points[i].len() == n);
        lemma_eq_pair(points[i], ch);
        let x = cube::eq(points[i]);
        zx::lemma_red_same(x);
        assert(zx::same(q, q));
        zx::lemma_dot_same(zx::red(x), x, q, q);
        assert(zp::same(p.e[i], zx::by_rows(fe, size as int, q)[i]));
    }
    let g = combine::combination(p.e, m, size);
    combine::lemma_dot_combination(p.e, m, size, q);
    zx::lemma_red_same(g);
    assert(zx::same(q, q));
    zx::lemma_dot_same(zx::red(g), g, q, q);
    assert(zx::same(p.e, p.e));
    zx::lemma_dot_same(p.e, p.e, p.m, rows);
}

/// The commitment to the combination is the combination of the commitments.
proof fn lemma_combined_commitment(
    polys: Seq<Seq<int>>,
    points: Seq<Seq<int>>,
    pairs: Seq<(int, int)>,
    n: nat,
    t: Transcript,
    s: int,
)
    requires
        fits(polys, points, pairs, n),
        weights(pairs.len(), t).len() == pairs.len(),
    ensures
        ({
            let w = weights(pairs.len(), t);
            let p = reduction(polys, points, pairs, n, t);
            zp::same(
                zx::eval(combined(polys, points, pairs, n, t), s),
                zx::dot(
                    factors(points, pairs, w, p.challenges),
                    Seq::new(pairs.len(), |k: int| zx::eval(polys[pairs[k].0], s)),
                ),
            )
        }),
{
    let size = pow2(n);
    let w = weights(pairs.len(), t);
    let m = gathered(polys, points.len(), pairs, w, size);
    let p = reduction(polys, points, pairs, n, t);
    let (ts, at) = (tables(polys, pairs), places(pairs));
    let logs = Seq::new(pairs.len(), |k: int| zx::eval(polys[pairs[k].0], s));
    let v = |i: int, k: int| logs[k];
    lemma_lengths(polys, points, pairs, n, w);
    lemma_combined_value(polys, points, pairs, n, t);
    let g = combine::combination(p.e, m, size);
    zx::lemma_red_same(g);
    zx::lemma_eval_same(zx::red(g), g, s, s);
    combine::lemma_eval_combination(p.e, m, size, s);
    let evals = Seq::new(m.len(), |i: int| zx::eval(m[i], s));
    let exact = Seq::new(
        m.len(),
        |i: int| zx::dot(combine::masked(w, at, i), Seq::new(w.len(), |k: int| v(i, k))),
    );
    assert forall|i: int| 0 <= i < m.len() implies zp::same(#[trigger] evals[i], exact[i]) by {
        let c = combine::masked(w, at, i);
        let h = combine::combination(c, ts, size);
        combine::lemma_eval_combination(c, ts, size, s);
        assert(Seq::new(ts.len(), |k: int| zx::eval(ts[k], s)) =~= Seq::new(
            w.len(),
            |k: int| v(i, k),
        ));
        zx::lemma_red_same(h);
        zx::lemma_eval_same(zx::red(h), h, s, s);
    }
    assert(zx::same(p.e, p.e));
    zx::lemma_dot_same(p.e, p.e, evals, exact);
    combine::lemma_dot_sum(p.e, exact);
    assert forall|k: int| 0 <= k < at.len() implies 0 <= #[trigger] at[k] < p.e.len() by {
        let pair = pairs[k];
    }
    combine::lemma_masked(p.e, w, at, v);
    assert(Seq::new(p.e.len(), |i: int| p.e[i] * exact[i]) =~= Seq::new(
        p.e.len(),
        |i: int|
            p.e[i] * zx::dot(combine::masked(w, at, i), Seq::new(w.len(), |k: int| v(i, k))),
    ));
    let there = Seq::new(w.len(), |k: int| p.e[at[k]] * v(at[k], k));
    let f = factors(points, pairs, w, p.challenges);
    combine::lemma_dot_sum(w, there);
    combine::lemma_dot_sum(f, logs);
    let left = Seq::new(w.len(), |k: int| w[k] * there[k]);
    let right = Seq::new(f.len(), |k: int| f[k] * logs[k]);
    assert forall|k: int| 0 <= k < w.len() implies zp::same(#[trigger] left[k], right[k]) by {
        let pair = pairs[k];
        let (a, b, c, d) = (w[k], p.e[pair.1], logs[k], eq_pair(points[pair.1], p.challenges));
        assert(zp::same(p.e[pair.1], d));
        assert(a * (b * c) == (b * a) * c) by (nonlinear_arith);
        zp::lemma_red(d);
        zp::lemma_same_mul(zp::red(d), b, a, a);
        zp::lemma_red(zp::red(d) * a);
        zp::lemma_same_mul(f[k], b * a, c, c);
    }
    lemma_sum_same(left, right);
}

/// `reader` is where a verifier stands who is given the commitments `comms` to `polys`, the
/// values of the evaluations and what a prover wrote who opened them all, with the
/// parameters `bases` and `key` belonging to one secret. Each commitment is the multiple of
/// the generator by the value of its polynomial at the secret.
pub open spec fn was_opened(
    bases: Seq<(int, int)>,
    key: univariate::VerifierKey,
    polys: Seq<Seq<int>>,
    comms: Seq<(int, int)>,
    points: Seq<Seq<int>>,
    pairs: Seq<(int, int)>,
    values: Seq<int>,
    n: nat,
    t: Transcript,
    all: Seq<u8>,
    reader: Transcript,
) -> bool {
    let f = combined(polys, points, pairs, n, t);
    let p = reduction(polys, points, pairs, n, t);
    let o = mercury::opening(bases, f, p.challenges, p.transcript);
    &&& n > 0
    &&& fits(polys, points, pairs, n)
    &&& values.len() == pairs.len()
    &&& forall|k: int|
        0 <= k < pairs.len() ==> values[k] == laws::multilinear_value(
            polys[(#[trigger] pairs[k]).0],
            points[pairs[k].1],
        )
    &&& exists|s: int| #[trigger]
        univariate::powers_of(bases, s) && key.of(s) && commit_to(comms, polys, s)
    &&& o.zeta != 0
    &&& mercury::opening_committed(bases, f, p.challenges, o)
    &&& mercury::opened(bases, f, p.challenges, p.transcript).written_in(all)
    &&& reader == t.reading(all)
}

/// The commitments are the multiples of the generator by the values of the polynomials at
/// the secret.
pub open spec fn commit_to(comms: Seq<(int, int)>, polys: Seq<Seq<int>>, s: int) -> bool {
    comms.len() == polys.len() && forall|j: int|
        0 <= j < polys.len() ==> #[trigger] comms[j] == curve::g1(zx::eval(polys[j], s))
}

/// Completeness of the reduction: a verifier who reads a batch opening finds a consistent
/// sum-check, and is left with a claim about the combination that was opened.
pub proof fn law_reduction(
    polys: Seq<Seq<int>>,
    points: Seq<Seq<int>>,
    pairs: Seq<(int, int)>,
    values: Seq<int>,
    n: nat,
    t: Transcript,
    all: Seq<u8>,
)
    requires
        fits(polys, points, pairs, n),
        values.len() == pairs.len(),
        forall|k: int|
            0 <= k < pairs.len() ==> values[k] == laws::multilinear_value(
                polys[(#[trigger] pairs[k]).0],
                points[pairs[k].1],
            ),
        reduction(polys, points, pairs, n, t).transcript.written_in(all),
    ensures
        ({
            let p = reduction(polys, points, pairs, n, t);
            let f = combined(polys, points, pairs, n, t);
            let w = weights(pairs.len(), t.reading(all));
            &&& w == weights(pairs.len(), t)
            &&& w.len() == pairs.len()
            &&& sum_check::checked(
                n,
                zp::red(zx::dot(values, w)),
                squeezed(log_size(pairs.len()), t.reading(all)).1,
            ) == Ok::<Checked, Error>(
                Checked {
                    challenges: p.challenges,
                    value: laws::multilinear_value(f, p.challenges),
                    consistent: true,
                    transcript: p.transcript.reading(all),
                },
            )
        }),
{
    let ell = log_size(pairs.len());
    let (ts, t1) = squeezed(ell, t);
    let w = weights(pairs.len(), t);
    lemma_squeezed(ell, t, all);
    lemma_log_size(pairs.len());
    cube::lemma_eq_len(ts);
    lemma_lengths(polys, points, pairs, n, w);
    lemma_claim(polys, points, pairs, n, w, values);
    lemma_combined_value(polys, points, pairs, n, t);
    sum_check::law_sum_check(
        n,
        combine::flat(eq_tables(points)),
        combine::flat(gathered(polys, points.len(), pairs, w, pow2(n))),
        t1,
        all,
    );
}

/// The challenges are drawn one after the other.
pub proof fn law_squeezed(n: nat, t: Transcript, i: nat)
    requires
        i < n,
    ensures
        squeezed(n, t).0.len() == n,
        squeezed(n, t).0[i as int] == squeezed(i, t).1.challenge(),
        squeezed(0, t).1 == t,
        squeezed(i + 1, t).1 == squeezed(i, t).1.squeezed(),
    decreases n,
{
    lemma_squeezed(n, t, Seq::empty());
    lemma_squeezed((n - 1) as nat, t, Seq::empty());
    if i < n - 1 {
        law_squeezed((n - 1) as nat, t, i);
    }
}

proof fn lemma_log_size_least(n: nat)
    requires
        n > 1,
    ensures
        log_size(n) > 0,
        pow2((log_size(n) - 1) as nat) < n,
    decreases n,
{
    let h = (n - n / 2) as nat;
    if h > 1 {
        lemma_log_size_least(h);
        lemma_pow2_unfold(log_size(h));
    } else {
        lemma2_to64();
        assert(log_size(h) == 0);
    }
}

/// The weight of evaluation `k` is the product over the bits of `k` of a challenge or one less
/// it. There are just as many challenges as it takes to tell the evaluations apart.
pub proof fn law_weights(n: nat, t: Transcript, k: int)
    requires
        0 <= k < n,
    ensures
        weights(n, t).len() == n,
        n <= pow2(log_size(n)),
        n > 1 ==> log_size(n) > 0 && pow2((log_size(n) - 1) as nat) < n,
        weights(n, t)[k] == zp::red(
            cube::bit_product(squeezed(log_size(n), t).0, k, log_size(n)),
        ),
{
    let c = squeezed(log_size(n), t).0;
    lemma_squeezed(log_size(n), t, Seq::empty());
    lemma_log_size(n);
    if n > 1 {
        lemma_log_size_least(n);
    }
    cube::law_eq_entry(c, k);
}

/// The differences of two lists of values, as a table for `n` variables.
spec fn differences(a: Seq<int>, b: Seq<int>, n: nat) -> Seq<int> {
    Seq::new(pow2(n), |k: int| if k < a.len() { a[k] - b[k] } else { 0 })
}

/// Lists of values whose weighed sums agree differ by a table that vanishes at the challenges.
proof fn lemma_weighed_differences(a: Seq<int>, b: Seq<int>, t: Transcript)
    requires
        a.len() == b.len(),
        zp::same(
            zx::dot(a, weights(a.len(), t)),
            zx::dot(b, weights(a.len(), t)),
        ),
    ensures
        laws::multilinear_value(
            differences(a, b, log_size(a.len())),
            squeezed(log_size(a.len()), t).0,
        ) == 0,
{
    let n = a.len();
    let c = squeezed(log_size(n), t).0;
    let e = cube::eq(c);
    lemma_squeezed(log_size(n), t, Seq::empty());
    lemma_log_size(n);
    cube::lemma_eq_len(c);
    let (head, tail) = (e.take(n as int), e.skip(n as int));
    let w = weights(n, t);
    let d = zx::axpy(a, -1, b);
    let zeros = Seq::new(tail.len(), |i: int| 0int);
    let full = differences(a, b, log_size(n));
    assert(full =~= d + zeros);
    assert(e =~= head + tail);
    zx::lemma_dot_concat(d, zeros, head, tail);
    zx::lemma_dot_zeros(tail.len(), tail);
    assert(zx::dot(full, e) == zx::dot(d, head));
    zx::lemma_red_same(e);
    assert forall|i: int| 0 <= i < n implies zp::same(#[trigger] head[i], w[i]) by {
        assert(zp::same(e[i], zx::red(e)[i]));
    }
    assert(zx::same(d, d));
    zx::lemma_dot_same(d, d, head, w);
    zx::lemma_dot_axpy(a, -1, b, w);
    let (x, y) = (zx::dot(a, w), zx::dot(b, w));
    assert(-1 * y == -y);
    zp::lemma_same_sub(x, y, y, y);
    zp::lemma_modulus();
    zp::lemma_red(0);
}

/// No wrong values: a batch proof of polynomials is accepted for claimed values that differ
/// from those of the polynomials only if the challenges that were drawn for the weights are a
/// root of the multilinear polynomial with the differences as its table.
pub proof fn law_wrong_values(
    key: univariate::VerifierKey,
    comms: Seq<(int, int)>,
    polys: Seq<Seq<int>>,
    points: Seq<Seq<int>>,
    pairs: Seq<(int, int)>,
    values: Seq<int>,
    claimed: Seq<int>,
    n: nat,
    t: Transcript,
    all: Seq<u8>,
)
    requires
        n > 0,
        combine::all_of_len(polys, pow2(n)),
        combine::all_of_len(points, n),
        forall|k: int|
            0 <= k < pairs.len() ==> 0 <= (#[trigger] pairs[k]).0 < polys.len() && 0 <= pairs[k].1
                < points.len(),
        values.len() == pairs.len(),
        claimed.len() == pairs.len(),
        forall|k: int|
            0 <= k < pairs.len() ==> values[k] == laws::multilinear_value(
                polys[(#[trigger] pairs[k]).0],
                points[pairs[k].1],
            ),
        reduction(polys, points, pairs, n, t).transcript.written_in(all),
        verdict(key, comms, points, pairs, claimed, n, t.reading(all)) is Ok,
    ensures
        zp::red(
            zx::dot(
                Seq::new(
                    pow2(log_size(pairs.len())),
                    |k: int| if k < pairs.len() { claimed[k] - values[k] } else { 0 },
                ),
                cube::eq(squeezed(log_size(pairs.len()), t).0),
            ),
        ) == 0,
{
    law_reduction(polys, points, pairs, values, n, t, all);
    let w = weights(pairs.len(), t);
    let t1 = squeezed(log_size(pairs.len()), t.reading(all)).1;
    let (x, y) = (zx::dot(claimed, w), zx::dot(values, w));
    sum_check::law_one_value(n, zp::red(x), zp::red(y), t1);
    lemma_weighed_differences(claimed, values, t);
    assert(differences(claimed, values, log_size(pairs.len())) =~= Seq::new(
        pow2(log_size(pairs.len())),
        |k: int| if k < pairs.len() { claimed[k] - values[k] } else { 0 },
    ));
}

/// What it takes for a batch proof to be accepted: a consistent sum-check of the weighed sum
/// of all claimed values, and an opening of the combination of all commitments, each weighed
/// with its weight and with `eq` of its point at the challenges of the sum-check, to what the
/// sum-check is left with.
pub proof fn law_accepted_batch(
    key: univariate::VerifierKey,
    comms: Seq<(int, int)>,
    points: Seq<Seq<int>>,
    pairs: Seq<(int, int)>,
    values: Seq<int>,
    n: nat,
    t: Transcript,
)
    ensures
        ({
            let w = weights(pairs.len(), t);
            let t1 = squeezed(log_size(pairs.len()), t).1;
            let answer = verdict(key, comms, points, pairs, values, n, t);
            match sum_check::checked(n, zp::red(zx::dot(values, w)), t1) {
                Err(e) => answer == Err::<(), Error>(e),
                Ok(c) => {
                    let factors = Seq::new(
                        pairs.len(),
                        |k: int|
                            zp::red(
                                zp::red(eq_pair(points[pairs[k].1], c.challenges)) * w[k],
                            ),
                    );
                    let asked = Seq::new(pairs.len(), |k: int| comms[pairs[k].0]);
                    &&& !c.consistent ==> answer == Err::<(), Error>(Error::InvalidSumcheck)
                    &&& c.consistent ==> answer == mercury::verdict(
                        key,
                        curve::g1_combination(factors, asked),
                        c.challenges,
                        c.value,
                        c.transcript,
                    )
                },
            }
        }),
{
    let w = weights(pairs.len(), t);
    let t1 = squeezed(log_size(pairs.len()), t).1;
    if let Ok(c) = sum_check::checked(n, zp::red(zx::dot(values, w)), t1) {
        assert(factors(points, pairs, w, c.challenges) =~= Seq::new(
            pairs.len(),
            |k: int| zp::red(zp::red(eq_pair(points[pairs[k].1], c.challenges)) * w[k]),
        ));
        assert(summands(comms, pairs) =~= Seq::new(pairs.len(), |k: int| comms[pairs[k].0]));
    }
}

/// `eq` of two points is the value at the one of the multilinear polynomial that is `eq` of
/// the other on the cube.
pub proof fn law_eq_pair(p: Seq<int>, x: Seq<int>)
    requires
        p.len() == x.len(),
    ensures
        zx::dot(cube::eq(p), cube::eq(x)) == eq_pair(p, x),
{
    lemma_eq_pair(p, x);
}

/// What is opened in place of all polynomials: at the challenges of the sum-check, the sum of
/// all polynomials that are asked for, each weighed as the verifier weighs its commitment.
pub proof fn law_combination(
    polys: Seq<Seq<int>>,
    points: Seq<Seq<int>>,
    pairs: Seq<(int, int)>,
    n: nat,
    t: Transcript,
    s: int,
)
    requires
        fits(polys, points, pairs, n),
    ensures
        ({
            let w = weights(pairs.len(), t);
            let c = reduction(polys, points, pairs, n, t).challenges;
            zp::same(
                zx::eval(combined(polys, points, pairs, n, t), s),
                zx::dot(
                    Seq::new(
                        pairs.len(),
                        |k: int| zp::red(zp::red(eq_pair(points[pairs[k].1], c)) * w[k]),
                    ),
                    Seq::new(pairs.len(), |k: int| zx::eval(polys[pairs[k].0], s)),
                ),
            )
        }),
{
    let ell = log_size(pairs.len());
    let c = reduction(polys, points, pairs, n, t).challenges;
    let w = weights(pairs.len(), t);
    lemma_squeezed(ell, t, Seq::empty());
    lemma_log_size(pairs.len());
    cube::lemma_eq_len(squeezed(ell, t).0);
    lemma_combined_commitment(polys, points, pairs, n, t, s);
    assert(factors(points, pairs, w, c) =~= Seq::new(
        pairs.len(),
        |k: int| zp::red(zp::red(eq_pair(points[pairs[k].1], c)) * w[k]),
    ));
}

/// The coordinates of points.
pub open spec fn coordinates(points: Seq<Vec<Scalar>>) -> Seq<Seq<int>> {
    Seq::new(points.len(), |i: int| field::values(points[i]@))
}

/// The tables of polynomials.
pub open spec fn values_of(polys: Seq<MultilinearPolynomial>) -> Seq<Seq<int>> {
    Seq::new(polys.len(), |i: int| polys[i]@)
}

/// How many variables a table is for.
pub open spec fn num_vars_of(len: nat) -> nat {
    if len == 0 {
        0
    } else {
        choose|k: nat| len == #[trigger] pow2(k)
    }
}

/// What is wrong with a table that is not for `n` variables.
pub open spec fn poly_error(len: nat, n: nat, operation: Operation) -> Error {
    if num_vars_of(len) > n {
        Error::TooManyVariates { operation, upto: n as usize, got: num_vars_of(len) as usize }
    } else {
        Error::InvalidPointLength { expected: num_vars_of(len) as usize, got: n as usize }
    }
}

/// `e` is what is wrong with the first polynomial that is not for `n` variables or, if
/// there is none, with the first point that has not `n` coordinates.
pub open spec fn rejected(
    polys: Seq<Seq<int>>,
    points: Seq<Seq<int>>,
    n: nat,
    operation: Operation,
    e: Error,
) -> bool {
    ||| exists|i: int|
        #![trigger polys[i]]
        0 <= i < polys.len() && polys[i].len() != pow2(n) && combine::all_of_len(
            polys.take(i),
            pow2(n),
        ) && e == poly_error(polys[i].len(), n, operation)
    ||| combine::all_of_len(polys, pow2(n)) && exists|i: int|
        #![trigger points[i]]
        0 <= i < points.len() && points[i].len() != n && combine::all_of_len(points.take(i), n)
            && e == (Error::InvalidPointLength {
            expected: n as usize,
            got: points[i].len() as usize,
        })
}

proof fn lemma_num_vars(k: nat)
    ensures
        num_vars_of(pow2(k)) == k,
{
    lemma_pow2_pos(k);
    let j = num_vars_of(pow2(k));
    assert(pow2(k) == pow2(j));
    if j < k {
        lemma_pow2_strictly_increases(j, k);
    } else if k < j {
        lemma_pow2_strictly_increases(k, j);
    }
}

/// A table for `k` variables is refused where one for `n` is asked for, by the side on which
/// the variables are too many.
pub proof fn law_poly_error(k: nat, n: nat, operation: Operation)
    ensures
        poly_error(pow2(k), n, operation) == (if k > n {
            Error::TooManyVariates { operation, upto: n as usize, got: k as usize }
        } else {
            Error::InvalidPointLength { expected: k as usize, got: n as usize }
        }),
{
    lemma_num_vars(k);
}

/// Checks that all points have `n` coordinates.
fn validate_points(points: &Vec<Vec<Scalar>>, n: usize, operation: Operation) -> (r: Result<
    (),
    Error,
>)
    ensures
        r is Ok <==> combine::all_of_len(coordinates(points@), n as nat),
        r matches Err(e) ==> rejected(
            Seq::empty(),
            coordinates(points@),
            n as nat,
            operation,
            e,
        ),
{
    let ghost cs = coordinates(points@);
    for i in 0..points.len()
        invariant
            cs == coordinates(points@),
            combine::all_of_len(cs.take(i as int), n as nat),
    {
        let len: usize = points[i].len();
        proof {
            assert(cs[i as int].len() == len);
        }
        if len != n {
            let e = Error::InvalidPointLength { expected: n, got: len };
            proof {
                assert(combine::all_of_len(Seq::<Seq<int>>::empty(), pow2(n as nat)));
                let bad = cs[i as int];
                assert(rejected(Seq::empty(), cs, n as nat, operation, e));
            }
            return Err(e);
        }
        assert forall|j: int| 0 <= j < i + 1 implies (#[trigger] cs.take(i + 1)[j]).len()
            == n by {
            if j < i {
                assert(cs.take(i as int)[j].len() == n);
            }
        }
    }
    assert(cs.take(points.len() as int) =~= cs);
    Ok(())
}

/// Checks that all polynomials are for `n` variables and all points have `n` coordinates.
fn validate_input(
    polys: &Vec<MultilinearPolynomial>,
    points: &Vec<Vec<Scalar>>,
    n: usize,
    operation: Operation,
) -> (r: Result<(), Error>)
    ensures
        r is Ok <==> combine::all_of_len(values_of(polys@), pow2(n as nat))
            && combine::all_of_len(coordinates(points@), n as nat),
        r matches Err(e) ==> rejected(
            values_of(polys@),
            coordinates(points@),
            n as nat,
            operation,
            e,
        ),
        r is Ok && polys.len() > 0 ==> pow2(n as nat) <= usize::MAX,
{
    let ghost (vs, size) = (values_of(polys@), pow2(n as nat));
    for i in 0..polys.len()
        invariant
            vs == values_of(polys@),
            size == pow2(n as nat),
            combine::all_of_len(vs.take(i as int), size),
            i > 0 ==> size <= usize::MAX,
    {
        let k = polys[i].num_vars();
        let empty = polys[i].evals().len() == 0;
        let ghost len = vs[i as int].len();
        proof {
            assert(vs[i as int] == polys@[i as int]@);
            lemma_num_vars(k as nat);
            lemma_num_vars(n as nat);
            lemma_pow2_pos(n as nat);
        }
        if k != n || empty {
            let e = if k > n {
                Error::TooManyVariates { operation, upto: n, got: k }
            } else {
                Error::InvalidPointLength { expected: k, got: n }
            };
            proof {
                let bad = vs[i as int];
                assert(e == poly_error(len, n as nat, operation));
                assert(vs.len() > i && bad.len() != size);
            }
            return Err(e);
        }
        assert forall|j: int| 0 <= j < i + 1 implies (#[trigger] vs.take(i + 1)[j]).len()
            == size by {
            if j < i {
                assert(vs.take(i as int)[j].len() == size);
            }
        }
    }
    assert(vs.take(polys.len() as int) =~= vs);
    match validate_points(points, n, operation) {
        Ok(_) => Ok(()),
        Err(e) => {
            proof {
                let cs = coordinates(points@);
                let i = choose|i: int|
                    #![trigger cs[i]]
                    0 <= i < cs.len() && cs[i].len() != n && combine::all_of_len(
                        cs.take(i),
                        n as nat,
                    ) && e == (Error::InvalidPointLength {
                        expected: n,
                        got: cs[i].len() as usize,
                    });
                let bad = cs[i];
            }
            Err(e)
        },
    }
}

/// How many times `n` must be halved, rounding up, to get to one.
fn log_of(n: usize) -> (r: usize)
    ensures
        r == log_size(n as nat),
{
    let mut m: usize = n;
    let mut r: usize = 0;
    while m > 1
        invariant
            r + log_size(m as nat) == log_size(n as nat),
            r + m <= n || r == 0 && m == n,
        decreases m,
    {
        m = m - m / 2;
        r = r + 1;
    }
    r
}

/// `acc + c * f`, entry by entry.
fn add_scaled(acc: &Vec<Scalar>, c: &Scalar, f: &Vec<Scalar>) -> (r: Vec<Scalar>)
    requires
        acc.len() == f.len(),
    ensures
        field::values(r@) == zx::red(
            zx::axpy(field::values(acc@), c@, field::values(f@)),
        ),
{
    let ghost target = zx::axpy(field::values(acc@), c@, field::values(f@));
    let mut r: Vec<Scalar> = Vec::new();
    for i in 0..acc.len()
        invariant
            acc.len() == f.len(),
            target == zx::axpy(field::values(acc@), c@, field::values(f@)),
            r.len() == i,
            forall|j: int| 0 <= j < i ==> (#[trigger] r@[j])@ == zp::red(target[j]),
    {
        r.push(c.mul_add(&f[i], &acc[i]));
    }
    assert(field::values(r@) =~= zx::red(target));
    r
}

/// One more table in a combination.
proof fn lemma_combination_push(c: Seq<int>, ts: Seq<Seq<int>>, n: nat, k: int)
    requires
        c.len() == ts.len(),
        0 <= k < c.len(),
        combine::all_of_len(ts, n),
    ensures
        zx::red(
            zx::axpy(zx::red(combine::combination(c.take(k), ts.take(k), n)), c[k], ts[k]),
        ) == zx::red(combine::combination(c.take(k + 1), ts.take(k + 1), n)),
        c[k] == 0 ==> zx::red(combine::combination(c.take(k), ts.take(k), n)) == zx::red(
            combine::combination(c.take(k + 1), ts.take(k + 1), n),
        ),
{
    let (before, after) = (
        combine::combination(c.take(k), ts.take(k), n),
        combine::combination(c.take(k + 1), ts.take(k + 1), n),
    );
    assert(ts[k].len() == n);
    assert forall|x: int| 0 <= x < n implies {
        &&& #[trigger] after[x] == before[x] + c[k] * ts[k][x]
        &&& zp::same(zp::red(before[x]) + c[k] * ts[k][x], after[x])
    } by {
        let a = Seq::new(ts.take(k).len(), |j: int| ts.take(k)[j][x]);
        let b = Seq::new(ts.take(k + 1).len(), |j: int| ts.take(k + 1)[j][x]);
        let (v, w) = (seq![c[k]], seq![ts[k][x]]);
        assert(c.take(k + 1) =~= c.take(k) + v);
        assert(b =~= a + w);
        zx::lemma_dot_concat(c.take(k), v, a, w);
        assert(zx::dot(v.skip(1), w.skip(1)) == 0);
        zp::lemma_red(before[x]);
        zp::lemma_same_add(
            zp::red(before[x]),
            before[x],
            c[k] * ts[k][x],
            c[k] * ts[k][x],
        );
    }
    assert(zx::red(zx::axpy(zx::red(before), c[k], ts[k])) =~= zx::red(after));
    if c[k] == 0 {
        assert forall|x: int| 0 <= x < n implies before[x] == #[trigger] after[x] by {
            assert(0 * ts[k][x] == 0);
        }
        assert(before =~= after);
    }
}

/// A table of zeros.
fn zeros(size: usize) -> (r: Vec<Scalar>)
    ensures
        field::values(r@) == zx::red(
            combine::combination(Seq::empty(), Seq::empty(), size as nat),
        ),
        r.len() == size,
{
    let mut r: Vec<Scalar> = Vec::new();
    for i in 0..size
        invariant
            r.len() == i,
            forall|j: int| 0 <= j < i ==> (#[trigger] r@[j])@ == 0,
    {
        r.push(Scalar::zero());
    }
    proof {
        zp::lemma_modulus();
        zp::lemma_red(0);
        assert(field::values(r@) =~= zx::red(
            combine::combination(Seq::empty(), Seq::empty(), size as nat),
        ));
    }
    r
}

/// The polynomials that are asked for at the point `i`, weighed and added up.
fn gather(
    polys: &Vec<MultilinearPolynomial>,
    evals: &Vec<Evaluation>,
    w: &Vec<Scalar>,
    i: usize,
    size: usize,
    Ghost(num_points): Ghost<nat>,
) -> (r: Vec<Scalar>)
    requires
        combine::all_of_len(values_of(polys@), size as nat),
        univariate::evaluations_fit(evals@, polys.len() as nat, num_points),
        evals.len() <= w.len(),
    ensures
        field::values(r@) == zx::red(
            combine::combination(
                combine::masked(
                    field::values(w@).take(evals.len() as int),
                    places(univariate::indices(evals@)),
                    i as int,
                ),
                tables(values_of(polys@), univariate::indices(evals@)),
                size as nat,
            ),
        ),
        r.len() == size,
{
    let ghost pairs = univariate::indices(evals@);
    let ghost c = combine::masked(
        field::values(w@).take(evals.len() as int),
        places(pairs),
        i as int,
    );
    let ghost ts = tables(values_of(polys@), pairs);
    proof {
        assert forall|k: int| 0 <= k < ts.len() implies (#[trigger] ts[k]).len() == size by {
            let e = evals@[k];
            assert(values_of(polys@)[e.poly as int].len() == size);
        }
        assert(c.take(0) =~= Seq::empty() && ts.take(0) =~= Seq::empty());
    }
    let mut acc = zeros(size);
    for k in 0..evals.len()
        invariant
            combine::all_of_len(values_of(polys@), size as nat),
            univariate::evaluations_fit(evals@, polys.len() as nat, num_points),
            evals.len() <= w.len(),
            pairs == univariate::indices(evals@),
            c == combine::masked(
                field::values(w@).take(evals.len() as int),
                places(pairs),
                i as int,
            ),
            ts == tables(values_of(polys@), pairs),
            combine::all_of_len(ts, size as nat),
            acc.len() == size,
            field::values(acc@) == zx::red(
                combine::combination(c.take(k as int), ts.take(k as int), size as nat),
            ),
    {
        let e = evals[k];
        proof {
            lemma_combination_push(c, ts, size as nat, k as int);
            assert(values_of(polys@)[e.poly as int].len() == size);
            assert(ts[k as int] == polys@[e.poly as int]@);
        }
        if e.point == i {
            let next = add_scaled(&acc, &w[k], polys[e.poly].evals());
            proof {
                assert(c[k as int] == w@[k as int]@);
                assert(field::values(next@).len() == size);
            }
            acc = next;
        }
    }
    proof {
        assert(c.take(evals.len() as int) =~= c && ts.take(evals.len() as int) =~= ts);
    }
    acc
}

/// The tables with the given factors, added up.
fn combine_tables(factors: &Vec<Scalar>, rows: &Vec<Vec<Scalar>>, size: usize) -> (r: Vec<Scalar>)
    requires
        factors.len() == rows.len(),
        combine::all_of_len(coordinates(rows@), size as nat),
    ensures
        field::values(r@) == zx::red(
            combine::combination(
                field::values(factors@),
                coordinates(rows@),
                size as nat,
            ),
        ),
        r.len() == size,
{
    let ghost (c, ts) = (field::values(factors@), coordinates(rows@));
    assert(c.take(0) =~= Seq::empty() && ts.take(0) =~= Seq::empty());
    let mut acc = zeros(size);
    for k in 0..rows.len()
        invariant
            factors.len() == rows.len(),
            c == field::values(factors@),
            ts == coordinates(rows@),
            combine::all_of_len(ts, size as nat),
            acc.len() == size,
            field::values(acc@) == zx::red(
                combine::combination(c.take(k as int), ts.take(k as int), size as nat),
            ),
    {
        proof {
            lemma_combination_push(c, ts, size as nat, k as int);
            assert(ts[k as int].len() == size);
        }
        let next = add_scaled(&acc, &factors[k], &rows[k]);
        assert(field::values(next@).len() == size);
        acc = next;
    }
    assert(c.take(rows.len() as int) =~= c && ts.take(rows.len() as int) =~= ts);
    acc
}

/// The tables one after the other.
fn flatten(rows: &Vec<Vec<Scalar>>) -> (r: Vec<Scalar>)
    ensures
        field::values(r@) == combine::flat(coordinates(rows@)),
{
    let ghost ts = coordinates(rows@);
    let mut r: Vec<Scalar> = Vec::new();
    assert(ts.take(0) =~= Seq::empty());
    assert(field::values(r@) =~= combine::flat(ts.take(0)));
    for i in 0..rows.len()
        invariant
            ts == coordinates(rows@),
            field::values(r@) == combine::flat(ts.take(i as int)),
    {
        let ghost done = field::values(r@);
        assert(ts[i as int].take(0) =~= Seq::empty());
        assert(done + ts[i as int].take(0) =~= done);
        let row = &rows[i];
        let len: usize = row.len();
        for j in 0..len
            invariant
                i < rows.len(),
                *row == rows@[i as int],
                len == row.len(),
                ts == coordinates(rows@),
                field::values(r@) == done + ts[i as int].take(j as int),
        {
            let ghost before = field::values(r@);
            r.push(row[j]);
            assert(ts[i as int].take(j + 1) =~= ts[i as int].take(j as int).push(
                rows@[i as int]@[j as int]@,
            ));
            assert(field::values(r@) =~= before.push(rows@[i as int]@[j as int]@));
            assert(field::values(r@) =~= done + ts[i as int].take(j + 1));
        }
        assert(ts.take(i + 1).drop_last() =~= ts.take(i as int));
        assert(ts[i as int].take(rows@[i as int].len() as int) =~= ts[i as int]);
    }
    assert(ts.take(rows.len() as int) =~= ts);
    r
}

/// Draws the weights of `n` evaluations.
fn squeeze_weights(n: usize, transcript: &mut ProofWriter) -> (r: Vec<Scalar>)
    requires
        pow2(log_size(n as nat)) <= usize::MAX,
    ensures
        n <= r.len(),
        field::values(r@).take(n as int) == weights(n as nat, old(transcript)@),
        final(transcript)@ == squeezed(log_size(n as nat), old(transcript)@).1,
{
    let ghost t = transcript@;
    let ell = log_of(n);
    let mut cs: Vec<Scalar> = Vec::new();
    assert(field::values(cs@) =~= Seq::empty());
    for i in 0..ell
        invariant
            cs.len() == i,
            squeezed(i as nat, t) == (field::values(cs@), transcript@),
    {
        let ghost before = field::values(cs@);
        cs.push(transcript.squeeze_challenge());
        assert(field::values(cs@) =~= before.push(squeezed(i as nat, t).1.challenge()));
    }
    let r = multilinear::eq_xy(&cs, 0);
    proof {
        assert(field::values(cs@).skip(0) =~= field::values(cs@));
        lemma_log_size(n as nat);
    }
    r
}

/// Draws the weights of `n` evaluations.
fn read_weights(n: usize, transcript: &mut ProofReader) -> (r: Vec<Scalar>)
    requires
        pow2(log_size(n as nat)) <= usize::MAX,
    ensures
        n <= r.len(),
        field::values(r@).take(n as int) == weights(n as nat, old(transcript)@),
        final(transcript)@ == squeezed(log_size(n as nat), old(transcript)@).1,
{
    let ghost t = transcript@;
    let ell = log_of(n);
    let mut cs: Vec<Scalar> = Vec::new();
    assert(field::values(cs@) =~= Seq::empty());
    for i in 0..ell
        invariant
            cs.len() == i,
            squeezed(i as nat, t) == (field::values(cs@), transcript@),
    {
        let ghost before = field::values(cs@);
        cs.push(transcript.squeeze_challenge());
        assert(field::values(cs@) =~= before.push(squeezed(i as nat, t).1.challenge()));
    }
    let r = multilinear::eq_xy(&cs, 0);
    proof {
        assert(field::values(cs@).skip(0) =~= field::values(cs@));
        lemma_log_size(n as nat);
    }
    r
}

/// The value of `eq(X, p)` at `x`.
fn eq_xy_eval(p: &Vec<Scalar>, x: &Vec<Scalar>) -> (r: Scalar)
    requires
        p.len() == x.len(),
    ensures
        r@ == zp::red(eq_pair(field::values(p@), field::values(x@))),
{
    let ghost (cp, cx) = (field::values(p@), field::values(x@));
    let one = Scalar::one();
    let mut acc = Scalar::one();
    let mut i: usize = p.len();
    proof {
        zp::lemma_modulus();
        zp::lemma_red(1);
        assert(cp.skip(i as int).len() == 0);
    }
    while i > 0
        invariant
            p.len() == x.len(),
            i <= p.len(),
            cp == field::values(p@),
            cx == field::values(x@),
            one@ == 1,
            acc@ == zp::red(eq_pair(cp.skip(i as int), cx.skip(i as int))),
        decreases i,
    {
        let ghost rest = eq_pair(cp.skip(i as int), cx.skip(i as int));
        i = i - 1;
        let (a, b) = (p[i], x[i]);
        let (na, nb) = (one.minus(&a), one.minus(&b));
        let k = a.mul_add(&b, &na.times(&nb));
        proof {
            assert(cp.skip(i as int).skip(1) =~= cp.skip(i + 1));
            assert(cx.skip(i as int).skip(1) =~= cx.skip(i + 1));
            zp::lemma_red(1 - a@);
            zp::lemma_red(1 - b@);
            zp::lemma_same_mul(na@, 1 - a@, nb@, 1 - b@);
            zp::lemma_red(na@ * nb@);
            zp::lemma_same_add(
                a@ * b@,
                a@ * b@,
                zp::red(na@ * nb@),
                (1 - a@) * (1 - b@),
            );
            let e = a@ * b@ + (1 - a@) * (1 - b@);
            zp::lemma_red(a@ * b@ + zp::red(na@ * nb@));
            assert(zp::same(k@, e));
            zp::lemma_red(rest);
            zp::lemma_same_mul(k@, e, acc@, rest);
        }
        acc = k.times(&acc);
    }
    assert(cp.skip(0) =~= cp && cx.skip(0) =~= cx);
    acc
}

/// If all polynomials are for `n` variables and all points have `n` coordinates, there are
/// variables, each evaluation is of one of the polynomials at one of the points, and the
/// tables that are made can be held. Other polynomials and points are rejected.
pub open spec fn openable(
    polys: Seq<Seq<int>>,
    points: Seq<Seq<int>>,
    evals: Seq<Evaluation>,
    n: nat,
) -> bool {
    combine::all_of_len(polys, pow2(n)) && combine::all_of_len(points, n) ==> {
        &&& 0 < n
        &&& univariate::evaluations_fit(evals, polys.len(), points.len())
        &&& polys.len() > 0 || pow2(n) <= usize::MAX
        &&& pow2(log_size(evals.len())) <= usize::MAX
    }
}

/// If all points have `n` coordinates, there are variables, each evaluation is of one of
/// the commitments, which are points of the curve, at one of the points, and there are not
/// more of them than can be combined. Other points are rejected.
pub open spec fn verifiable(
    comms: Seq<(int, int)>,
    points: Seq<Seq<int>>,
    evals: Seq<Evaluation>,
    n: nat,
) -> bool {
    combine::all_of_len(points, n) ==> {
        &&& 0 < n
        &&& univariate::evaluations_fit(evals, comms.len(), points.len())
        &&& curve::all_on_curve(comms)
        &&& evals.len() <= u32::MAX
        &&& pow2(log_size(evals.len())) <= usize::MAX
    }
}

/// What opening all evaluations answers, and where it leaves the prover: the combination is
/// opened if all polynomials are for `n` variables and all points have `n` coordinates.
pub open spec fn open_result(
    bases: Seq<(int, int)>,
    polys: Seq<Seq<int>>,
    points: Seq<Seq<int>>,
    pairs: Seq<(int, int)>,
    n: nat,
    t: Transcript,
    r: Result<(), Error>,
    after: Transcript,
) -> bool {
    let p = reduction(polys, points, pairs, n, t);
    if combine::all_of_len(polys, pow2(n)) && combine::all_of_len(points, n) {
        mercury::open_result(
            bases,
            combined(polys, points, pairs, n, t),
            p.challenges,
            p.transcript,
            r,
            after,
        )
    } else {
        &&& r matches Err(e)
        &&& rejected(polys, points, n, Operation::BatchOpen, e)
        &&& after == t
    }
}

/// A batch of polynomials for `n` variables and points with `n` coordinates is opened by
/// opening its combination at the challenges of the sum-check; any other is rejected, with
/// nothing written.
pub proof fn law_open_result(
    bases: Seq<(int, int)>,
    polys: Seq<Seq<int>>,
    points: Seq<Seq<int>>,
    pairs: Seq<(int, int)>,
    n: nat,
    t: Transcript,
    r: Result<(), Error>,
    after: Transcript,
)
    requires
        open_result(bases, polys, points, pairs, n, t, r, after),
    ensures
        combine::all_of_len(polys, pow2(n)) && combine::all_of_len(points, n)
            ==> mercury::open_result(
            bases,
            combined(polys, points, pairs, n, t),
            reduction(polys, points, pairs, n, t).challenges,
            reduction(polys, points, pairs, n, t).transcript,
            r,
            after,
        ),
        !(combine::all_of_len(polys, pow2(n)) && combine::all_of_len(points, n)) ==> r is Err
            && after == t,
        !combine::all_of_len(polys, pow2(n)) ==> exists|i: int|
            0 <= i < polys.len() && #[trigger] polys[i].len() != pow2(n) && r == Err::<(), Error>(
                poly_error(polys[i].len(), n, Operation::BatchOpen),
            ),
        combine::all_of_len(polys, pow2(n)) && !combine::all_of_len(points, n) ==> exists|i: int|
            0 <= i < points.len() && #[trigger] points[i].len() != n && r == Err::<(), Error>(
                Error::InvalidPointLength { expected: n as usize, got: points[i].len() as usize },
            ),
{
    if let Err(e) = r {
        if rejected(polys, points, n, Operation::BatchOpen, e) {
            if exists|i: int|
                #![trigger polys[i]]
                0 <= i < polys.len() && polys[i].len() != pow2(n) && combine::all_of_len(
                    polys.take(i),
                    pow2(n),
                ) && e == poly_error(polys[i].len(), n, Operation::BatchOpen) {
                let i = choose|i: int|
                    #![trigger polys[i]]
                    0 <= i < polys.len() && polys[i].len() != pow2(n) && combine::all_of_len(
                        polys.take(i),
                        pow2(n),
                    ) && e == poly_error(polys[i].len(), n, Operation::BatchOpen);
                assert(polys[i].len() != pow2(n));
            }
        }
    }
}

/// What verifying all evaluations answers, and where it leaves the verifier.
pub open spec fn verify_result(
    key: univariate::VerifierKey,
    comms: Seq<(int, int)>,
    points: Seq<Seq<int>>,
    pairs: Seq<(int, int)>,
    values: Seq<int>,
    n: nat,
    t: Transcript,
    r: Result<(), Error>,
    after: Transcript,
) -> bool {
    if combine::all_of_len(points, n) {
        &&& r == verdict(key, comms, points, pairs, values, n, t)
        &&& after == after_batch(pairs.len(), values, n, t)
    } else {
        &&& r matches Err(e)
        &&& rejected(Seq::empty(), points, n, Operation::BatchVerify, e)
        &&& after == t
    }
}

/// A batch of points with `n` coordinates is answered by the verdict on the proof; any other is
/// rejected, with nothing read.
pub proof fn law_verify_result(
    key: univariate::VerifierKey,
    comms: Seq<(int, int)>,
    points: Seq<Seq<int>>,
    pairs: Seq<(int, int)>,
    values: Seq<int>,
    n: nat,
    t: Transcript,
    r: Result<(), Error>,
    after: Transcript,
)
    requires
        verify_result(key, comms, points, pairs, values, n, t, r, after),
    ensures
        (forall|i: int| 0 <= i < points.len() ==> (#[trigger] points[i]).len() == n) ==> r
            == verdict(key, comms, points, pairs, values, n, t),
        !(forall|i: int| 0 <= i < points.len() ==> (#[trigger] points[i]).len() == n) ==> {
            &&& after == t
            &&& exists|i: int|
                0 <= i < points.len() && #[trigger] points[i].len() != n && r == Err::<(), Error>(
                    Error::InvalidPointLength {
                        expected: n as usize,
                        got: points[i].len() as usize,
                    },
                )
        },
{
}

/// What a batch opening that succeeded wrote, in any finished proof, is what `batch_verify`
/// takes with the commitments to the polynomials and their values.
pub proof fn law_batch_is_accepted(
    bases: Seq<(int, int)>,
    key: univariate::VerifierKey,
    polys: Seq<Seq<int>>,
    points: Seq<Seq<int>>,
    pairs: Seq<(int, int)>,
    n: nat,
    t: Transcript,
    r: Result<(), Error>,
    after: Transcript,
    all: Seq<u8>,
    s: int,
)
    requires
        n > 0,
        forall|i: int| 0 <= i < polys.len() ==> (#[trigger] polys[i]).len() == pow2(n),
        forall|i: int| 0 <= i < points.len() ==> (#[trigger] points[i]).len() == n,
        forall|k: int|
            0 <= k < pairs.len() ==> 0 <= (#[trigger] pairs[k]).0 < polys.len() && 0 <= pairs[k].1
                < points.len(),
        open_result(bases, polys, points, pairs, n, t, r, after),
        r is Ok,
        all.len() >= after.proof.len(),
        all.take(after.proof.len() as int) == after.proof,
        forall|i: int|
            0 <= i < bases.len() ==> #[trigger] bases[i] == curve::g1(
                vstd::arithmetic::power::pow(s, i as nat),
            ),
        key.g1 == curve::g1(1),
        key.g2 == curve::g2(1),
        key.s_g2 == curve::g2(s),
    ensures
        was_opened(
            bases,
            key,
            polys,
            Seq::new(polys.len(), |i: int| curve::g1(zx::eval(polys[i], s))),
            points,
            pairs,
            Seq::new(
                pairs.len(),
                |k: int| zp::red(zx::dot(polys[pairs[k].0], cube::eq(points[pairs[k].1]))),
            ),
            n,
            t,
            all,
            Transcript { absorbed: t.absorbed, proof: all.skip(t.proof.len() as int) },
        ),
{
    let comms = Seq::new(polys.len(), |i: int| curve::g1(zx::eval(polys[i], s)));
    assert(univariate::powers_of(bases, s) && key.of(s) && commit_to(comms, polys, s));
    assert(all =~= after.proof + all.skip(after.proof.len() as int));
}

/// What the contracts of the batch functions speak of: the coordinates of the points, the
/// tables of the polynomials, and of each evaluation its polynomial, its point and its value.
pub proof fn law_batch_views(
    points: Seq<Vec<Scalar>>,
    polys: Seq<MultilinearPolynomial>,
    evals: Seq<Evaluation>,
    i: int,
    j: int,
)
    ensures
        coordinates(points).len() == points.len(),
        0 <= i < points.len() ==> coordinates(points)[i].len() == points[i].len(),
        0 <= i < points.len() && 0 <= j < points[i].len() ==> coordinates(points)[i][j]
            == points[i]@[j]@,
        values_of(polys).len() == polys.len(),
        0 <= i < polys.len() ==> values_of(polys)[i] == polys[i]@,
        univariate::indices(evals).len() == evals.len(),
        univariate::claims(evals).len() == evals.len(),
        0 <= i < evals.len() ==> univariate::indices(evals)[i] == (
            evals[i].poly as int,
            evals[i].point as int,
        ),
        0 <= i < evals.len() ==> univariate::claims(evals)[i] == evals[i].value@,
        mercury::num_vars(points) == (if points.len() == 0 { 0 } else { points[0].len() }),
{
}

/// The weighed sum of the claimed values.
fn claimed_sum(evals: &Vec<Evaluation>, w: &Vec<Scalar>) -> (r: Scalar)
    requires
        evals.len() <= w.len(),
    ensures
        r@ == zp::red(
            zx::dot(
                univariate::claims(evals@),
                field::values(w@).take(evals.len() as int),
            ),
        ),
{
    let ghost (vs, ws) = (univariate::claims(evals@), field::values(w@).take(evals.len() as int));
    let mut acc = Scalar::zero();
    proof {
        zp::lemma_modulus();
        zp::lemma_red(0);
    }
    for k in 0..evals.len()
        invariant
            evals.len() <= w.len(),
            vs == univariate::claims(evals@),
            ws == field::values(w@).take(evals.len() as int),
            acc@ == zp::red(zx::dot(vs.take(k as int), ws.take(k as int))),
    {
        let ghost before = zx::dot(vs.take(k as int), ws.take(k as int));
        proof {
            let (x, y) = (seq![vs[k as int]], seq![ws[k as int]]);
            assert(vs.take(k + 1) =~= vs.take(k as int) + x);
            assert(ws.take(k + 1) =~= ws.take(k as int) + y);
            zx::lemma_dot_concat(vs.take(k as int), x, ws.take(k as int), y);
            assert(zx::dot(x.skip(1), y.skip(1)) == 0);
            zp::lemma_red(before);
            zp::lemma_same_add(
                vs[k as int] * ws[k as int],
                vs[k as int] * ws[k as int],
                acc@,
                before,
            );
        }
        acc = evals[k].value.mul_add(&w[k], &acc);
    }
    assert(vs.take(evals.len() as int) =~= vs && ws.take(evals.len() as int) =~= ws);
    acc
}

/// Opens every evaluation of one of `polys` at one of `points`, all in `num_vars` variables.
pub fn batch_open(
    pp: &UnivariateKzgProverParam,
    num_vars: usize,
    polys: &Vec<MultilinearPolynomial>,
    points: &Vec<Vec<Scalar>>,
    evals: &Vec<Evaluation>,
    transcript: &mut ProofWriter,
) -> (r: Result<(), Error>)
    requires
        openable(values_of(polys@), coordinates(points@), evals@, num_vars as nat),
    ensures
        open_result(
            pp@,
            values_of(polys@),
            coordinates(points@),
            univariate::indices(evals@),
            num_vars as nat,
            old(transcript)@,
            r,
            final(transcript)@,
        ),
{
    let ghost (ps, zs) = (values_of(polys@), coordinates(points@));
    let ghost (pairs, n, t) = (univariate::indices(evals@), num_vars as nat, transcript@);
    match validate_input(polys, points, num_vars, Operation::BatchOpen) {
        Err(e) => {
            return Err(e);
        },
        Ok(_) => {},
    }
    proof {
        lemma2_to64();
    }
    let ghost p = reduction(ps, zs, pairs, n, t);
    let ghost f = combined(ps, zs, pairs, n, t);
    let w = squeeze_weights(evals.len(), transcript);
    let size = multilinear::power_of_two(num_vars);
    let ghost wv = weights(pairs.len(), t);
    proof {
        assert(fits(ps, zs, pairs, n)) by {
            assert forall|k: int| 0 <= k < pairs.len() implies 0 <= (#[trigger] pairs[k]).0
                < ps.len() && 0 <= pairs[k].1 < zs.len() by {
                let e = evals@[k];
            }
        }
        lemma_lengths(ps, zs, pairs, n, wv);
        lemma_combined_value(ps, zs, pairs, n, t);
    }
    let ghost (et, gt) = (eq_tables(zs), gathered(ps, zs.len(), pairs, wv, pow2(n)));
    let mut eqs: Vec<Vec<Scalar>> = Vec::new();
    let mut rows: Vec<Vec<Scalar>> = Vec::new();
    for i in 0..points.len()
        invariant
            ps == values_of(polys@),
            zs == coordinates(points@),
            pairs == univariate::indices(evals@),
            n == num_vars,
            size == pow2(n),
            pow2(n) <= usize::MAX,
            combine::all_of_len(ps, pow2(n)),
            combine::all_of_len(zs, n),
            univariate::evaluations_fit(evals@, polys.len() as nat, points.len() as nat),
            evals.len() <= w.len(),
            wv == field::values(w@).take(evals.len() as int),
            et == eq_tables(zs),
            gt == gathered(ps, zs.len(), pairs, wv, pow2(n)),
            eqs.len() == i,
            rows.len() == i,
            forall|j: int| 0 <= j < i ==> field::values((#[trigger] eqs@[j])@) == et[j],
            forall|j: int| 0 <= j < i ==> field::values((#[trigger] rows@[j])@) == gt[j],
    {
        proof {
            assert(zs[i as int].len() == n);
            assert(zs[i as int].skip(0) =~= zs[i as int]);
        }
        eqs.push(multilinear::eq_xy(&points[i], 0));
        rows.push(gather(polys, evals, &w, i, size, Ghost(points.len() as nat)));
    }
    proof {
        assert(coordinates(eqs@) =~= et);
        assert(coordinates(rows@) =~= gt);
    }
    let (challenges, eq_values, _) = sum_check::prove(
        num_vars,
        flatten(&eqs),
        flatten(&rows),
        transcript,
    );
    assert(field::values(eq_values@) == p.e);
    let table = combine_tables(&eq_values, &rows, size);
    proof {
        assert(field::values(table@) == f);
        assert(multilinear::table_len(table.len() as nat));
    }
    match MultilinearPolynomial::new(table) {
        None => Err(Error::InvalidPcsOpen),
        Some(poly) => Mercury::open_poly(pp, &poly, &challenges, transcript),
    }
}

/// Verifies every evaluation, with the proof read from the transcript.
pub fn batch_verify(
    vp: &UnivariateKzgVerifierParam,
    num_vars: usize,
    comms: &Vec<G1Affine>,
    points: &Vec<Vec<Scalar>>,
    evals: &Vec<Evaluation>,
    transcript: &mut ProofReader,
) -> (r: Result<(), Error>)
    requires
        verifiable(curve::points(comms@), coordinates(points@), evals@, num_vars as nat),
    ensures
        verify_result(
            vp@,
            curve::points(comms@),
            coordinates(points@),
            univariate::indices(evals@),
            univariate::claims(evals@),
            num_vars as nat,
            old(transcript)@,
            r,
            final(transcript)@,
        ),
        forall|bases: Seq<(int, int)>, polys: Seq<Seq<int>>, t: Transcript, all: Seq<u8>|
            #[trigger] was_opened(
                bases,
                vp@,
                polys,
                curve::points(comms@),
                coordinates(points@),
                univariate::indices(evals@),
                univariate::claims(evals@),
                num_vars as nat,
                t,
                all,
                old(transcript)@,
            ) ==> r is Ok,
{
    let ghost (cs, zs) = (curve::points(comms@), coordinates(points@));
    let ghost (pairs, n, t0) = (univariate::indices(evals@), num_vars as nat, transcript@);
    let ghost vs = univariate::claims(evals@);
    match validate_points(points, num_vars, Operation::BatchVerify) {
        Err(e) => {
            return Err(e);
        },
        Ok(_) => {},
    }
    let w = read_weights(evals.len(), transcript);
    let ghost wv = weights(pairs.len(), t0);
    let claim = claimed_sum(evals, &w);
    let reduced = sum_check::verify(num_vars, claim, transcript);
    proof {
        assert forall|bases: Seq<(int, int)>, polys: Seq<Seq<int>>, t: Transcript, all: Seq<u8>|
            #[trigger] was_opened(
                bases,
                vp@,
                polys,
                cs,
                zs,
                pairs,
                vs,
                n,
                t,
                all,
                t0,
            ) implies {
            let p = reduction(polys, zs, pairs, n, t);
            let f = combined(polys, zs, pairs, n, t);
            &&& wv == weights(pairs.len(), t)
            &&& wv.len() == pairs.len()
            &&& sum_check::checked(
                n,
                zp::red(zx::dot(vs, wv)),
                squeezed(log_size(pairs.len()), t0).1,
            ) == Ok::<Checked, Error>(
                Checked {
                    challenges: p.challenges,
                    value: laws::multilinear_value(f, p.challenges),
                    consistent: true,
                    transcript: p.transcript.reading(all),
                },
            )
        } by {
            let p = reduction(polys, zs, pairs, n, t);
            let f = combined(polys, zs, pairs, n, t);
            laws::law_proof_read_back(bases, f, p.challenges, p.transcript, all);
            law_reduction(polys, zs, pairs, vs, n, t, all);
        }
    }
    let (challenges, value) = match reduced {
        Err(e) => {
            return Err(e);
        },
        Ok(v) => v,
    };
    let ghost ch = field::values(challenges@);
    let mut scalars: Vec<Scalar> = Vec::new();
    let mut bases: Vec<G1Affine> = Vec::new();
    for k in 0..evals.len()
        invariant
            cs == curve::points(comms@),
            zs == coordinates(points@),
            pairs == univariate::indices(evals@),
            n == num_vars,
            combine::all_of_len(zs, n),
            univariate::evaluations_fit(evals@, comms.len() as nat, points.len() as nat),
            curve::all_on_curve(cs),
            evals.len() <= w.len(),
            wv == field::values(w@).take(evals.len() as int),
            challenges.len() == n,
            ch == field::values(challenges@),
            scalars.len() == k,
            bases.len() == k,
            forall|j: int|
                0 <= j < k ==> (#[trigger] scalars@[j])@ == factors(zs, pairs, wv, ch)[j],
            forall|j: int| 0 <= j < k ==> (#[trigger] bases@[j])@ == summands(cs, pairs)[j],
            forall|j: int| 0 <= j < k ==> curve::on_curve((#[trigger] bases@[j])@),
    {
        let e = evals[k];
        proof {
            assert(zs[e.point as int].len() == n);
            assert(curve::on_curve(cs[e.poly as int]));
        }
        scalars.push(eq_xy_eval(&points[e.point], &challenges).times(&w[k]));
        bases.push(comms[e.poly]);
    }
    proof {
        assert(field::values(scalars@) =~= factors(zs, pairs, wv, ch));
        assert(curve::points(bases@) =~= summands(cs, pairs));
        assert forall|j: int| 0 <= j < bases.len() implies curve::on_curve(
            #[trigger] curve::points(bases@)[j],
        ) by {
            assert(curve::on_curve(bases@[j]@));
        }
    }
    let comm = UnivariateKzg::combine_commitments(&scalars, &bases);
    let ghost reader = transcript@;
    let r = Mercury::verify(vp, &comm, &challenges, &value, transcript);
    proof {
        assert forall|bs: Seq<(int, int)>, polys: Seq<Seq<int>>, t: Transcript, all: Seq<u8>|
            #[trigger] was_opened(
                bs,
                vp@,
                polys,
                cs,
                zs,
                pairs,
                vs,
                n,
                t,
                all,
                t0,
            ) implies r is Ok by {
            let p = reduction(polys, zs, pairs, n, t);
            let f = combined(polys, zs, pairs, n, t);
            let s = choose|s: int| #[trigger]
                univariate::powers_of(bs, s) && vp@.of(s) && commit_to(cs, polys, s);
            let logs = Seq::new(pairs.len(), |k: int| zx::eval(polys[pairs[k].0], s));
            assert forall|k: int| 0 <= k < pairs.len() implies #[trigger] summands(cs, pairs)[k]
                == curve::g1(logs[k]) by {
                let pair = pairs[k];
                assert(cs[pair.0] == curve::g1(zx::eval(polys[pair.0], s)));
            }
            assert(curve::are_multiples(curve::points(bases@), logs));
            lemma_combined_commitment(polys, zs, pairs, n, t, s);
            assert(comm@ == curve::g1(zx::eval(f, s)));
            lemma_combined_value(polys, zs, pairs, n, t);
            assert(laws::was_opened(
                bs,
                vp@,
                f,
                comm@,
                ch,
                value@,
                p.transcript,
                all,
                reader,
            ));
        }
    }
    r
}

} // verus!
