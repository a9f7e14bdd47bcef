//! What holds of every Mercury opening.
#[allow(unused_imports)]
use crate::error::Error;
#[allow(unused_imports)]
use crate::pcs::multilinear::mercury;
#[allow(unused_imports)]
use crate::pcs::multilinear::mercury::{Opening, Received};
#[allow(unused_imports)]
use crate::pcs::multilinear::steps;
#[allow(unused_imports)]
use crate::pcs::univariate;
#[allow(unused_imports)]
use crate::poly::cube;
#[allow(unused_imports)]
use crate::poly::zx;
#[allow(unused_imports)]
use crate::util::curve;
#[allow(unused_imports)]
use crate::util::transcript::Transcript;
#[allow(unused_imports)]
use crate::util::zp;
#[allow(unused_imports)]
use vstd::arithmetic::mul::*;
#[allow(unused_imports)]
use vstd::arithmetic::power::*;
#[allow(unused_imports)]
use vstd::arithmetic::power2::*;
use vstd::prelude::*;

verus! {

/// A table of values of a polynomial in as many variables as `u` has coordinates.
pub open spec fn fits(f: Seq<int>, u: Seq<int>) -> bool {
    u.len() >= 1 && f.len() == pow2(u.len())
}

/// The value at `u` of the multilinear polynomial with the values `f`.
pub open spec fn multilinear_value(f: Seq<int>, u: Seq<int>) -> int {
    zp::red(zx::dot(f, cube::eq(u)))
}

/// Division: `f(X) = (X^b - alpha) q(X) + g(X)` at every `x`.
pub proof fn law_division(f: Seq<int>, u: Seq<int>, alpha: int, x: int)
    requires
        fits(f, u),
    ensures
        ({
            let b = mercury::width(u.len());
            zp::same(
                zx::eval(f, x),
                (pow(x, b as nat) - alpha) * zx::eval(mercury::quotient(f, b, alpha), x)
                    + zx::eval(mercury::remainder(f, b, alpha), x),
            )
        }),
{
    mercury::lemma_shape(u.len());
    let b = mercury::width(u.len());
    let m = pow2((u.len() - mercury::folded_vars(u.len())) as nat) as int;
    zx::lemma_block_division(f, b, m, alpha, x);
    let (q, g) = (zx::block_quotient(f, b, alpha), zx::by_columns(f, b, alpha));
    zx::lemma_red_same(q);
    zx::lemma_red_same(g);
    zx::lemma_eval_same(q, zx::red(q), x, x);
    zx::lemma_eval_same(g, zx::red(g), x, x);
    let k = pow(x, b as nat) - alpha;
    zp::lemma_same_mul(k, k, zx::eval(q, x), zx::eval(zx::red(q), x));
    zp::lemma_same_add(
        k * zx::eval(q, x),
        k * zx::eval(zx::red(q), x),
        zx::eval(g, x),
        zx::eval(zx::red(g), x),
    );
}

/// Folding commutes with dividing: the value of `h` at `alpha` is the value of `g`, read
/// as a multilinear polynomial, at the first variables of `u`.
pub proof fn law_folded_value(f: Seq<int>, u: Seq<int>, alpha: int)
    requires
        fits(f, u),
    ensures
        zp::same(
            zx::eval(mercury::folded(f, u), alpha),
            zx::dot(
                mercury::remainder(f, mercury::width(u.len()), alpha),
                mercury::column_weights(u),
            ),
        ),
{
    mercury::lemma_shape(u.len());
    let t = mercury::folded_vars(u.len());
    let b = mercury::width(u.len());
    let m = pow2((u.len() - t) as nat) as int;
    let e = cube::eq(u.take(t as int));
    cube::lemma_eq_len(u.take(t as int));
    zx::lemma_rows_columns(f, b, m, alpha, e);
    let (h, g) = (zx::by_rows(f, b, e), zx::by_columns(f, b, alpha));
    zx::lemma_red_same(h);
    zx::lemma_red_same(g);
    zx::lemma_red_same(e);
    zx::lemma_eval_same(zx::red(h), h, alpha, alpha);
    zx::lemma_dot_same(zx::red(g), g, zx::red(e), e);
}

proof fn lemma_dot_pad(a: Seq<int>, b: Seq<int>, n: nat)
    requires
        a.len() == b.len(),
        a.len() <= n,
    ensures
        zx::dot(zx::pad(a, n), zx::pad(b, n)) == zx::dot(a, b),
{
    let k = (n - a.len()) as nat;
    let z = Seq::new(k, |i: int| 0int);
    assert(zx::pad(a, n) =~= a + z);
    assert(zx::pad(b, n) =~= b + z);
    zx::lemma_dot_concat(a, z, b, z);
    zx::lemma_dot_zeros(k, z);
}

/// Folding keeps the value: `h`, read as a multilinear polynomial, has at the last
/// variables of `u` the value that `f` has at `u`.
pub proof fn law_folding_keeps_value(f: Seq<int>, u: Seq<int>)
    requires
        fits(f, u),
    ensures
        zp::same(
            zx::dot(
                zx::pad(mercury::folded(f, u), mercury::width(u.len()) as nat),
                mercury::row_weights(u),
            ),
            multilinear_value(f, u),
        ),
{
    mercury::lemma_shape(u.len());
    let t = mercury::folded_vars(u.len());
    let b = mercury::width(u.len());
    let m = pow2((u.len() - t) as nat) as int;
    let (u1, u2) = (u.take(t as int), u.skip(t as int));
    assert(u1 + u2 =~= u);
    cube::lemma_dot_rows(f, u1, u2);
    cube::lemma_eq_len(u2);
    let (h, e) = (zx::by_rows(f, b, cube::eq(u1)), cube::eq(u2));
    zx::lemma_blocks(f.len() as int, b, m);
    zx::lemma_red_same(h);
    zx::lemma_red_same(e);
    zx::lemma_dot_same(zx::red(h), h, zx::red(e), e);
    lemma_dot_pad(zx::red(h), zx::red(e), b as nat);
    zp::lemma_red(zx::dot(f, cube::eq(u)));
}

/// Reversal: `d(x) = x^(b-1) g(1/x)`.
pub proof fn law_reversal(f: Seq<int>, u: Seq<int>, alpha: int, x: int, y: int)
    requires
        fits(f, u),
        zp::same(x * y, 1),
    ensures
        ({
            let b = mercury::width(u.len());
            let g = mercury::remainder(f, b, alpha);
            zp::same(zx::eval(g.reverse(), x), pow(x, (b - 1) as nat) * zx::eval(g, y))
        }),
{
    mercury::lemma_shape(u.len());
    let b = mercury::width(u.len());
    zx::lemma_eval_reverse(mercury::remainder(f, b, alpha), x, y);
}

proof fn lemma_weights_at(v: Seq<int>, n: nat, x: int)
    requires
        pow2(v.len()) <= n,
    ensures
        zp::same(zx::eval(zx::pad(zx::red(cube::eq(v)), n), x), cube::eq_at(v, x)),
{
    let e = cube::eq(v);
    cube::lemma_eq_len(v);
    zx::lemma_eval_pad(zx::red(e), n, x);
    zx::lemma_red_same(e);
    zx::lemma_eval_same(zx::red(e), e, x, x);
    cube::lemma_eval_eq(v, x);
}

proof fn lemma_products_same(a: int, b: int, p: int, q: int, r: int, s: int)
    requires
        zp::same(p, q),
        zp::same(r, s),
    ensures
        zp::same(a * p + b * r, a * q + b * s),
{
    zp::lemma_same_mul(a, a, p, q);
    zp::lemma_same_mul(b, b, r, s);
    zp::lemma_same_add(a * p, a * q, b * r, b * s);
}

/// The inner product identity: at `x` and `y = 1/x`,
/// `g(x) P(y) + g(y) P(x) + gamma (h(x) Q(y) + h(y) Q(x))`
/// is `2 (h(alpha) + gamma v) + x s(x) + y s(y)`, where `v` is the value of `f` at `u`.
pub proof fn law_inner_product(
    f: Seq<int>,
    u: Seq<int>,
    alpha: int,
    gamma: int,
    x: int,
    y: int,
)
    requires
        fits(f, u),
        zp::same(x * y, 1),
    ensures
        ({
            let t = mercury::folded_vars(u.len()) as int;
            let (u1, u2) = (u.take(t), u.skip(t));
            let h = mercury::folded(f, u);
            let g = mercury::remainder(f, mercury::width(u.len()), alpha);
            let s = mercury::inner_product_tail(g, gamma, h, u);
            let outer = zx::eval(g, x) * cube::eq_at(u1, y) + zx::eval(g, y) * cube::eq_at(u1, x);
            let inner = zx::eval(h, x) * cube::eq_at(u2, y) + zx::eval(h, y) * cube::eq_at(u2, x);
            zp::same(
                outer + gamma * inner,
                2 * (zx::eval(h, alpha) + gamma * multilinear_value(f, u)) + x * zx::eval(s, x) + y
                    * zx::eval(s, y),
            )
        }),
{
    mercury::lemma_shape(u.len());
    let t = mercury::folded_vars(u.len());
    let b = mercury::width(u.len());
    let n = b as nat;
    let (u1, u2) = (u.take(t as int), u.skip(t as int));
    let h = mercury::folded(f, u);
    let g = mercury::remainder(f, b, alpha);
    let (p, q) = (mercury::column_weights(u), mercury::row_weights(u));
    let hp = zx::pad(h, n);
    let raw = steps::batched_tail(g, p, gamma, hp, q);
    let s = mercury::inner_product_tail(g, gamma, h, u);
    cube::lemma_eq_len(u1);
    cube::lemma_eq_len(u2);
    let m = pow2((u.len() - t) as nat) as int;
    zx::lemma_blocks(f.len() as int, b, m);
    assert(zx::pad(p, n) =~= p);
    lemma_weights_at(u1, n, x);
    lemma_weights_at(u1, n, y);
    lemma_weights_at(u2, n, x);
    lemma_weights_at(u2, n, y);
    zx::lemma_eval_pad(h, n, x);
    zx::lemma_eval_pad(h, n, y);
    let (gx, gy, hx, hy) = (zx::eval(g, x), zx::eval(g, y), zx::eval(h, x), zx::eval(h, y));
    let (px, py, qx, qy) = (zx::eval(p, x), zx::eval(p, y), zx::eval(q, x), zx::eval(q, y));
    let outer = gx * cube::eq_at(u1, y) + gy * cube::eq_at(u1, x);
    let inner = hx * cube::eq_at(u2, y) + hy * cube::eq_at(u2, x);
    lemma_products_same(gx, gy, py, cube::eq_at(u1, y), px, cube::eq_at(u1, x));
    lemma_products_same(hx, hy, qy, cube::eq_at(u2, y), qx, cube::eq_at(u2, x));
    zx::lemma_cross(g, p, x, y);
    zx::lemma_cross(hp, q, x, y);
    let (a, c) = (zx::cross_tail(g, p), zx::cross_tail(hp, q));
    let (dg, dh) = (zx::dot(g, p), zx::dot(hp, q));
    let left = 2 * dg + x * zx::eval(a, x) + y * zx::eval(a, y);
    let right = 2 * dh + x * zx::eval(c, x) + y * zx::eval(c, y);
    assert(zp::same(outer, left));
    assert(zp::same(inner, right));
    zp::lemma_same_mul(gamma, gamma, inner, right);
    zp::lemma_same_add(outer, left, gamma * inner, gamma * right);
    // the tail
    zx::lemma_eval_axpy(a, gamma, c, x);
    zx::lemma_eval_axpy(a, gamma, c, y);
    zx::lemma_red_same(raw);
    zx::lemma_eval_same(s, raw, x, x);
    zx::lemma_eval_same(s, raw, y, y);
    lemma_products_same(
        x,
        y,
        zx::eval(s, x),
        zx::eval(raw, x),
        zx::eval(s, y),
        zx::eval(raw, y),
    );
    // the constant term
    law_folded_value(f, u, alpha);
    law_folding_keeps_value(f, u);
    let (ha, v) = (zx::eval(h, alpha), multilinear_value(f, u));
    zp::lemma_same_mul(gamma, gamma, v, dh);
    zp::lemma_same_add(ha, dg, gamma * v, gamma * dh);
    zp::lemma_same_mul(2, 2, ha + gamma * v, dg + gamma * dh);
    let (ax, ay, cx, cy) = (zx::eval(a, x), zx::eval(a, y), zx::eval(c, x), zx::eval(c, y));
    zp::lemma_same_add(
        2 * (ha + gamma * v),
        2 * (dg + gamma * dh),
        x * zx::eval(s, x) + y * zx::eval(s, y),
        x * (ax + gamma * cx) + y * (ay + gamma * cy),
    );
    lemma_collect(x, ax, gamma, cx);
    lemma_collect(y, ay, gamma, cy);
    lemma_mul_is_distributive_add(gamma, 2 * dh + x * cx, y * cy);
    lemma_mul_is_distributive_add(gamma, 2 * dh, x * cx);
    assert(gamma * (2 * dh) == 2 * (gamma * dh)) by (nonlinear_arith);
}

proof fn lemma_collect(x: int, a: int, k: int, c: int)
    ensures
        x * (a + k * c) == x * a + k * (x * c),
{
    lemma_mul_is_distributive_add(x, a, k * c);
    assert(x * (k * c) == k * (x * c)) by (nonlinear_arith);
}

proof fn lemma_eval_numerator(f: Seq<int>, k: int, q: Seq<int>, c: int, x: int)
    requires
        f.len() > 0,
        q.len() <= f.len(),
    ensures
        zx::eval(
            Seq::new(
                f.len(),
                |i: int| f[i] - k * zx::at(q, i) - (if i == 0 { c } else { 0 }),
            ),
            x,
        ) == zx::eval(f, x) - k * zx::eval(q, x) - c,
{
    let n = f.len();
    let s = Seq::new(n, |i: int| f[i] - k * zx::at(q, i) - (if i == 0 { c } else { 0 }));
    let one = zx::pad(seq![1int], n);
    let pq = zx::pad(q, n);
    let s1 = zx::axpy(f, -k, pq);
    assert(s =~= zx::axpy(s1, -c, one)) by {
        assert forall|i: int| 0 <= i < n implies s[i] == s1[i] + (-c) * one[i] by {
            assert((-k) * pq[i] == -(k * pq[i])) by (nonlinear_arith);
            if i > 0 {
                assert((-c) * 0 == 0);
            }
        }
    }
    zx::lemma_eval_axpy(f, -k, pq, x);
    zx::lemma_eval_axpy(s1, -c, one, x);
    zx::lemma_eval_pad(q, n, x);
    zx::lemma_eval_pad(seq![1int], n, x);
    assert(zx::eval(seq![1int].skip(1), x) == 0);
    assert(x * 0 == 0);
    assert(zx::eval(seq![1int], x) == 1);
    let e = zx::eval(q, x);
    assert((-k) * e == -(k * e)) by (nonlinear_arith);
}

proof fn lemma_numerator_at(f: Seq<int>, u: Seq<int>, alpha: int, zeta: int, x: int)
    requires
        fits(f, u),
    ensures
        ({
            let b = mercury::width(u.len());
            let (q, g) = (mercury::quotient(f, b, alpha), mercury::remainder(f, b, alpha));
            let gz = zp::red(zx::eval(g, zeta));
            let k = zp::red(zp::red(pow(zeta, b as nat)) - alpha);
            zp::same(
                zx::eval(mercury::numerator(f, b, alpha, zeta, q, gz), x),
                zx::eval(f, x) - k * zx::eval(q, x) - gz,
            )
        }),
{
    mercury::lemma_shape(u.len());
    lemma_pow2_pos(u.len());
    let b = mercury::width(u.len());
    let (q, g) = (mercury::quotient(f, b, alpha), mercury::remainder(f, b, alpha));
    let gz = zp::red(zx::eval(g, zeta));
    let k = zp::red(zp::red(pow(zeta, b as nat)) - alpha);
    let s = Seq::new(f.len(), |i: int| f[i] - k * zx::at(q, i) - (if i == 0 { gz } else { 0 }));
    lemma_eval_numerator(f, k, q, gz, x);
    zx::lemma_red_same(s);
    zx::lemma_eval_same(zx::red(s), s, x, x);
}

/// The numerator `f(X) - (zeta^b - alpha) q(X) - g(zeta)` vanishes at `zeta`, so that the
/// division by `X - zeta` leaves no remainder.
pub proof fn law_numerator_vanishes(f: Seq<int>, u: Seq<int>, alpha: int, zeta: int)
    requires
        fits(f, u),
    ensures
        ({
            let b = mercury::width(u.len());
            let (q, g) = (mercury::quotient(f, b, alpha), mercury::remainder(f, b, alpha));
            zp::red(
                zx::eval(
                    mercury::numerator(f, b, alpha, zeta, q, zp::red(zx::eval(g, zeta))),
                    zeta,
                ),
            ) == 0
        }),
{
    let b = mercury::width(u.len());
    let (q, g) = (mercury::quotient(f, b, alpha), mercury::remainder(f, b, alpha));
    let gz = zp::red(zx::eval(g, zeta));
    let p = pow(zeta, b as nat);
    let k = zp::red(zp::red(p) - alpha);
    lemma_numerator_at(f, u, alpha, zeta, zeta);
    law_division(f, u, alpha, zeta);
    zp::lemma_red(zx::eval(g, zeta));
    zp::lemma_red(p);
    zp::lemma_same_sub(zp::red(p), p, alpha, alpha);
    zp::lemma_red(zp::red(p) - alpha);
    let (ef, eq, eg) = (zx::eval(f, zeta), zx::eval(q, zeta), zx::eval(g, zeta));
    zp::lemma_same_mul(k, p - alpha, eq, eq);
    zp::lemma_same_sub(ef, (p - alpha) * eq + eg, k * eq, (p - alpha) * eq);
    zp::lemma_same_sub(ef - k * eq, eg, gz, eg);
    zp::lemma_modulus();
    zp::lemma_red(0);
}

/// What a verifier reads of the opening `o` of `f` at `u`.
pub open spec fn honest(
    bases: Seq<(int, int)>,
    f: Seq<int>,
    u: Seq<int>,
    o: Opening,
) -> Received {
    Received {
        h: univariate::commitment(bases, o.h),
        alpha: o.alpha,
        g: univariate::commitment(bases, o.g),
        q: univariate::commitment(bases, o.q),
        gamma: o.gamma,
        s: univariate::commitment(bases, o.s),
        d: univariate::commitment(bases, o.d),
        zeta: o.zeta,
        values: mercury::opened_values(o).take(6),
        phi: univariate::commitment(
            bases,
            mercury::zeta_quotient(f, mercury::width(u.len()), o),
        ),
    }
}

/// The quotients of the polynomials of an opening by `X` less their points.
pub open spec fn opened_quotients(o: Opening) -> Seq<Seq<int>> {
    Seq::new(
        8,
        |i: int|
            zx::red(
                zx::quotient(
                    mercury::opened_polys(o)[mercury::opened_indices()[i].0],
                    mercury::opened_points(o)[mercury::opened_indices()[i].1],
                ),
            ),
    )
}

/// The polynomials that are committed to, in the order of `f, h, g, q, s, d` and the
/// quotient at `zeta`.
pub open spec fn committed_polys(f: Seq<int>, u: Seq<int>, o: Opening) -> Seq<Seq<int>> {
    seq![f, o.h, o.g, o.q, o.s, o.d, mercury::zeta_quotient(f, mercury::width(u.len()), o)]
}

/// The values of polynomials at `s`.
pub open spec fn values_at(polys: Seq<Seq<int>>, s: int) -> Seq<int> {
    Seq::new(polys.len(), |i: int| zx::eval(polys[i], s))
}

/// The values that the verifier works out are those of the polynomials.
pub proof fn law_claims(
    bases: Seq<(int, int)>,
    f: Seq<int>,
    u: Seq<int>,
    t: Transcript,
)
    requires
        fits(f, u),
        mercury::is_inverse(
            mercury::opening(bases, f, u, t).zeta,
            mercury::inverse(mercury::opening(bases, f, u, t).zeta),
        ),
    ensures
        ({
            let o = mercury::opening(bases, f, u, t);
            honest(bases, f, u, o).claims(u, multilinear_value(f, u)) == mercury::opened_values(o)
        }),
{
    let o = mercury::opening(bases, f, u, t);
    let rc = honest(bases, f, u, o);
    let v = multilinear_value(f, u);
    let vs = mercury::opened_values(o);
    let (z, y) = (o.zeta, mercury::inverse(o.zeta));
    let b = mercury::width(u.len());
    zp::lemma_modulus();
    zp::lemma_red(1);
    // d(zeta)
    law_reversal(f, u, o.alpha, z, y);
    let p = pow(z, (b - 1) as nat);
    zp::lemma_red(zx::eval(o.g, y));
    zp::lemma_same_mul(p, p, vs[1], zx::eval(o.g, y));
    assert(vs[1] == zp::red(zx::eval(o.g, y)));
    assert(vs[6] == zp::red(zx::eval(o.d, z)));
    assert(rc.d_zeta(u) == vs[6]);
    // h(alpha)
    law_inner_product(f, u, o.alpha, o.gamma, z, y);
    let tt = mercury::folded_vars(u.len()) as int;
    let (u1, u2) = (u.take(tt), u.skip(tt));
    let (e1z, e1y) = (cube::eq_at(u1, z), cube::eq_at(u1, y));
    let (e2z, e2y) = (cube::eq_at(u2, z), cube::eq_at(u2, y));
    let (gz, gy) = (zx::eval(o.g, z), zx::eval(o.g, y));
    let (hz, hy) = (zx::eval(o.h, z), zx::eval(o.h, y));
    let (sz, sy) = (zx::eval(o.s, z), zx::eval(o.s, y));
    assert(vs[0] == zp::red(gz) && vs[2] == zp::red(hz) && vs[3] == zp::red(hy));
    assert(vs[4] == zp::red(sz) && vs[5] == zp::red(sy));
    zp::lemma_red(gz);
    zp::lemma_red(hz);
    zp::lemma_red(hy);
    zp::lemma_red(sz);
    zp::lemma_red(sy);
    let outer = vs[0] * e1y + vs[1] * e1z;
    let inner = vs[2] * e2y + vs[3] * e2z;
    let tail = z * vs[4] + y * vs[5];
    let ha = zx::eval(o.h, o.alpha);
    lemma_factors_same(vs[0], gz, vs[1], gy, e1y, e1z);
    lemma_factors_same(vs[2], hz, vs[3], hy, e2y, e2z);
    lemma_products_same(z, y, vs[4], sz, vs[5], sy);
    let (outer2, inner2) = (gz * e1y + gy * e1z, hz * e2y + hy * e2z);
    zp::lemma_same_mul(o.gamma, o.gamma, inner, inner2);
    zp::lemma_same_add(outer, outer2, o.gamma * inner, o.gamma * inner2);
    let w = ha + o.gamma * v;
    zp::lemma_same_sub(outer + o.gamma * inner, 2 * w + z * sz + y * sy, tail, z * sz + y * sy);
    lemma_inverse_of_two();
    let half = mercury::inverse(2);
    let total = outer + o.gamma * inner - tail;
    zp::lemma_same_mul(half, half, total, 2 * w);
    zp::lemma_same_mul(2 * half, 1, w, w);
    assert(half * (2 * w) == (2 * half) * w) by (nonlinear_arith);
    zp::lemma_same_sub(half * total, w, o.gamma * v, o.gamma * v);
    assert(rc.h_alpha(u, v) == zp::red(ha));
    assert(vs[7] == zp::red(ha));
    assert(rc.claims(u, v) =~= vs);
}

proof fn lemma_factors_same(p: int, q: int, r: int, s: int, a: int, b: int)
    requires
        zp::same(p, q),
        zp::same(r, s),
    ensures
        zp::same(p * a + r * b, q * a + s * b),
{
    zp::lemma_same_mul(p, q, a, a);
    zp::lemma_same_mul(r, s, b, b);
    zp::lemma_same_add(p * a, q * a, r * b, s * b);
}

proof fn lemma_inverse_of_two()
    ensures
        mercury::is_inverse(2, mercury::inverse(2)),
{
    let h = 0x183227397098d014dc2822db40c0ac2e9419f4243cdcb848a1f0fac9f8000001int;
    assert(mercury::is_inverse(2, h)) by {
        reveal(zp::modulus);
    }
}

/// A value at `s` less the value at `z` is `s - z` times the quotient.
proof fn lemma_opening_divides(c: Seq<int>, z: int, s: int)
    ensures
        zp::same(
            zx::eval(c, s) - zp::red(zx::eval(c, z)),
            (s - z) * zx::eval(zx::red(zx::quotient(c, z)), s),
        ),
{
    let q = zx::quotient(c, z);
    zx::lemma_quotient(c, z, s);
    zp::lemma_red(zx::eval(c, z));
    zx::lemma_red_same(q);
    zx::lemma_eval_same(q, zx::red(q), s, s);
    zp::lemma_same_mul(s - z, s - z, zx::eval(q, s), zx::eval(zx::red(q), s));
    zp::lemma_same_sub(
        zx::eval(c, s),
        zx::eval(c, s),
        zp::red(zx::eval(c, z)),
        zx::eval(c, z),
    );
}

/// Completeness: the equations that a verifier checks hold of every opening, for the value
/// of the polynomial at the point.
pub proof fn law_completeness(
    bases: Seq<(int, int)>,
    f: Seq<int>,
    u: Seq<int>,
    t: Transcript,
    s: int,
)
    requires
        fits(f, u),
        mercury::is_inverse(
            mercury::opening(bases, f, u, t).zeta,
            mercury::inverse(mercury::opening(bases, f, u, t).zeta),
        ),
    ensures
        ({
            let o = mercury::opening(bases, f, u, t);
            honest(bases, f, u, o).holds(
                s,
                values_at(committed_polys(f, u, o), s),
                u,
                multilinear_value(f, u),
                values_at(opened_quotients(o), s),
            )
        }),
{
    let o = mercury::opening(bases, f, u, t);
    let rc = honest(bases, f, u, o);
    let v = multilinear_value(f, u);
    let b = mercury::width(u.len());
    let l = values_at(committed_polys(f, u, o), s);
    let ql = values_at(opened_quotients(o), s);
    law_claims(bases, f, u, t);
    // the division at zeta
    let gz = zp::red(zx::eval(o.g, o.zeta));
    let num = mercury::numerator(f, b, o.alpha, o.zeta, o.q, gz);
    let k = zp::red(zp::red(pow(o.zeta, b as nat)) - o.alpha);
    law_numerator_vanishes(f, u, o.alpha, o.zeta);
    lemma_numerator_at(f, u, o.alpha, o.zeta, s);
    lemma_opening_divides(num, o.zeta, s);
    let (ef, eq, phi) = (l[0], l[3], l[6]);
    assert(phi == zx::eval(mercury::zeta_quotient(f, b, o), s));
    assert(mercury::opened_values(o)[0] == gz);
    let fa = rc.factors(u);
    let lo = seq![ef, eq, 1int, phi];
    zx::lemma_dot_four(fa, lo);
    assert(fa[0] == 1 && fa[1] == zp::red(0 - k) && fa[2] == zp::red(0 - gz) && fa[3] == o.zeta);
    zp::lemma_red(0 - k);
    zp::lemma_red(0 - gz);
    zp::lemma_same_mul(fa[1], 0 - k, eq, eq);
    assert((0 - k) * eq == -(k * eq)) by (nonlinear_arith);
    zp::lemma_same_add(ef, ef, fa[1] * eq, -(k * eq));
    zp::lemma_same_add(ef + fa[1] * eq, ef - k * eq, fa[2], 0 - gz);
    let n = zx::eval(num, s);
    assert(zp::same(n - 0, (s - o.zeta) * phi));
    zp::lemma_same_add(
        ef + fa[1] * eq + fa[2],
        (s - o.zeta) * phi,
        o.zeta * phi,
        o.zeta * phi,
    );
    assert((s - o.zeta) * phi + o.zeta * phi == s * phi) by (nonlinear_arith);
    assert(1 * ef == ef && fa[2] * 1 == fa[2]);
    assert(zx::dot(fa, lo) == ef + fa[1] * eq + fa[2] + o.zeta * phi);
    assert(zp::same(zx::dot(fa, seq![l[0], l[3], 1int, l[6]]), s * l[6]));
    // the openings
    let comms = seq![l[2], l[1], l[4], l[5]];
    let (pairs, vs) = (mercury::opened_indices(), mercury::opened_values(o));
    let (ps, zs) = (mercury::opened_polys(o), mercury::opened_points(o));
    assert forall|i: int| 0 <= i < pairs.len() implies zp::same(
        comms[(#[trigger] pairs[i]).0] - vs[i],
        (s - zs[pairs[i].1]) * ql[i],
    ) by {
        let c = ps[pairs[i].0];
        assert(comms[pairs[i].0] == zx::eval(c, s));
        assert(vs[i] == zp::red(zx::eval(c, zs[pairs[i].1])));
        assert(ql[i] == zx::eval(zx::red(zx::quotient(c, zs[pairs[i].1])), s));
        lemma_opening_divides(c, zs[pairs[i].1], s);
    }
    assert(rc.points() =~= zs);
}

/// No other value: the equations that a verifier checks do not hold of an opening for any
/// but the value of the polynomial at the point. The second challenge must have an inverse.
pub proof fn law_wrong_value(
    bases: Seq<(int, int)>,
    f: Seq<int>,
    u: Seq<int>,
    t: Transcript,
    s: int,
    v: int,
)
    requires
        fits(f, u),
        0 <= v < zp::modulus(),
        v != multilinear_value(f, u),
        mercury::is_inverse(
            mercury::opening(bases, f, u, t).zeta,
            mercury::inverse(mercury::opening(bases, f, u, t).zeta),
        ),
        mercury::is_inverse(
            mercury::opening(bases, f, u, t).gamma,
            mercury::inverse(mercury::opening(bases, f, u, t).gamma),
        ),
    ensures
        ({
            let o = mercury::opening(bases, f, u, t);
            !honest(bases, f, u, o).holds(
                s,
                values_at(committed_polys(f, u, o), s),
                u,
                v,
                values_at(opened_quotients(o), s),
            )
        }),
{
    let o = mercury::opening(bases, f, u, t);
    let rc = honest(bases, f, u, o);
    let l = values_at(committed_polys(f, u, o), s);
    let ql = values_at(opened_quotients(o), s);
    let w = multilinear_value(f, u);
    zp::lemma_red(zx::dot(f, cube::eq(u)));
    law_completeness(bases, f, u, t, s);
    if rc.holds(s, l, u, v, ql) {
        let (a, b) = (rc.claims(u, v), rc.claims(u, w));
        let pair = mercury::opened_indices()[7];
        let c = seq![l[2], l[1], l[4], l[5]][pair.0];
        let r = (s - rc.points()[pair.1]) * ql[7];
        assert(zp::same(c - a[7], r) && zp::same(c - b[7], r));
        zp::lemma_same_sub(c, c, c - a[7], c - b[7]);
        assert(c - (c - a[7]) == a[7] && c - (c - b[7]) == b[7]);
        assert(a[7] == rc.h_alpha(u, v) && b[7] == rc.h_alpha(u, w));
        let (z, y) = (rc.zeta, mercury::inverse(rc.zeta));
        let k = mercury::folded_vars(u.len()) as int;
        let (u1, u2) = (u.take(k), u.skip(k));
        let outer = rc.values[0] * cube::eq_at(u1, y) + rc.values[1] * cube::eq_at(u1, z);
        let inner = rc.values[2] * cube::eq_at(u2, y) + rc.values[3] * cube::eq_at(u2, z);
        let tail = z * rc.values[4] + y * rc.values[5];
        let x = mercury::inverse(2) * (outer + rc.gamma * inner - tail);
        let (p, q) = (rc.gamma * v, rc.gamma * w);
        zp::lemma_red(x - p);
        zp::lemma_red(x - q);
        assert(zp::same(x - p, x - q));
        zp::lemma_same_sub(x, x, x - p, x - q);
        assert(x - (x - p) == p && x - (x - q) == q);
        let i = mercury::inverse(rc.gamma);
        zp::lemma_same_mul(i, i, p, q);
        assert(i * p == (rc.gamma * i) * v) by (nonlinear_arith)
            requires
                p == rc.gamma * v,
        ;
        assert(i * q == (rc.gamma * i) * w) by (nonlinear_arith)
            requires
                q == rc.gamma * w,
        ;
        zp::lemma_modulus();
        zp::lemma_red(1);
        zp::lemma_same_mul(rc.gamma * i, 1, v, v);
        zp::lemma_same_mul(rc.gamma * i, 1, w, w);
        zp::lemma_red(v);
        zp::lemma_red(w);
    }
}

/// The commitments to the quotients of an opening.
pub open spec fn honest_quotients(bases: Seq<(int, int)>, o: Opening) -> Seq<(int, int)> {
    univariate::quotient_commitments(
        bases,
        mercury::opened_polys(o),
        mercury::opened_points(o),
        mercury::opened_indices(),
    )
}

proof fn lemma_two_points(t: Transcript, p: (int, int), q: (int, int))
    ensures
        univariate::with_points(t, seq![p]) == t.with_point(p),
        univariate::with_points(t, seq![p, q]) == t.with_point(p).with_point(q),
{
    assert(seq![p].drop_last() =~= Seq::empty());
    assert(seq![p, q].drop_last() =~= seq![p]);
    reveal_with_fuel(univariate::with_points, 3);
}

/// A verifier who stands where a prover stood before an opening reads back all that the
/// prover wrote, draws the same challenges, and then stands where the prover stood after it.
pub proof fn law_proof_read_back(
    bases: Seq<(int, int)>,
    f: Seq<int>,
    u: Seq<int>,
    t: Transcript,
    all: Seq<u8>,
)
    requires
        mercury::opening_committed(bases, f, u, mercury::opening(bases, f, u, t)),
        mercury::opening(bases, f, u, t).zeta != 0,
        mercury::opened(bases, f, u, t).written_in(all),
    ensures
        t.written_in(all),
        ({
            let o = mercury::opening(bases, f, u, t);
            let before = mercury::before_openings(bases, f, u, o);
            &&& mercury::received(t.reading(all)) == Ok::<(Received, Transcript), Error>(
                (honest(bases, f, u, o), before.reading(all)),
            )
            &&& univariate::next_points(8, before.reading(all)) == Ok::<
                (Seq<(int, int)>, Transcript),
                Error,
            >((honest_quotients(bases, o), mercury::opened(bases, f, u, t).reading(all)))
        }),
{
    let o = mercury::opening(bases, f, u, t);
    let rc = honest(bases, f, u, o);
    let t1 = t.with_point(rc.h);
    let t2 = t1.squeezed().with_point(rc.g).with_point(rc.q);
    let t3 = t2.squeezed().with_point(rc.s).with_point(rc.d);
    let t4 = mercury::with_scalars(o.transcript, rc.values);
    let t5 = t4.with_point(rc.phi);
    let (ps, zs, is) = (
        mercury::opened_polys(o),
        mercury::opened_points(o),
        mercury::opened_indices(),
    );
    let qs = honest_quotients(bases, o);
    univariate::lemma_opened(bases, ps, zs, is, t5);
    assert forall|i: int| 0 <= i < qs.len() implies curve::valid(#[trigger] qs[i]) by {
        let pair = is[i];
        assert(univariate::committed(bases, zx::red(zx::quotient(ps[is[i].0], zs[is[i].1]))));
    }
    univariate::law_points_read_back(t5, qs, all);
    lemma_two_points(t4, rc.phi, rc.phi);
    univariate::law_points_read_back(t4, seq![rc.phi], all);
    assert forall|i: int| 0 <= i < rc.values.len() implies 0 <= #[trigger] rc.values[i]
        < zp::modulus() by {
        let pair = is[i];
        zp::lemma_red(zx::eval(ps[pair.0], zs[pair.1]));
    }
    mercury::law_scalars_read_back(o.transcript, rc.values, all);
    assert(t3.written_in(all));
    lemma_two_points(t2.squeezed(), rc.s, rc.d);
    univariate::law_points_read_back(t2.squeezed(), seq![rc.s, rc.d], all);
    assert(t2.written_in(all));
    lemma_two_points(t1.squeezed(), rc.g, rc.q);
    univariate::law_points_read_back(t1.squeezed(), seq![rc.g, rc.q], all);
    assert(t1.written_in(all));
    lemma_two_points(t, rc.h, rc.h);
    univariate::law_points_read_back(t, seq![rc.h], all);
    assert(t1.reading(all).squeezed() == t1.squeezed().reading(all));
    assert(t2.reading(all).squeezed() == t2.squeezed().reading(all));
    assert(t3.reading(all).squeezed() == o.transcript.reading(all));
}

/// `reader` is where a verifier stands who is given the commitment `comm` to `f`, the value
/// of `f` at `u` and what a prover wrote who opened `f` at `u`, with the parameters `bases`
/// and `key` belonging to one secret. The commitment is the multiple of the generator by
/// the value of `f` at the secret.
pub open spec fn was_opened(
    bases: Seq<(int, int)>,
    key: univariate::VerifierKey,
    f: Seq<int>,
    comm: (int, int),
    u: Seq<int>,
    v: int,
    t: Transcript,
    all: Seq<u8>,
    reader: Transcript,
) -> bool {
    let o = mercury::opening(bases, f, u, t);
    &&& fits(f, u)
    &&& exists|s: int| #[trigger]
        univariate::powers_of(bases, s) && key.of(s) && comm == curve::g1(zx::eval(f, s))
    &&& v == multilinear_value(f, u)
    &&& o.zeta != 0
    &&& mercury::opening_committed(bases, f, u, o)
    &&& mercury::opened(bases, f, u, t).written_in(all)
    &&& reader == t.reading(all)
}

/// Completeness of the commitments: what a prover wrote are the multiples of the generator
/// by the values of the polynomials at the secret.
pub proof fn law_opened_multiples(
    bases: Seq<(int, int)>,
    f: Seq<int>,
    comm: (int, int),
    u: Seq<int>,
    o: Opening,
    s: int,
)
    requires
        univariate::powers_of(bases, s),
        comm == curve::g1(zx::eval(f, s)),
        mercury::opening_committed(bases, f, u, o),
    ensures
        honest(bases, f, u, o).are_multiples(
            comm,
            values_at(committed_polys(f, u, o), s),
        ),
        curve::are_multiples(honest_quotients(bases, o), values_at(opened_quotients(o), s)),
{
    let qs = honest_quotients(bases, o);
    let ql = values_at(opened_quotients(o), s);
    assert forall|i: int| 0 <= i < qs.len() implies #[trigger] qs[i] == curve::g1(ql[i]) by {
        let pair = mercury::opened_indices()[i];
        assert(univariate::committed(bases, opened_quotients(o)[i]));
    }
}

/// The polynomials of every opening, at all `x` and `y = 1/x`, where `b = 2^k` is the length
/// of a row and the first `k` variables of `u` are folded first:
/// `f(x) = (x^b - alpha) q(x) + g(x)`, where `g` has `b` coefficients;
/// `h(alpha)` is the value of `g` at the first variables of `u`, and `h` has at the others the
/// value of `f` at `u`; and `d(x) = x^(b-1) g(1/x)`, which shows the degree of `g`.
pub proof fn law_opening_polys(
    bases: Seq<(int, int)>,
    f: Seq<int>,
    u: Seq<int>,
    t: Transcript,
    x: int,
    y: int,
)
    requires
        u.len() >= 1,
        f.len() == pow2(u.len()),
        zp::same(x * y, 1),
    ensures
        ({
            let o = mercury::opening(bases, f, u, t);
            let k = u.len() / 2 + 1;
            let b = pow2(k as nat);
            &&& o.g.len() == b
            &&& o.d.len() == b
            &&& o.h.len() * b == f.len()
            &&& o.q.len() + b == f.len()
            &&& zp::same(
                zx::eval(f, x),
                (pow(x, b) - o.alpha) * zx::eval(o.q, x) + zx::eval(o.g, x),
            )
            &&& zp::same(zx::eval(o.h, o.alpha), zx::dot(o.g, cube::eq(u.take(k as int))))
            &&& zp::same(
                zx::dot(o.h, cube::eq(u.skip(k as int))),
                zx::dot(f, cube::eq(u)),
            )
            &&& zp::same(zx::eval(o.d, x), pow(x, (b - 1) as nat) * zx::eval(o.g, y))
        }),
{
    let o = mercury::opening(bases, f, u, t);
    let k = mercury::folded_vars(u.len());
    let b = mercury::width(u.len());
    let m = pow2((u.len() - k) as nat) as int;
    mercury::lemma_shape(u.len());
    let (u1, u2) = (u.take(k as int), u.skip(k as int));
    assert(u1 + u2 =~= u);
    zx::lemma_blocks(f.len() as int, b, m);
    law_division(f, u, o.alpha, x);
    law_reversal(f, u, o.alpha, x, y);
    law_folded_value(f, u, o.alpha);
    let e = cube::eq(u1);
    zx::lemma_red_same(e);
    assert(zx::same(o.g, o.g));
    cube::lemma_eq_len(u1);
    zx::lemma_dot_same(o.g, o.g, zx::red(e), e);
    cube::lemma_dot_rows(f, u1, u2);
    cube::lemma_eq_len(u2);
    let h = zx::by_rows(f, b, e);
    zx::lemma_red_same(h);
    assert(zx::same(cube::eq(u2), cube::eq(u2)));
    zx::lemma_dot_same(zx::red(h), h, cube::eq(u2), cube::eq(u2));
    assert(o.h.len() == m);
}

/// The polynomial `s` of every opening, at all `x` and `y = 1/x`:
/// `g(x) P(y) + g(y) P(x) + gamma (h(x) Q(y) + h(y) Q(x))` is
/// `2 (h(alpha) + gamma v) + x s(x) + y s(y)`, where `v` is the value of `f` at `u`, and `P` and
/// `Q` have as coefficients `eq` of the first and of the other variables of `u`.
pub proof fn law_opening_tail(
    bases: Seq<(int, int)>,
    f: Seq<int>,
    u: Seq<int>,
    t: Transcript,
    x: int,
    y: int,
)
    requires
        u.len() >= 1,
        f.len() == pow2(u.len()),
        zp::same(x * y, 1),
    ensures
        ({
            let o = mercury::opening(bases, f, u, t);
            let k = u.len() / 2 + 1;
            let (p, q) = (cube::eq(u.take(k as int)), cube::eq(u.skip(k as int)));
            let v = zx::dot(f, cube::eq(u));
            zp::same(
                zx::eval(o.g, x) * zx::eval(p, y) + zx::eval(o.g, y) * zx::eval(p, x) + o.gamma * (
                zx::eval(o.h, x) * zx::eval(q, y) + zx::eval(o.h, y) * zx::eval(q, x)),
                2 * (zx::eval(o.h, o.alpha) + o.gamma * v) + x * zx::eval(o.s, x) + y * zx::eval(
                    o.s,
                    y,
                ),
            )
        }),
{
    let o = mercury::opening(bases, f, u, t);
    let k = mercury::folded_vars(u.len()) as int;
    let (u1, u2) = (u.take(k), u.skip(k));
    law_inner_product(f, u, o.alpha, o.gamma, x, y);
    cube::lemma_eval_eq(u1, x);
    cube::lemma_eval_eq(u1, y);
    cube::lemma_eval_eq(u2, x);
    cube::lemma_eval_eq(u2, y);
    let (v, w) = (zx::dot(f, cube::eq(u)), multilinear_value(f, u));
    zp::lemma_red(v);
    let (ha, xs, ys) = (
        zx::eval(o.h, o.alpha),
        x * zx::eval(o.s, x),
        y * zx::eval(o.s, y),
    );
    zp::lemma_same_mul(o.gamma, o.gamma, w, v);
    zp::lemma_same_add(ha, ha, o.gamma * w, o.gamma * v);
    zp::lemma_same_mul(2, 2, ha + o.gamma * w, ha + o.gamma * v);
    zp::lemma_same_add(2 * (ha + o.gamma * w), 2 * (ha + o.gamma * v), xs, xs);
    zp::lemma_same_add(
        2 * (ha + o.gamma * w) + xs,
        2 * (ha + o.gamma * v) + xs,
        ys,
        ys,
    );
}

/// The quotient at `zeta` of every opening:
/// `(x - zeta) phi(x) = f(x) - (zeta^b - alpha) q(x) - g(zeta)`.
pub proof fn law_zeta_quotient(
    bases: Seq<(int, int)>,
    f: Seq<int>,
    u: Seq<int>,
    t: Transcript,
    x: int,
)
    requires
        u.len() >= 1,
        f.len() == pow2(u.len()),
    ensures
        ({
            let o = mercury::opening(bases, f, u, t);
            let b = pow2((u.len() / 2 + 1) as nat);
            let phi = mercury::zeta_quotient(f, b as int, o);
            zp::same(
                (x - o.zeta) * zx::eval(phi, x),
                zx::eval(f, x) - (pow(o.zeta, b) - o.alpha) * zx::eval(o.q, x) - zx::eval(
                    o.g,
                    o.zeta,
                ),
            )
        }),
{
    let o = mercury::opening(bases, f, u, t);
    let b = mercury::width(u.len());
    let gz = zp::red(zx::eval(o.g, o.zeta));
    let num = mercury::numerator(f, b, o.alpha, o.zeta, o.q, gz);
    let p = pow(o.zeta, b as nat);
    let k = zp::red(zp::red(p) - o.alpha);
    law_numerator_vanishes(f, u, o.alpha, o.zeta);
    lemma_numerator_at(f, u, o.alpha, o.zeta, x);
    lemma_opening_divides(num, o.zeta, x);
    zp::lemma_red(p);
    zp::lemma_same_sub(zp::red(p), p, o.alpha, o.alpha);
    zp::lemma_red(zp::red(p) - o.alpha);
    let (ef, eq) = (zx::eval(f, x), zx::eval(o.q, x));
    zp::lemma_same_mul(k, p - o.alpha, eq, eq);
    zp::lemma_same_sub(ef, ef, k * eq, (p - o.alpha) * eq);
    zp::lemma_red(zx::eval(o.g, o.zeta));
    zp::lemma_same_sub(
        ef - k * eq,
        ef - (p - o.alpha) * eq,
        gz,
        zx::eval(o.g, o.zeta),
    );
}

/// What is written in every opening, and in which order: the commitments to `h`; to `g` and
/// `q`; to `s` and `d`, each group before the challenge that is drawn after it; the values of
/// `g`, `h` and `s` at `zeta` and at its inverse; the commitment to the quotient at `zeta`;
/// and those to the quotients of the eight openings, the last two of which are `d` at `zeta`
/// and `h` at `alpha`.
pub proof fn law_opening_written(
    bases: Seq<(int, int)>,
    f: Seq<int>,
    u: Seq<int>,
    t: Transcript,
)
    ensures
        ({
            let o = mercury::opening(bases, f, u, t);
            let b = pow2((u.len() / 2 + 1) as nat) as int;
            let (z, y, a) = (o.zeta, mercury::inverse(o.zeta), o.alpha);
            let c = |p: Seq<int>| curve::g1_combination(p, bases.take(p.len() as int));
            let value = |p: Seq<int>, x: int| zp::red(zx::eval(p, x));
            let q = |p: Seq<int>, x: int| c(zx::red(zx::quotient(p, x)));
            let t1 = t.with_point(c(o.h));
            let t2 = t1.squeezed().with_point(c(o.g)).with_point(c(o.q));
            let t3 = t2.squeezed().with_point(c(o.s)).with_point(c(o.d));
            let t4 = t3.squeezed().with_scalar(value(o.g, z)).with_scalar(
                value(o.g, y),
            ).with_scalar(value(o.h, z)).with_scalar(value(o.h, y)).with_scalar(
                value(o.s, z),
            ).with_scalar(value(o.s, y));
            let t5 = t4.with_point(c(mercury::zeta_quotient(f, b, o)));
            &&& a == t1.challenge()
            &&& o.gamma == t2.challenge()
            &&& z == t3.challenge()
            &&& o.transcript == t3.squeezed()
            &&& mercury::opened(bases, f, u, t) == t5.with_point(q(o.g, z)).with_point(
                q(o.g, y),
            ).with_point(q(o.h, z)).with_point(q(o.h, y)).with_point(q(o.s, z)).with_point(
                q(o.s, y),
            ).with_point(q(o.d, z)).with_point(q(o.h, a))
        }),
{
    let o = mercury::opening(bases, f, u, t);
    let (z, y, a) = (o.zeta, mercury::inverse(o.zeta), o.alpha);
    let value = |p: Seq<int>, x: int| zp::red(zx::eval(p, x));
    let vs = mercury::opened_values(o).take(6);
    let six = seq![
        value(o.g, z),
        value(o.g, y),
        value(o.h, z),
        value(o.h, y),
        value(o.s, z),
        value(o.s, y),
    ];
    assert(vs =~= six);
    let v5 = six.drop_last();
    let v4 = v5.drop_last();
    let v3 = v4.drop_last();
    let v2 = v3.drop_last();
    let v1 = v2.drop_last();
    assert(v1.drop_last().len() == 0);
    reveal_with_fuel(mercury::with_scalars, 7);
    let before = mercury::before_openings(bases, f, u, o);
    let is = mercury::opened_indices();
    let qs = honest_quotients(bases, o);
    univariate::lemma_opened(
        bases,
        mercury::opened_polys(o),
        mercury::opened_points(o),
        is,
        before,
    );
    let q = |p: Seq<int>, x: int| univariate::commitment(bases, zx::red(zx::quotient(p, x)));
    let eight = seq![
        q(o.g, z),
        q(o.g, y),
        q(o.h, z),
        q(o.h, y),
        q(o.s, z),
        q(o.s, y),
        q(o.d, z),
        q(o.h, a),
    ];
    assert(qs =~= eight);
    let q7 = eight.drop_last();
    let q6 = q7.drop_last();
    let q5 = q6.drop_last();
    let q4 = q5.drop_last();
    let q3 = q4.drop_last();
    let q2 = q3.drop_last();
    let q1 = q2.drop_last();
    assert(q1.drop_last().len() == 0);
    reveal_with_fuel(univariate::with_points, 9);
}

proof fn lemma_points_absorbed(n: nat, t: Transcript, w: Transcript)
    requires
        t.absorbed == w.absorbed,
    ensures
        univariate::next_points(n, t) matches Ok((ps, t1)) ==> {
            &&& ps.len() == n
            &&& t1.absorbed == univariate::with_points(w, ps).absorbed
            &&& forall|i: int| 0 <= i < n ==> curve::on_curve(#[trigger] ps[i])
        },
    decreases n,
{
    if n > 0 {
        lemma_points_absorbed((n - 1) as nat, t, w);
        if let Ok((ps, t1)) = univariate::next_points(n, t) {
            let (before, _) = univariate::next_points((n - 1) as nat, t)->Ok_0;
            assert(ps.drop_last() =~= before);
            assert forall|i: int| 0 <= i < n implies curve::on_curve(#[trigger] ps[i]) by {
                if i < n - 1 {
                    assert(curve::on_curve(before[i]));
                }
            }
        }
    }
}

proof fn lemma_scalars_absorbed(n: nat, t: Transcript, w: Transcript)
    requires
        t.absorbed == w.absorbed,
    ensures
        mercury::next_scalars(n, t) matches Ok((vs, t1)) ==> {
            &&& vs.len() == n
            &&& t1.absorbed == mercury::with_scalars(w, vs).absorbed
            &&& forall|i: int| 0 <= i < n ==> 0 <= #[trigger] vs[i] < zp::modulus()
        },
    decreases n,
{
    if n > 0 {
        lemma_scalars_absorbed((n - 1) as nat, t, w);
        if let Ok((vs, t1)) = mercury::next_scalars(n, t) {
            let (before, t0) = mercury::next_scalars((n - 1) as nat, t)->Ok_0;
            assert(vs.drop_last() =~= before);
            crate::util::bytes::lemma_le_nat_bound(t0.proof.subrange(0, 32).reverse());
            assert forall|i: int| 0 <= i < n implies 0 <= #[trigger] vs[i] < zp::modulus() by {
                if i < n - 1 {
                    assert(0 <= before[i] < zp::modulus());
                }
            }
        }
    }
}

/// What a verifier draws from any proof: each challenge is the hash of all that was read
/// before it, in the order of `h`; `g` and `q`; `s` and `d`. All points are on the curve and
/// all values are field elements, and the last challenge is not zero.
pub proof fn law_received(t: Transcript, rc: Received, after: Transcript)
    requires
        mercury::received(t) == Ok::<(Received, Transcript), Error>((rc, after)),
    ensures
        ({
            let t1 = t.with_point(rc.h);
            let t2 = t1.squeezed().with_point(rc.g).with_point(rc.q);
            let t3 = t2.squeezed().with_point(rc.s).with_point(rc.d);
            &&& rc.alpha == t1.challenge()
            &&& rc.gamma == t2.challenge()
            &&& rc.zeta == t3.challenge()
            &&& rc.zeta != 0
            &&& after.absorbed == mercury::with_scalars(t3.squeezed(), rc.values).with_point(
                rc.phi,
            ).absorbed
        }),
        rc.values.len() == 6,
        forall|i: int| 0 <= i < 6 ==> 0 <= #[trigger] rc.values[i] < zp::modulus(),
        curve::on_curve(rc.h),
        curve::on_curve(rc.g),
        curve::on_curve(rc.q),
        curve::on_curve(rc.s),
        curve::on_curve(rc.d),
        curve::on_curve(rc.phi),
{
    let w1 = t.with_point(rc.h);
    let w2 = w1.squeezed().with_point(rc.g).with_point(rc.q);
    let w3 = w2.squeezed().with_point(rc.s).with_point(rc.d);
    let w4 = mercury::with_scalars(w3.squeezed(), rc.values);
    let (p1, t1) = univariate::next_points(1, t)->Ok_0;
    lemma_points_absorbed(1, t, t);
    assert(p1 =~= seq![rc.h]);
    lemma_two_points(t, rc.h, rc.h);
    let (p2, t2) = univariate::next_points(2, t1.squeezed())->Ok_0;
    lemma_points_absorbed(2, t1.squeezed(), w1.squeezed());
    assert(p2 =~= seq![rc.g, rc.q]);
    lemma_two_points(w1.squeezed(), rc.g, rc.q);
    let (p3, t3) = univariate::next_points(2, t2.squeezed())->Ok_0;
    lemma_points_absorbed(2, t2.squeezed(), w2.squeezed());
    assert(p3 =~= seq![rc.s, rc.d]);
    lemma_two_points(w2.squeezed(), rc.s, rc.d);
    lemma_scalars_absorbed(6, t3.squeezed(), w3.squeezed());
    let (vs, t4) = mercury::next_scalars(6, t3.squeezed())->Ok_0;
    lemma_points_absorbed(1, t4, w4);
    let (p5, t5) = univariate::next_points(1, t4)->Ok_0;
    assert(p5 =~= seq![rc.phi]);
    lemma_two_points(w4, rc.phi, rc.phi);
    assert(curve::on_curve(p1[0]) && curve::on_curve(p2[0]) && curve::on_curve(p2[1]));
    assert(curve::on_curve(p3[0]) && curve::on_curve(p3[1]) && curve::on_curve(p5[0]));
}

/// The inverse of a field element is the one element whose product with it is one.
pub proof fn law_inverse(z: int, y: int)
    requires
        0 <= y < zp::modulus(),
        zp::red(z * y) == 1,
    ensures
        mercury::inverse(z) == y,
{
    mercury::lemma_inverse(z, y);
}

/// What a verifier asks of a proof, for the secret `s` and points that are multiples of the
/// generator: `lf` that of the commitment, `lh, lg, lq, ls, ld, lphi` those of the proof and
/// `ql` those of the quotients. Each of `g`, `h` and `s` opens at `zeta` and at its inverse `y`
/// to the value that was read for it, `d` opens at `zeta` to `zeta^(b-1)` times the value of `g`
/// at `y`, `h` opens at `alpha` to what the inner product identity leaves for it with the
/// claimed value `v`, and `f - (zeta^b - alpha) q - g(zeta)` is divided by `phi`.
pub proof fn law_accepted_equations(
    rc: Received,
    s: int,
    l: Seq<int>,
    u: Seq<int>,
    v: int,
    ql: Seq<int>,
    y: int,
)
    requires
        u.len() >= 1,
        rc.values.len() == 6,
        0 <= y < zp::modulus(),
        zp::red(rc.zeta * y) == 1,
        l.len() == 7,
        ql.len() == 8,
    ensures
        rc.holds(s, l, u, v, ql) <==> {
            let k = u.len() / 2 + 1;
            let b = pow2(k as nat);
            let (z, a, vs) = (rc.zeta, rc.alpha, rc.values);
            let (lf, lh, lg, lq, ls, ld, lphi) = (l[0], l[1], l[2], l[3], l[4], l[5], l[6]);
            let (p, q) = (cube::eq(u.take(k as int)), cube::eq(u.skip(k as int)));
            let ha = lh - (s - a) * ql[7];
            &&& zp::same(lf - (pow(z, b) - a) * lq - vs[0], (s - z) * lphi)
            &&& zp::same(lg - vs[0], (s - z) * ql[0])
            &&& zp::same(lg - vs[1], (s - y) * ql[1])
            &&& zp::same(lh - vs[2], (s - z) * ql[2])
            &&& zp::same(lh - vs[3], (s - y) * ql[3])
            &&& zp::same(ls - vs[4], (s - z) * ql[4])
            &&& zp::same(ls - vs[5], (s - y) * ql[5])
            &&& zp::same(ld - pow(z, (b - 1) as nat) * vs[1], (s - z) * ql[6])
            &&& zp::same(
                vs[0] * zx::eval(p, y) + vs[1] * zx::eval(p, z) + rc.gamma * (vs[2] * zx::eval(
                    q,
                    y,
                ) + vs[3] * zx::eval(q, z)),
                2 * (ha + rc.gamma * v) + z * vs[4] + y * vs[5],
            )
        },
{
    let k = mercury::folded_vars(u.len());
    let b = mercury::width(u.len()) as nat;
    let (z, a, vs) = (rc.zeta, rc.alpha, rc.values);
    let (lf, lh, lg, lq, ls, ld, lphi) = (l[0], l[1], l[2], l[3], l[4], l[5], l[6]);
    mercury::lemma_inverse(z, y);
    let (u1, u2) = (u.take(k as int), u.skip(k as int));
    cube::lemma_eval_eq(u1, z);
    cube::lemma_eval_eq(u1, y);
    cube::lemma_eval_eq(u2, z);
    cube::lemma_eval_eq(u2, y);
    // the openings
    let (is, zs) = (mercury::opened_indices(), rc.points());
    let (ks, cs) = (rc.claims(u, v), seq![lg, lh, ls, ld]);
    assert(zs =~= seq![z, y, a]);
    let eqs = univariate::all_divide(s, cs, zs, is, ks, ql);
    let dz = rc.d_zeta(u);
    let ha = rc.h_alpha(u, v);
    assert(ks =~= vs + seq![dz, ha]);
    let listed = {
        &&& zp::same(lg - vs[0], (s - z) * ql[0])
        &&& zp::same(lg - vs[1], (s - y) * ql[1])
        &&& zp::same(lh - vs[2], (s - z) * ql[2])
        &&& zp::same(lh - vs[3], (s - y) * ql[3])
        &&& zp::same(ls - vs[4], (s - z) * ql[4])
        &&& zp::same(ls - vs[5], (s - y) * ql[5])
        &&& zp::same(ld - dz, (s - z) * ql[6])
        &&& zp::same(lh - ha, (s - a) * ql[7])
    };
    assert(eqs ==> listed) by {
        if eqs {
            let (i0, i1, i2, i3) = (is[0], is[1], is[2], is[3]);
            let (i4, i5, i6, i7) = (is[4], is[5], is[6], is[7]);
        }
    }
    assert(listed ==> eqs) by {
        if listed {
            assert forall|i: int| 0 <= i < is.len() implies zp::same(
                cs[(#[trigger] is[i]).0] - ks[i],
                (s - zs[is[i].1]) * ql[i],
            ) by {
                assert(i == 0 || i == 1 || i == 2 || i == 3 || i == 4 || i == 5 || i == 6 || i == 7);
            }
        }
    }
    // the claim for d
    let dp = pow(z, (b - 1) as nat) * vs[1];
    zp::lemma_red(dp);
    zp::lemma_same_sub(ld, ld, dz, dp);
    // the claim for h
    let outer = vs[0] * cube::eq_at(u1, y) + vs[1] * cube::eq_at(u1, z);
    let inner = vs[2] * cube::eq_at(u2, y) + vs[3] * cube::eq_at(u2, z);
    let tail = z * vs[4] + y * vs[5];
    let total = outer + rc.gamma * inner - tail;
    lemma_half_claim(total, rc.gamma * v, ha, lh, (s - a) * ql[7]);
    let x = lh - (s - a) * ql[7];
    lemma_shift(outer + rc.gamma * inner, 2 * (x + rc.gamma * v), tail);
    // the division
    let f4 = rc.factors(u);
    let lo = seq![lf, lq, 1int, lphi];
    zx::lemma_dot_four(f4, lo);
    let p = pow(z, b);
    let kk = zp::red(zp::red(p) - a);
    zp::lemma_red(p);
    zp::lemma_same_sub(zp::red(p), p, a, a);
    zp::lemma_red(zp::red(p) - a);
    zp::lemma_red(0 - kk);
    zp::lemma_red(0 - vs[0]);
    zp::lemma_same_sub(0, 0, kk, p - a);
    zp::lemma_same_mul(f4[1], 0 - (p - a), lq, lq);
    assert((0 - (p - a)) * lq == -((p - a) * lq)) by (nonlinear_arith);
    zp::lemma_same_add(lf, lf, f4[1] * lq, -((p - a) * lq));
    zp::lemma_same_add(lf + f4[1] * lq, lf - (p - a) * lq, f4[2], 0 - vs[0]);
    let n = lf - (p - a) * lq - vs[0];
    zp::lemma_same_add(lf + f4[1] * lq + f4[2], n, z * lphi, z * lphi);
    let d = zx::dot(f4, lo);
    lemma_mul_basics(lf);
    lemma_mul_basics(f4[2]);
    assert(f4[0] == 1 && f4[3] == z);
    assert(d == lf + f4[1] * lq + f4[2] + z * lphi);
    assert(zp::same(d, n + z * lphi));
    assert((s - z) * lphi == s * lphi - z * lphi) by (nonlinear_arith);
    lemma_shift(n + z * lphi, s * lphi, z * lphi);
    lemma_shift_back(n, (s - z) * lphi, z * lphi);
}

/// Equal numbers stay so when the same is taken away, and were so if they are then.
proof fn lemma_shift(a: int, b: int, c: int)
    ensures
        zp::same(a - c, b) <==> zp::same(a, b + c),
{
    if zp::same(a - c, b) {
        zp::lemma_same_add(a - c, b, c, c);
    }
    if zp::same(a, b + c) {
        zp::lemma_same_sub(a, b + c, c, c);
    }
}

proof fn lemma_shift_back(a: int, b: int, c: int)
    ensures
        zp::same(a, b) <==> zp::same(a + c, b + c),
{
    if zp::same(a, b) {
        zp::lemma_same_add(a, b, c, c);
    }
    if zp::same(a + c, b + c) {
        zp::lemma_same_sub(a + c, b + c, c, c);
    }
}

/// Half of `total` less `g` is what `r` and `l` differ by just if `total` is twice the rest.
proof fn lemma_half_claim(total: int, g: int, ha: int, l: int, r: int)
    requires
        ha == zp::red(mercury::inverse(2) * total - g),
    ensures
        zp::same(l - ha, r) <==> zp::same(total, 2 * (l - r + g)),
{
    lemma_inverse_of_two();
    let half = mercury::inverse(2);
    zp::lemma_modulus();
    zp::lemma_red(1);
    zp::lemma_red(half * total - g);
    let w = l - r + g;
    if zp::same(l - ha, r) {
        zp::lemma_same_sub(l, l, l - ha, r);
        assert(l - (l - ha) == ha);
        zp::lemma_same_add(ha, l - r, g, g);
        zp::lemma_same_add(ha, half * total - g, g, g);
        assert(zp::same(half * total, w));
        zp::lemma_same_mul(2, 2, half * total, w);
        assert(2 * (half * total) == (2 * half) * total) by (nonlinear_arith);
        zp::lemma_same_mul(2 * half, 1, total, total);
    }
    if zp::same(total, 2 * w) {
        zp::lemma_same_mul(half, half, total, 2 * w);
        assert(half * (2 * w) == (2 * half) * w) by (nonlinear_arith);
        zp::lemma_same_mul(2 * half, 1, w, w);
        zp::lemma_same_sub(half * total, w, g, g);
        zp::lemma_same_sub(l, l, ha, l - r);
    }
}

/// The answer about a proof that can be read, for a key that belongs to the secret `s` and
/// points that are multiples of the generator, is whether what a verifier asks holds of them.
pub proof fn law_decided(
    key: univariate::VerifierKey,
    comm: (int, int),
    u: Seq<int>,
    v: int,
    t: Transcript,
    answer: bool,
    s: int,
    l: Seq<int>,
    ql: Seq<int>,
)
    requires
        mercury::decided_by_multiples(key, comm, u, v, t, answer),
        mercury::received(t) is Ok,
        univariate::next_points(8, mercury::received(t)->Ok_0.1) is Ok,
        key.g1 == curve::g1(1),
        key.g2 == curve::g2(1),
        key.s_g2 == curve::g2(s),
        ({
            let rc = mercury::received(t)->Ok_0.0;
            curve::are_multiples(seq![comm, rc.h, rc.g, rc.q, rc.s, rc.d, rc.phi], l)
        }),
        curve::are_multiples(
            univariate::next_points(8, mercury::received(t)->Ok_0.1)->Ok_0.0,
            ql,
        ),
    ensures
        answer <==> mercury::received(t)->Ok_0.0.holds(s, l, u, v, ql),
{
    let rc = mercury::received(t)->Ok_0.0;
    assert(key.of(s));
    assert(rc.are_multiples(comm, l));
}

/// What a verifier answers: why the proof could not be read, that it holds, or that it does
/// not.
pub proof fn law_verdict(
    key: univariate::VerifierKey,
    comm: (int, int),
    u: Seq<int>,
    v: int,
    t: Transcript,
)
    ensures
        ({
            let answer = mercury::verdict(key, comm, u, v, t);
            match mercury::received(t) {
                Err(e) => answer == Err::<(), Error>(e),
                Ok((rc, t1)) => match univariate::next_points(8, t1) {
                    Err(e) => answer == Err::<(), Error>(e),
                    Ok((qs, _)) => {
                        &&& answer is Ok || answer == Err::<(), Error>(Error::InvalidPcsOpen)
                        &&& answer is Ok <==> rc.accepted(key, comm, u, v, qs)
                    },
                },
            }
        }),
{
}

/// Opening succeeds for every polynomial that the parameters are enough for, unless the last
/// challenge has no inverse, and leaves all of the opening behind.
pub proof fn law_open_result(
    bases: Seq<(int, int)>,
    f: Seq<int>,
    u: Seq<int>,
    t: Transcript,
    r: Result<(), Error>,
    after: Transcript,
)
    requires
        mercury::open_result(bases, f, u, t, r, after),
    ensures
        f.len() > bases.len() ==> after == t && r == Err::<(), Error>(
            Error::TooLargeDegree {
                operation: crate::error::Operation::Open,
                upto: (bases.len() - 1) as usize,
                got: (f.len() - 1) as usize,
            },
        ),
        f.len() <= bases.len() && mercury::opening(bases, f, u, t).zeta == 0 ==> r == Err::<
            (),
            Error,
        >(Error::ZeroChallenge),
        f.len() <= bases.len() && mercury::opening(bases, f, u, t).zeta != 0 ==> r is Ok && after
            == mercury::opened(bases, f, u, t),
{
}

/// The commitments of every opening that succeeds are, for the powers of a secret, the
/// multiples of the generator by the values of the polynomials there.
pub proof fn law_opening_commitments(
    bases: Seq<(int, int)>,
    f: Seq<int>,
    u: Seq<int>,
    t: Transcript,
    r: Result<(), Error>,
    after: Transcript,
    s: int,
)
    requires
        mercury::open_result(bases, f, u, t, r, after),
        r is Ok,
        forall|i: int| 0 <= i < bases.len() ==> #[trigger] bases[i] == curve::g1(pow(s, i as nat)),
    ensures
        ({
            let o = mercury::opening(bases, f, u, t);
            let b = pow2((u.len() / 2 + 1) as nat) as int;
            let phi = mercury::zeta_quotient(f, b, o);
            let c = |p: Seq<int>| curve::g1_combination(p, bases.take(p.len() as int));
            &&& c(o.h) == curve::g1(zx::eval(o.h, s))
            &&& c(o.g) == curve::g1(zx::eval(o.g, s))
            &&& c(o.q) == curve::g1(zx::eval(o.q, s))
            &&& c(o.s) == curve::g1(zx::eval(o.s, s))
            &&& c(o.d) == curve::g1(zx::eval(o.d, s))
            &&& c(phi) == curve::g1(zx::eval(phi, s))
        }),
{
    assert(univariate::powers_of(bases, s));
}

/// What an opening that succeeded wrote, in any finished proof, is what `verify` takes with the
/// commitment to the polynomial and its value.
pub proof fn law_opening_is_accepted(
    bases: Seq<(int, int)>,
    key: univariate::VerifierKey,
    f: Seq<int>,
    u: Seq<int>,
    t: Transcript,
    r: Result<(), Error>,
    after: Transcript,
    all: Seq<u8>,
    s: int,
)
    requires
        u.len() >= 1,
        f.len() == pow2(u.len()),
        mercury::open_result(bases, f, u, t, r, after),
        r is Ok,
        all.len() >= after.proof.len(),
        all.take(after.proof.len() as int) == after.proof,
        forall|i: int| 0 <= i < bases.len() ==> #[trigger] bases[i] == curve::g1(pow(s, i as nat)),
        key.g1 == curve::g1(1),
        key.g2 == curve::g2(1),
        key.s_g2 == curve::g2(s),
    ensures
        was_opened(
            bases,
            key,
            f,
            curve::g1(zx::eval(f, s)),
            u,
            zp::red(zx::dot(f, cube::eq(u))),
            t,
            all,
            Transcript { absorbed: t.absorbed, proof: all.skip(t.proof.len() as int) },
        ),
{
    assert(univariate::powers_of(bases, s) && key.of(s));
    assert(all =~= after.proof + all.skip(after.proof.len() as int));
}

/// The polynomials `h` and `s` of every opening in full: entry `j` of `h` is the inner product
/// of row `j` of `f` with `eq` of the first variables of `u`, and `s` has one coefficient less
/// than a row. All coefficients are field elements.
pub proof fn law_opening_rows(
    bases: Seq<(int, int)>,
    f: Seq<int>,
    u: Seq<int>,
    t: Transcript,
    j: int,
)
    requires
        u.len() >= 1,
        f.len() == pow2(u.len()),
        0 <= j < pow2((u.len() - (u.len() / 2 + 1)) as nat),
    ensures
        ({
            let o = mercury::opening(bases, f, u, t);
            let k = u.len() / 2 + 1;
            let b = pow2(k as nat) as int;
            &&& o.h.len() == pow2((u.len() - k) as nat)
            &&& o.h[j] == zp::red(
                zx::dot(f.subrange(j * b, j * b + b), cube::eq(u.take(k as int))),
            )
            &&& o.s.len() == b - 1
            &&& o.g == zx::red(o.g)
            &&& o.q == zx::red(o.q)
            &&& o.s == zx::red(o.s)
            &&& o.d == zx::red(o.d)
        }),
{
    let o = mercury::opening(bases, f, u, t);
    let k = mercury::folded_vars(u.len());
    let b = mercury::width(u.len());
    let m = pow2((u.len() - k) as nat) as int;
    mercury::lemma_shape(u.len());
    zx::lemma_blocks(f.len() as int, b, m);
    cube::lemma_eq_len(u.take(k as int));
    lemma_red_red(zx::by_columns(f, b, o.alpha));
    lemma_red_red(zx::block_quotient(f, b, o.alpha));
    lemma_red_red(
        steps::batched_tail(
            o.g,
            mercury::column_weights(u),
            o.gamma,
            zx::pad(o.h, b as nat),
            mercury::row_weights(u),
        ),
    );
    assert(o.d =~= zx::red(o.d)) by {
        assert forall|i: int| 0 <= i < o.d.len() implies o.d[i] == zp::red(o.d[i]) by {
            assert(zx::red(o.g)[b - 1 - i] == o.g[b - 1 - i]);
        }
    }
}

proof fn lemma_red_red(c: Seq<int>)
    ensures
        zx::red(zx::red(c)) == zx::red(c),
{
    assert forall|i: int| 0 <= i < c.len() implies zp::red(zp::red(c[i])) == zp::red(c[i]) by {
        zp::lemma_red(c[i]);
        zp::lemma_red(zp::red(c[i]));
    }
    assert(zx::red(zx::red(c)) =~= zx::red(c));
}

proof fn lemma_dot_indicator(f: Seq<int>, e: Seq<int>, j: int)
    requires
        f.len() == e.len(),
        forall|k: int| 0 <= k < e.len() ==> #[trigger] e[k] == (if k == j { 1int } else { 0 }),
    ensures
        zx::dot(f, e) == (if 0 <= j < f.len() { f[j] } else { 0 }),
    decreases f.len(),
{
    if f.len() > 0 {
        let (f1, e1) = (f.skip(1), e.skip(1));
        assert forall|k: int| 0 <= k < e1.len() implies #[trigger] e1[k] == (if k == j - 1 {
            1int
        } else {
            0
        }) by {
            assert(e[k + 1] == (if k + 1 == j { 1int } else { 0 }));
        }
        lemma_dot_indicator(f1, e1, j - 1);
        lemma_mul_basics(f[0]);
        assert(e[0] == (if 0 == j { 1int } else { 0 }));
    }
}

/// A multilinear polynomial takes the values of its table on the cube: entry `j` at the point
/// whose coordinates are the bits of `j`, least significant first.
pub proof fn law_value_on_cube(f: Seq<int>, u: Seq<int>, j: int)
    requires
        f.len() == pow2(u.len()),
        0 <= j < f.len(),
        forall|i: int| 0 <= i < u.len() ==> #[trigger] u[i] == j / (pow2(i as nat) as int) % 2,
    ensures
        multilinear_value(f, u) == zp::red(f[j]),
        zx::dot(f, cube::eq(u)) == f[j],
{
    let e = cube::eq(u);
    cube::lemma_eq_len(u);
    assert forall|k: int| 0 <= k < e.len() implies #[trigger] e[k] == (if k == j {
        1int
    } else {
        0
    }) by {
        cube::law_eq_on_cube(u, k, j);
    }
    lemma_dot_indicator(f, e, j);
}

/// The value of a multilinear polynomial is the sum of its table, each entry `k` weighed with
/// the product over the bits of `k` of a coordinate or one less it.
pub proof fn law_multilinear_value(f: Seq<int>, u: Seq<int>)
    requires
        f.len() == pow2(u.len()),
    ensures
        multilinear_value(f, u) == zp::red(
            zx::dot(f, Seq::new(f.len(), |k: int| cube::bit_product(u, k, u.len()))),
        ),
{
    let e = cube::eq(u);
    cube::lemma_eq_len(u);
    let w = Seq::new(f.len(), |k: int| cube::bit_product(u, k, u.len()));
    assert forall|k: int| 0 <= k < f.len() implies e[k] == w[k] by {
        cube::law_eq_entry(u, k);
    }
    assert(e =~= w);
}

} // verus!
