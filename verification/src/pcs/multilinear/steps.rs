//! The polynomials that a Mercury opening is made of.
use crate::poly::fft::radix2_fft;
#[allow(unused_imports)]
use crate::poly::roots;
use crate::poly::univariate::{horner, horner_univariate_div};
#[allow(unused_imports)]
use crate::poly::zx;
#[allow(unused_imports)]
use crate::util::field;
use crate::util::field::Scalar;
#[allow(unused_imports)]
use crate::util::zp;
#[allow(unused_imports)]
use vstd::arithmetic::div_mod::*;
#[allow(unused_imports)]
use vstd::arithmetic::power::*;
#[allow(unused_imports)]
use vstd::arithmetic::power2::*;
use vstd::prelude::*;

verus! {

/// The columns of `f`, read as rows of `b` entries.
fn columns(f: &Vec<Scalar>, b: usize, m: usize) -> (r: Vec<Vec<Scalar>>)
    requires
        b > 0,
        f.len() == m * b,
    ensures
        r.len() == b,
        forall|i: int|
            0 <= i < b ==> field::values((#[trigger] r@[i])@) == zx::column(
                field::values(f@),
                b as int,
                i,
            ),
{
    let ghost c = field::values(f@);
    proof {
        zx::lemma_blocks(f.len() as int, b as int, m as int);
    }
    let mut r: Vec<Vec<Scalar>> = Vec::new();
    for i in 0..b
        invariant
            b > 0,
            f.len() == m * b,
            c == field::values(f@),
            c.len() as int / b as int == m,
            r.len() == i,
            forall|k: int|
                0 <= k < i ==> field::values((#[trigger] r@[k])@) == zx::column(c, b as int, k),
    {
        let mut column: Vec<Scalar> = Vec::new();
        for j in 0..m
            invariant
                i < b,
                f.len() == m * b,
                c == field::values(f@),
                c.len() as int / b as int == m,
                column.len() == j,
                forall|k: int| 0 <= k < j ==> #[trigger] column@[k]@ == c[k * b + i],
        {
            proof {
                zx::lemma_block_index(j as int, b as int, i as int, m as int);
            }
            column.push(f[j * b + i]);
        }
        assert(field::values(column@) =~= zx::column(c, b as int, i as int));
        r.push(column);
    }
    r
}

/// Divides `f` by `X^b - alpha`: the remainder and the quotient.
pub fn divide(f: &Vec<Scalar>, b: usize, m: usize, alpha: &Scalar) -> (r: (
    Vec<Scalar>,
    Vec<Scalar>,
))
    requires
        b > 0,
        m > 0,
        f.len() == m * b,
    ensures
        field::values(r.0@) == zx::red(zx::by_columns(field::values(f@), b as int, alpha@)),
        field::values(r.1@) == zx::red(zx::block_quotient(field::values(f@), b as int, alpha@)),
        r.0.len() == b,
{
    let ghost c = field::values(f@);
    proof {
        zx::lemma_blocks(f.len() as int, b as int, m as int);
    }
    let f_is = columns(f, b, m);
    let mut g: Vec<Scalar> = Vec::new();
    let mut q_is: Vec<Vec<Scalar>> = Vec::new();
    for i in 0..b
        invariant
            c == field::values(f@),
            f_is.len() == b,
            forall|k: int|
                0 <= k < b ==> field::values((#[trigger] f_is@[k])@) == zx::column(
                    c,
                    b as int,
                    k,
                ),
            g.len() == i,
            q_is.len() == i,
            forall|k: int|
                0 <= k < i ==> #[trigger] g@[k]@ == zp::red(
                    zx::eval(zx::column(c, b as int, k), alpha@),
                ),
            forall|k: int|
                0 <= k < i ==> field::values((#[trigger] q_is@[k])@) == zx::red(
                    zx::quotient(zx::column(c, b as int, k), alpha@),
                ),
    {
        g.push(horner(&f_is[i], alpha));
        q_is.push(horner_univariate_div(&f_is[i], alpha));
    }
    let ghost target = zx::red(zx::block_quotient(c, b as int, alpha@));
    let mut q: Vec<Scalar> = Vec::new();
    proof {
        assert(0 * b == 0);
    }
    for j in 0..m - 1
        invariant
            b > 0,
            m > 0,
            c.len() == m * b,
            c.len() as int / b as int == m,
            c.len() - b == (m - 1) * b,
            q_is.len() == b,
            target == zx::red(zx::block_quotient(c, b as int, alpha@)),
            forall|k: int|
                0 <= k < b ==> field::values((#[trigger] q_is@[k])@) == zx::red(
                    zx::quotient(zx::column(c, b as int, k), alpha@),
                ),
            q.len() == j * b,
            forall|k: int| 0 <= k < q.len() ==> #[trigger] q@[k]@ == target[k],
    {
        for i in 0..b
            invariant
                b > 0,
                j < m - 1,
                c.len() == m * b,
                c.len() as int / b as int == m,
                c.len() - b == (m - 1) * b,
                q_is.len() == b,
                target == zx::red(zx::block_quotient(c, b as int, alpha@)),
                forall|k: int|
                    0 <= k < b ==> field::values((#[trigger] q_is@[k])@) == zx::red(
                        zx::quotient(zx::column(c, b as int, k), alpha@),
                    ),
                q.len() == j * b + i,
                forall|k: int| 0 <= k < q.len() ==> #[trigger] q@[k]@ == target[k],
        {
            let ghost col = zx::column(c, b as int, i as int);
            proof {
                zx::lemma_block_index(j as int, b as int, i as int, m - 1);
                assert(field::values(q_is@[i as int]@).len() == m - 1);
                assert(field::values(q_is@[i as int]@)[j as int] == q_is@[i as int]@[j as int]@);
            }
            q.push(q_is[i][j]);
        }
        proof {
            zx::lemma_block_index(j as int, b as int, 0, m - 1);
        }
    }
    assert(field::values(g@) =~= zx::red(zx::by_columns(c, b as int, alpha@)));
    assert(field::values(q@) =~= target);
    (g, q)
}

/// The coefficients in reverse order.
pub fn reversed(a: &Vec<Scalar>) -> (r: Vec<Scalar>)
    ensures
        field::values(r@) == field::values(a@).reverse(),
        r.len() == a.len(),
{
    let n: usize = a.len();
    let mut r: Vec<Scalar> = Vec::new();
    for i in 0..n
        invariant
            n == a.len(),
            r.len() == i,
            forall|k: int| 0 <= k < i ==> #[trigger] r@[k] == a@[n - 1 - k],
    {
        r.push(a[n - 1 - i]);
    }
    assert(field::values(r@) =~= field::values(a@).reverse());
    r
}

/// The coefficients with zeros appended up to length `n`.
pub fn padded(a: &Vec<Scalar>, n: usize) -> (r: Vec<Scalar>)
    requires
        a.len() <= n,
    ensures
        field::values(r@) == zx::pad(field::values(a@), n as nat),
        r.len() == n,
{
    let mut r: Vec<Scalar> = Vec::new();
    for i in 0..n
        invariant
            r.len() == i,
            forall|k: int|
                0 <= k < i ==> (#[trigger] r@[k])@ == zx::pad(field::values(a@), n as nat)[k],
    {
        if i < a.len() {
            r.push(a[i]);
        } else {
            r.push(Scalar::zero());
        }
    }
    assert(field::values(r@) =~= zx::pad(field::values(a@), n as nat));
    r
}

/// The coefficients of `X^(b-1) (a(X) p(1/X) + a(1/X) p(X))`, `2 b` of them.
pub open spec fn symmetric(a: Seq<int>, p: Seq<int>) -> Seq<int> {
    let n = 2 * a.len();
    zx::axpy(zx::product(a, p.reverse(), n), 1, zx::product(p, a.reverse(), n))
}

/// The values of `X^(b-1) (a(X) p(1/X) + a(1/X) p(X))` at the powers of `omega`.
fn symmetric_evals(a: &Vec<Scalar>, p: &Vec<Scalar>, omega: &Scalar, t: usize) -> (r: Vec<Scalar>)
    requires
        t < 28,
        a.len() == pow2(t as nat),
        p.len() == a.len(),
        roots::primitive(omega@, (t + 1) as nat),
        2 * a.len() <= usize::MAX,
    ensures
        r.len() == 2 * a.len(),
        zx::same(
            field::values(r@),
            roots::transform(
                symmetric(field::values(a@), field::values(p@)),
                omega@,
                pow2((t + 1) as nat),
            ),
        ),
{
    let b: usize = a.len();
    let n: usize = 2 * b;
    proof {
        lemma_pow2_unfold((t + 1) as nat);
    }
    let ghost (ca, cp) = (field::values(a@), field::values(p@));
    let a_rev = reversed(a);
    let p_rev = reversed(p);
    let a_evals = radix2_fft(&padded(a, n), omega, t + 1);
    let p_evals = radix2_fft(&padded(p, n), omega, t + 1);
    let a_rev_evals = radix2_fft(&padded(&a_rev, n), omega, t + 1);
    let p_rev_evals = radix2_fft(&padded(&p_rev, n), omega, t + 1);
    let ghost c = symmetric(ca, cp);
    let mut r: Vec<Scalar> = Vec::new();
    for j in 0..n
        invariant
            n == 2 * b,
            ca.len() == b,
            cp.len() == b,
            n == pow2((t + 1) as nat),
            c == symmetric(ca, cp),
            a_evals.len() == n,
            p_evals.len() == n,
            a_rev_evals.len() == n,
            p_rev_evals.len() == n,
            field::values(a_evals@) == zx::red(
                roots::transform(zx::pad(ca, n as nat), omega@, n as nat),
            ),
            field::values(p_evals@) == zx::red(
                roots::transform(zx::pad(cp, n as nat), omega@, n as nat),
            ),
            field::values(a_rev_evals@) == zx::red(
                roots::transform(zx::pad(ca.reverse(), n as nat), omega@, n as nat),
            ),
            field::values(p_rev_evals@) == zx::red(
                roots::transform(zx::pad(cp.reverse(), n as nat), omega@, n as nat),
            ),
            r.len() == j,
            forall|k: int|
                0 <= k < j ==> zp::same(
                    (#[trigger] r@[k])@,
                    zx::eval(c, pow(omega@, k as nat)),
                ),
    {
        let first = a_evals[j].times(&p_rev_evals[j]);
        let v = p_evals[j].mul_add(&a_rev_evals[j], &first);
        proof {
            let x = pow(omega@, j as nat);
            let k = j as int;
            assert(a_evals@[k]@ == field::values(a_evals@)[k]);
            assert(p_evals@[k]@ == field::values(p_evals@)[k]);
            assert(a_rev_evals@[k]@ == field::values(a_rev_evals@)[k]);
            assert(p_rev_evals@[k]@ == field::values(p_rev_evals@)[k]);
            zx::lemma_eval_pad(ca, n as nat, x);
            zx::lemma_eval_pad(cp, n as nat, x);
            zx::lemma_eval_pad(ca.reverse(), n as nat, x);
            zx::lemma_eval_pad(cp.reverse(), n as nat, x);
            let (ea, ep) = (zx::eval(ca, x), zx::eval(cp, x));
            let (ra, rp) = (zx::eval(ca.reverse(), x), zx::eval(cp.reverse(), x));
            zp::lemma_red(ea);
            zp::lemma_red(ep);
            zp::lemma_red(ra);
            zp::lemma_red(rp);
            zp::lemma_same_mul(a_evals@[k]@, ea, p_rev_evals@[k]@, rp);
            zp::lemma_same_mul(p_evals@[k]@, ep, a_rev_evals@[k]@, ra);
            zp::lemma_red(a_evals@[k]@ * p_rev_evals@[k]@);
            zp::lemma_same_add(p_evals@[k]@ * a_rev_evals@[k]@, ep * ra, first@, ea * rp);
            zp::lemma_red(p_evals@[k]@ * a_rev_evals@[k]@ + first@);
            zx::lemma_eval_product(ca, cp.reverse(), n as nat, x);
            zx::lemma_eval_product(cp, ca.reverse(), n as nat, x);
            zx::lemma_eval_axpy(
                zx::product(ca, cp.reverse(), n as nat),
                1,
                zx::product(cp, ca.reverse(), n as nat),
                x,
            );
        }
        r.push(v);
    }
    r
}

/// The coefficients of `X, X^2, ..` in
/// `g(X) p(1/X) + g(1/X) p(X) + gamma (h(X) q(1/X) + h(1/X) q(X))`.
pub open spec fn batched_tail(
    g: Seq<int>,
    p: Seq<int>,
    gamma: int,
    h: Seq<int>,
    q: Seq<int>,
) -> Seq<int> {
    zx::axpy(zx::cross_tail(g, p), gamma, zx::cross_tail(h, q))
}

proof fn lemma_upper_coefficient(a: Seq<int>, p: Seq<int>, k: int)
    requires
        a.len() == p.len(),
        1 <= k < a.len(),
    ensures
        symmetric(a, p)[a.len() - 1 + k] == zx::cross(a, p, k),
{
    zx::lemma_conv_reverse(a, p, 0, k);
    zx::lemma_conv_reverse(p, a, 0, k);
    assert(a.skip(0) =~= a);
    assert(p.skip(0) =~= p);
}

/// The upper half of the batched inner product polynomial, by Fourier transforms.
pub fn inner_product_tail(
    g: &Vec<Scalar>,
    p: &Vec<Scalar>,
    gamma: &Scalar,
    h: &Vec<Scalar>,
    q: &Vec<Scalar>,
    t: usize,
) -> (r: Vec<Scalar>)
    requires
        t < 28,
        g.len() == pow2(t as nat),
        p.len() == g.len(),
        h.len() == g.len(),
        q.len() == g.len(),
        2 * g.len() <= usize::MAX,
    ensures
        field::values(r@) == zx::red(
            batched_tail(
                field::values(g@),
                field::values(p@),
                gamma@,
                field::values(h@),
                field::values(q@),
            ),
        ),
{
    let ghost (cg, cp) = (field::values(g@), field::values(p@));
    let ghost (ch, cq) = (field::values(h@), field::values(q@));
    let b: usize = g.len();
    let n: usize = 2 * b;
    let ghost k1 = (t + 1) as nat;
    proof {
        lemma_pow2_unfold(k1);
        lemma_pow2_pos(t as nat);
    }
    let omega = Scalar::root_of_unity(t + 1);
    let lhs = symmetric_evals(g, p, &omega, t);
    let rhs = symmetric_evals(h, q, &omega, t);
    let ghost (c1, c2) = (symmetric(cg, cp), symmetric(ch, cq));
    let ghost c = zx::axpy(c1, gamma@, c2);
    let mut evals: Vec<Scalar> = Vec::new();
    for j in 0..n
        invariant
            n == pow2(k1),
            c1.len() == n,
            c2.len() == n,
            c == zx::axpy(c1, gamma@, c2),
            lhs.len() == n,
            rhs.len() == n,
            zx::same(field::values(lhs@), roots::transform(c1, omega@, n as nat)),
            zx::same(field::values(rhs@), roots::transform(c2, omega@, n as nat)),
            evals.len() == j,
            forall|k: int|
                0 <= k < j ==> zp::same(
                    (#[trigger] evals@[k])@,
                    zx::eval(c, pow(omega@, k as nat)),
                ),
    {
        let v = gamma.mul_add(&rhs[j], &lhs[j]);
        proof {
            let k = j as int;
            let x = pow(omega@, j as nat);
            assert(zp::same(
                field::values(lhs@)[k],
                roots::transform(c1, omega@, n as nat)[k],
            ));
            assert(zp::same(
                field::values(rhs@)[k],
                roots::transform(c2, omega@, n as nat)[k],
            ));
            zx::lemma_eval_axpy(c1, gamma@, c2, x);
            zp::lemma_same_mul(gamma@, gamma@, rhs@[k]@, zx::eval(c2, x));
            zp::lemma_same_add(
                gamma@ * rhs@[k]@,
                gamma@ * zx::eval(c2, x),
                lhs@[k]@,
                zx::eval(c1, x),
            );
            zp::lemma_red(gamma@ * rhs@[k]@ + lhs@[k]@);
        }
        evals.push(v);
    }
    proof {
        field::lemma_scalar_range(omega);
        lemma_primitive_nonzero(omega@, k1);
    }
    let omega_inv = omega.invert().unwrap();
    let n_inv = Scalar::pow2_inv(t + 1);
    proof {
        assert(zx::same(field::values(evals@), roots::transform(c, omega@, n as nat)));
        zp::lemma_modulus();
        zp::lemma_red(1);
        lemma_primitive_inverse(omega@, omega_inv@, k1);
    }
    let coeffs = radix2_fft(&evals, &omega_inv, t + 1);
    let mut r: Vec<Scalar> = Vec::new();
    let ghost target = batched_tail(cg, cp, gamma@, ch, cq);
    for i in 0..b - 1
        invariant
            b > 0,
            n == 2 * b,
            n == pow2(k1),
            cg.len() == b,
            cp.len() == b,
            ch.len() == b,
            cq.len() == b,
            c1 == symmetric(cg, cp),
            c2 == symmetric(ch, cq),
            c == zx::axpy(c1, gamma@, c2),
            c.len() == n,
            target == batched_tail(cg, cp, gamma@, ch, cq),
            roots::primitive(omega@, k1),
            zp::same(omega@ * omega_inv@, 1),
            zp::same(pow2(k1) * n_inv@, 1),
            evals.len() == n,
            zx::same(field::values(evals@), roots::transform(c, omega@, n as nat)),
            coeffs.len() == n,
            field::values(coeffs@) == zx::red(
                roots::transform(field::values(evals@), omega_inv@, n as nat),
            ),
            r.len() == i,
            forall|k: int| 0 <= k < i ==> (#[trigger] r@[k])@ == zp::red(target[k]),
    {
        let v = coeffs[b + i].times(&n_inv);
        proof {
            let k = b + i;
            let e = zx::eval(field::values(evals@), pow(omega_inv@, k as nat));
            assert(coeffs@[k]@ == field::values(coeffs@)[k]);
            zp::lemma_red(e);
            roots::lemma_inverse_transform(
                c,
                field::values(evals@),
                omega@,
                omega_inv@,
                k1,
                k,
            );
            let nn = pow2(k1) as int;
            let ck = c[k];
            zp::lemma_same_mul(coeffs@[k]@, nn * ck, n_inv@, n_inv@);
            zp::lemma_same_mul(nn * n_inv@, 1, ck, ck);
            assert((nn * ck) * n_inv@ == (nn * n_inv@) * ck) by (nonlinear_arith);
            lemma_upper_coefficient(cg, cp, i + 1);
            lemma_upper_coefficient(ch, cq, i + 1);
            assert(ck == target[i as int]);
        }
        r.push(v);
    }
    assert(field::values(r@) =~= zx::red(target));
    r
}

proof fn lemma_primitive_nonzero(w: int, k: nat)
    requires
        roots::primitive(w, k),
        0 <= w < zp::modulus(),
        k > 0,
    ensures
        w != 0,
{
    if w == 0 {
        let e = pow2((k - 1) as nat);
        lemma_pow2_pos((k - 1) as nat);
        lemma0_pow(e);
        zp::lemma_modulus();
        zp::lemma_red(0);
        lemma_mod_add_multiples_vanish(-1, zp::modulus());
        lemma_small_mod((zp::modulus() - 1) as nat, zp::modulus() as nat);
    }
}

/// The inverse of a root has the same order.
proof fn lemma_primitive_inverse(w: int, v: int, k: nat)
    requires
        roots::primitive(w, k),
        zp::same(w * v, 1),
        k > 0,
    ensures
        roots::primitive(v, k),
{
    let e = pow2((k - 1) as nat);
    lemma_pow_distributes(w, v, e);
    zp::lemma_same_pow(w * v, 1, e);
    lemma1_pow(e);
    let (a, b) = (pow(w, e), pow(v, e));
    // -b = a b = 1
    zp::lemma_same_mul(a, -1, b, b);
    zp::lemma_same_mul(-1, -1, -1 * b, 1);
    assert(-1 * (-1 * b) == b);
}

} // verus!
