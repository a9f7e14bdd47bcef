//! Roots of unity of power-of-two order, and the sums behind the Fourier transform.
use crate::poly::zx;
use crate::util::zp;
#[allow(unused_imports)]
use vstd::arithmetic::div_mod::*;
#[allow(unused_imports)]
use vstd::arithmetic::mul::*;
#[allow(unused_imports)]
use vstd::arithmetic::power::*;
#[allow(unused_imports)]
use vstd::arithmetic::power2::*;
use vstd::prelude::*;

verus! {

/// `w` has multiplicative order `2^k`: its `2^(k-1)`-th power is `-1`.
pub open spec fn primitive(w: int, k: nat) -> bool {
    if k == 0 {
        zp::same(w, 1)
    } else {
        zp::same(pow(w, pow2((k - 1) as nat)), -1)
    }
}

/// `1 + X + .. + X^(n-1)`.
pub open spec fn ones(n: nat) -> Seq<int> {
    Seq::new(n, |i: int| 1int)
}

/// The values of `c` at the first `n` powers of `w`.
pub open spec fn transform(c: Seq<int>, w: int, n: nat) -> Seq<int> {
    Seq::new(n, |j: int| zx::eval(c, pow(w, j as nat)))
}

pub proof fn lemma_pow_square(w: int, e: nat)
    ensures
        pow(w * w, e) == pow(w, 2 * e),
        pow(w * w, e) == pow(w, e) * pow(w, e),
{
    lemma_square_is_pow2(w);
    assert(pow(w, 2) == w * w);
    lemma_pow_multiplies(w, 2, e);
    lemma_pow_distributes(w, w, e);
}

/// The square of a root of order `2^k` has order `2^(k-1)`.
pub proof fn lemma_primitive_square(w: int, k: nat)
    requires
        k > 0,
        primitive(w, k),
    ensures
        primitive(w * w, (k - 1) as nat),
{
    if k == 1 {
        lemma2_to64();
        lemma_pow1(w);
        zp::lemma_same_mul(w, -1, w, -1);
    } else {
        lemma_pow2_unfold((k - 1) as nat);
        lemma_pow_square(w, pow2((k - 2) as nat));
    }
}

pub proof fn lemma_primitive_same(v: int, w: int, k: nat)
    requires
        zp::same(v, w),
        primitive(v, k),
    ensures
        primitive(w, k),
{
    if k > 0 {
        zp::lemma_same_pow(v, w, pow2((k - 1) as nat));
    }
}

proof fn lemma_pow_minus_one(d: nat)
    ensures
        pow(-1, d) == if d % 2 == 0 { 1int } else { -1int },
    decreases d,
{
    reveal(pow);
    if d > 0 {
        lemma_pow_minus_one((d - 1) as nat);
    }
}

/// `w^(d * 2^(k-1))` is `1` or `-1` with the parity of `d`.
pub proof fn lemma_half_power(w: int, k: nat, d: nat)
    requires
        k > 0,
        primitive(w, k),
    ensures
        zp::same(pow(pow(w, d), pow2((k - 1) as nat)), if d % 2 == 0 { 1int } else { -1int }),
{
    let h = pow2((k - 1) as nat);
    lemma_pow_multiplies(w, d, h);
    lemma_pow_multiplies(w, h, d);
    assert(d * h == h * d) by (nonlinear_arith);
    zp::lemma_same_pow(pow(w, h), -1, d);
    lemma_pow_minus_one(d);
}

/// `w^n = 1` for `n = 2^k`.
pub proof fn lemma_full_power(w: int, k: nat)
    requires
        primitive(w, k),
    ensures
        zp::same(pow(w, pow2(k)), 1),
{
    if k == 0 {
        lemma2_to64();
        lemma_pow1(w);
    } else {
        lemma_pow2_unfold(k);
        let h = pow2((k - 1) as nat);
        lemma_pow_adds(w, h, h);
        zp::lemma_same_mul(pow(w, h), -1, pow(w, h), -1);
    }
}

proof fn lemma_ones_double(n: nat, z: int)
    ensures
        zx::eval(ones(2 * n), z) == zx::eval(ones(n), z) + pow(z, n) * zx::eval(ones(n), z),
{
    assert(ones(2 * n) =~= ones(n) + ones(n));
    zx::lemma_eval_concat(ones(n), ones(n), z);
}

proof fn lemma_ones_at_one(n: nat, z: int)
    requires
        zp::same(z, 1),
    ensures
        zp::same(zx::eval(ones(n), z), n as int),
    decreases n,
{
    if n > 0 {
        lemma_ones_at_one((n - 1) as nat, z);
        assert(ones(n).skip(1) =~= ones((n - 1) as nat));
        let e = zx::eval(ones((n - 1) as nat), z);
        zp::lemma_same_mul(z, 1, e, n - 1);
        zp::lemma_same_add(1, 1, z * e, n - 1);
    }
}

/// The powers of a non-trivial root sum to zero.
proof fn lemma_ones_vanish(w: int, k: nat, d: nat)
    requires
        primitive(w, k),
        d % pow2(k) != 0,
    ensures
        zp::same(zx::eval(ones(pow2(k)), pow(w, d)), 0),
    decreases k,
{
    lemma2_to64();
    if k == 0 {
    } else {
        let h = pow2((k - 1) as nat);
        lemma_pow2_unfold(k);
        let z = pow(w, d);
        lemma_ones_double(h, z);
        lemma_half_power(w, k, d);
        let e = zx::eval(ones(h), z);
        if d % 2 == 0 {
            let d1 = (d / 2) as nat;
            lemma_primitive_square(w, k);
            lemma_pow_square(w, d1);
            lemma_pow2_pos((k - 1) as nat);
            assert(d1 % h != 0) by {
                if d1 % h == 0 {
                    lemma_fundamental_div_mod(d1 as int, h as int);
                    let t = d1 as int / h as int;
                    assert(2 * (h * t) == (2 * h) * t) by (nonlinear_arith);
                    lemma_mod_multiples_basic(t, 2 * h as int);
                    lemma_mul_is_commutative(t, 2 * h as int);
                    assert(d == (2 * h) * t);
                }
            }
            lemma_ones_vanish(w * w, (k - 1) as nat, d1);
            assert(zp::same(e, 0));
            zp::lemma_same_mul(pow(z, h), 1, e, 0);
            zp::lemma_same_add(e, 0, pow(z, h) * e, 0);
        } else {
            zp::lemma_same_mul(pow(z, h), -1, e, e);
            zp::lemma_same_add(e, e, pow(z, h) * e, -1 * e);
        }
    }
}

proof fn lemma_eval_scaled(v: Seq<int>, w: int, y: int)
    ensures
        zx::eval(Seq::new(v.len(), |j: int| pow(w, j as nat) * v[j]), y) == zx::eval(v, w * y),
    decreases v.len(),
{
    if v.len() > 0 {
        let s = Seq::new(v.len(), |j: int| pow(w, j as nat) * v[j]);
        let v1 = v.skip(1);
        let s1 = Seq::new(v1.len(), |j: int| pow(w, j as nat) * v1[j]);
        lemma_eval_scaled(v1, w, y);
        let z = Seq::new(v1.len(), |i: int| 0int);
        assert(s.skip(1) =~= zx::axpy(z, w, s1)) by {
            assert forall|j: int| 0 <= j < v1.len() implies s.skip(1)[j] == 0 + w * s1[j] by {
                reveal(pow);
                assert(pow(w, (j + 1) as nat) == w * pow(w, j as nat));
                lemma_mul_is_associative(w, pow(w, j as nat), v1[j]);
            }
        }
        zx::lemma_eval_axpy(z, w, s1, y);
        zx::lemma_eval_zeros(v1.len(), y);
        lemma_pow0(w);
        let e = zx::eval(v1, w * y);
        assert(zx::eval(s, y) == s[0] + y * (w * e));
        assert(y * (w * e) == (w * y) * e) by (nonlinear_arith);
        assert(1 * v[0] == v[0]);
    }
}

/// Evaluating a transform at a root picks out one coefficient.
proof fn lemma_transform_at(c: Seq<int>, w: int, k: nat, e: nat, t: int, y: int)
    requires
        primitive(w, k),
        c.len() <= pow2(k),
        0 <= t < pow2(k),
        (t + e) % (pow2(k) as int) == 0,
        zp::same(y, pow(w, e)),
    ensures
        zp::same(zx::eval(transform(c, w, pow2(k)), y), pow2(k) * zx::at(c, t)),
    decreases c.len(),
{
    let n = pow2(k);
    lemma_pow2_pos(k);
    let v = transform(c, w, n);
    if c.len() == 0 {
        assert(v =~= Seq::new(n, |i: int| 0int));
        zx::lemma_eval_zeros(n, y);
        assert(n * 0 == 0);
    } else {
        let c1 = c.skip(1);
        let c0 = c[0];
        let v1 = transform(c1, w, n);
        let s1 = Seq::new(v1.len(), |j: int| pow(w, j as nat) * v1[j]);
        lemma_eval_scaled(v1, w, y);
        assert(v =~= zx::axpy(s1, c0, ones(n))) by {
            assert forall|j: int| 0 <= j < n implies v[j] == s1[j] + c0 * 1 by {}
        }
        zx::lemma_eval_axpy(s1, c0, ones(n), y);
        let g = zx::eval(ones(n), y);
        let r = zx::eval(v1, w * y);
        assert(zx::eval(v, y) == r + c0 * g);
        reveal(pow);
        assert(pow(w, e + 1) == w * pow(w, e));
        zp::lemma_same_mul(w, w, y, pow(w, e));
        zx::lemma_red_same(ones(n));
        assert(zx::same(ones(n), ones(n)));
        zx::lemma_eval_same(ones(n), ones(n), y, pow(w, e));
        if t == 0 {
            assert((n - 1) + (e + 1) == e + n);
            lemma_mod_add_multiples_vanish(e as int, n as int);
            lemma_transform_at(c1, w, k, e + 1, n - 1, w * y);
            assert(zx::at(c1, n - 1) == 0);
            assert(n * 0 == 0);
            lemma_fundamental_div_mod(e as int, n as int);
            let q = (e as int / n as int) as nat;
            lemma_div_pos_is_pos(e as int, n as int);
            assert(e == n * q);
            lemma_pow_multiplies(w, n, q);
            lemma_full_power(w, k);
            zp::lemma_same_pow(pow(w, n), 1, q);
            lemma1_pow(q);
            lemma_ones_at_one(n, y);
            zp::lemma_same_mul(c0, c0, g, n as int);
            zp::lemma_same_add(r, 0, c0 * g, c0 * n);
            lemma_mul_is_commutative(c0, n as int);
        } else {
            assert((t - 1) + (e + 1) == t + e);
            lemma_transform_at(c1, w, k, e + 1, t - 1, w * y);
            assert(zx::at(c1, t - 1) == zx::at(c, t));
            assert(e % n != 0) by {
                if e % n == 0 {
                    lemma_add_mod_noop(t, e as int, n as int);
                    lemma_small_mod(t as nat, n);
                }
            }
            lemma_ones_vanish(w, k, e);
            zp::lemma_same_mul(c0, c0, g, 0);
            assert(c0 * 0 == 0);
            let m = n * zx::at(c, t);
            zp::lemma_same_add(r, m, c0 * g, 0);
        }
    }
}

/// The inverse transform: evaluating the transform of `c` at the powers of `1/w`
/// gives `n` times the coefficients of `c`.
pub proof fn lemma_inverse_transform(c: Seq<int>, v: Seq<int>, w: int, winv: int, k: nat, i: int)
    requires
        primitive(w, k),
        zp::same(w * winv, 1),
        c.len() == pow2(k),
        zx::same(v, transform(c, w, pow2(k))),
        0 <= i < pow2(k),
    ensures
        zp::same(zx::eval(v, pow(winv, i as nat)), pow2(k) * c[i]),
{
    let n = pow2(k);
    lemma_pow2_pos(k);
    let e = (n - i) as nat;
    let y = pow(winv, i as nat);
    lemma_mod_self_0(n as int);
    assert(zp::same(y, pow(w, e))) by {
        lemma_pow_adds(w, e, i as nat);
        lemma_full_power(w, k);
        assert(e + i as nat == n);
        lemma_pow_distributes(w, winv, i as nat);
        zp::lemma_same_pow(w * winv, 1, i as nat);
        lemma1_pow(i as nat);
        let (we, wi) = (pow(w, e), pow(w, i as nat));
        // w^e = w^e (w^i y) = (w^e w^i) y = y
        zp::lemma_same_mul(we, we, wi * y, 1);
        zp::lemma_same_mul(we * wi, 1, y, y);
        lemma_mul_is_associative(we, wi, y);
        assert(we * 1 == we && 1 * y == y);
    }
    lemma_transform_at(c, w, k, e, i, y);
    zx::lemma_eval_same(v, transform(c, w, n), y, y);
}

} // verus!
