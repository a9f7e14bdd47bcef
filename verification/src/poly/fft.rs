//! The radix-2 Fourier transform over the scalar field.
#[allow(unused_imports)]
use crate::poly::roots;
#[allow(unused_imports)]
use crate::poly::zx;
#[allow(unused_imports)]
use crate::util::field;
use crate::util::field::Scalar;
#[allow(unused_imports)]
use crate::util::zp;
#[allow(unused_imports)]
use vstd::arithmetic::power::*;
#[allow(unused_imports)]
use vstd::arithmetic::power2::*;
use vstd::prelude::*;

verus! {

/// The entries of `a` at even and at odd positions.
fn split(a: &Vec<Scalar>) -> (r: (Vec<Scalar>, Vec<Scalar>))
    requires
        a.len() % 2 == 0,
    ensures
        field::values(r.0@) == zx::column(field::values(a@), 2, 0),
        field::values(r.1@) == zx::column(field::values(a@), 2, 1),
        r.0.len() == a.len() / 2,
        r.1.len() == a.len() / 2,
{
    let half: usize = a.len() / 2;
    let mut evens: Vec<Scalar> = Vec::new();
    let mut odds: Vec<Scalar> = Vec::new();
    for i in 0..half
        invariant
            half == a.len() / 2,
            a.len() % 2 == 0,
            evens.len() == i,
            odds.len() == i,
            forall|j: int| 0 <= j < i ==> #[trigger] evens@[j] == a@[2 * j],
            forall|j: int| 0 <= j < i ==> #[trigger] odds@[j] == a@[2 * j + 1],
    {
        evens.push(a[2 * i]);
        odds.push(a[2 * i + 1]);
    }
    assert(field::values(evens@) =~= zx::column(field::values(a@), 2, 0));
    assert(field::values(odds@) =~= zx::column(field::values(a@), 2, 1));
    (evens, odds)
}

proof fn lemma_butterfly(a: Seq<int>, w: int, k: nat, j: nat, even: int, odd: int, t: int)
    requires
        k > 0,
        roots::primitive(w, k),
        a.len() == pow2(k),
        j < pow2((k - 1) as nat),
        zp::same(even, zx::eval(zx::column(a, 2, 0), pow(w * w, j))),
        zp::same(odd, zx::eval(zx::column(a, 2, 1), pow(w * w, j))),
        zp::same(t, pow(w, j)),
    ensures
        zp::same(even + t * odd, zx::eval(a, pow(w, j))),
        zp::same(even - t * odd, zx::eval(a, pow(w, j + pow2((k - 1) as nat)))),
{
    let h = pow2((k - 1) as nat);
    lemma_pow2_unfold(k);
    let (c0, c1) = (zx::column(a, 2, 0), zx::column(a, 2, 1));
    let x = pow(w, j);
    roots::lemma_pow_square(w, j);
    lemma_split(a, h as int, x);
    zp::lemma_same_mul(t, x, odd, zx::eval(c1, x * x));
    zp::lemma_same_add(even, zx::eval(c0, x * x), t * odd, x * zx::eval(c1, x * x));
    zp::lemma_same_sub(even, zx::eval(c0, x * x), t * odd, x * zx::eval(c1, x * x));
    let z = pow(w, j + h);
    lemma_pow_adds(w, j, h);
    zp::lemma_same_mul(x, x, pow(w, h), -1);
    assert(x * -1 == -x);
    assert(zp::same(z, -x));
    zx::lemma_red_same(a);
    assert(zx::same(a, a));
    zx::lemma_eval_same(a, a, z, -x);
    lemma_split(a, h as int, -x);
    assert((-x) * (-x) == x * x) by (nonlinear_arith);
    let o = zx::eval(c1, x * x);
    assert((-x) * o == -(x * o)) by (nonlinear_arith);
}

proof fn lemma_split(a: Seq<int>, h: int, x: int)
    requires
        h >= 0,
        a.len() == 2 * h,
    ensures
        zx::eval(a, x) == zx::eval(zx::column(a, 2, 0), x * x) + x * zx::eval(
            zx::column(a, 2, 1),
            x * x,
        ),
{
    assert(h * 2 == 2 * h);
    zx::lemma_eval_by_columns(a, 2, h, x);
    lemma_square_is_pow2(x);
    let s = zx::by_columns(a, 2, x * x);
    assert(pow(x, 2) == x * x);
    assert(zx::eval(s.skip(1).skip(1), x) == 0);
    assert(x * 0 == 0);
    assert(zx::eval(s.skip(1), x) == s[1]);
}

/// The Fourier transform: entry `j` of the result is the value at `omega^j` of the
/// polynomial with coefficients `a`.
pub fn radix2_fft(a: &Vec<Scalar>, omega: &Scalar, log_n: usize) -> (r: Vec<Scalar>)
    requires
        a.len() == pow2(log_n as nat),
        roots::primitive(omega@, log_n as nat),
    ensures
        field::values(r@) == zx::red(
            roots::transform(field::values(a@), omega@, pow2(log_n as nat)),
        ),
        r.len() == a.len(),
    decreases log_n,
{
    let ghost n = pow2(log_n as nat);
    let ghost c = field::values(a@);
    if log_n == 0 {
        proof {
            lemma2_to64();
            lemma_pow0(omega@);
            let out = zx::red(roots::transform(c, omega@, 1));
            assert(zx::eval(c.skip(1), 1) == 0);
            assert(zx::eval(c, 1) == c[0]);
            broadcast use field::lemma_scalar_range;
            zp::lemma_red(c[0]);
            assert(c =~= out);
        }
        let mut r: Vec<Scalar> = Vec::new();
        r.push(a[0]);
        assert(field::values(r@) =~= c);
        return r;
    }
    let ghost h = pow2((log_n - 1) as nat);
    proof {
        lemma_pow2_unfold(log_n as nat);
        roots::lemma_primitive_square(omega@, log_n as nat);
    }
    let omega_sq = omega.times(omega);
    proof {
        zp::lemma_red(omega@ * omega@);
        roots::lemma_primitive_same(omega@ * omega@, omega_sq@, (log_n - 1) as nat);
    }
    let (evens, odds) = split(a);
    let even = radix2_fft(&evens, &omega_sq, log_n - 1);
    let odd = radix2_fft(&odds, &omega_sq, log_n - 1);
    let half: usize = evens.len();
    assert(field::values(even@).len() == half && field::values(odd@).len() == half);
    let mut low: Vec<Scalar> = Vec::new();
    let mut high: Vec<Scalar> = Vec::new();
    let mut twiddle = Scalar::one();
    proof {
        lemma_pow0(omega@);
    }
    for j in 0..half
        invariant
            log_n > 0,
            half == h,
            h == pow2((log_n - 1) as nat),
            c.len() == pow2(log_n as nat),
            roots::primitive(omega@, log_n as nat),
            omega_sq@ == zp::red(omega@ * omega@),
            even.len() == half,
            odd.len() == half,
            field::values(even@) == zx::red(roots::transform(zx::column(c, 2, 0), omega_sq@, h)),
            field::values(odd@) == zx::red(roots::transform(zx::column(c, 2, 1), omega_sq@, h)),
            zp::same(twiddle@, pow(omega@, j as nat)),
            low.len() == j,
            high.len() == j,
            forall|i: int|
                0 <= i < j ==> #[trigger] low@[i]@ == zp::red(zx::eval(c, pow(omega@, i as nat))),
            forall|i: int|
                0 <= i < j ==> #[trigger] high@[i]@ == zp::red(
                    zx::eval(c, pow(omega@, (i + h) as nat)),
                ),
    {
        let t = twiddle.times(&odd[j]);
        let lo = even[j].plus(&t);
        let hi = even[j].minus(&t);
        proof {
            let (w, w2) = (omega@, omega_sq@);
            let (c0, c1) = (zx::column(c, 2, 0), zx::column(c, 2, 1));
            let (e, o) = (even@[j as int]@, odd@[j as int]@);
            assert(e == field::values(even@)[j as int]);
            assert(o == field::values(odd@)[j as int]);
            zp::lemma_red(w * w);
            zp::lemma_same_pow(w2, w * w, j as nat);
            let (y, z) = (pow(w2, j as nat), pow(w * w, j as nat));
            zp::lemma_red(zx::eval(c0, y));
            zp::lemma_red(zx::eval(c1, y));
            assert(zx::same(c0, c0) && zx::same(c1, c1));
            zx::lemma_eval_same(c0, c0, y, z);
            zx::lemma_eval_same(c1, c1, y, z);
            lemma_butterfly(c, w, log_n as nat, j as nat, e, o, twiddle@);
            zp::lemma_red(twiddle@ * o);
            zp::lemma_same_add(e, e, t@, twiddle@ * o);
            zp::lemma_same_sub(e, e, t@, twiddle@ * o);
            zp::lemma_red(twiddle@ * w);
            zp::lemma_same_mul(twiddle@, pow(w, j as nat), w, w);
            reveal(pow);
            assert(pow(w, (j + 1) as nat) == w * pow(w, j as nat));
            vstd::arithmetic::mul::lemma_mul_is_commutative(w, pow(w, j as nat));
        }
        low.push(lo);
        high.push(hi);
        twiddle = twiddle.times(omega);
    }
    let ghost (lo, hi) = (low@, high@);
    low.append(&mut high);
    proof {
        let out = zx::red(roots::transform(c, omega@, n));
        assert forall|i: int| 0 <= i < n implies field::values(low@)[i] == out[i] by {
            if i >= h {
                assert(low@[i] == hi[i - h]);
            } else {
                assert(low@[i] == lo[i]);
            }
        }
        assert(field::values(low@) =~= out);
    }
    low
}

} // verus!
