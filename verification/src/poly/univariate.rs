//! Univariate polynomials over the scalar field, in the monomial basis.
#[allow(unused_imports)]
use crate::poly::zx;
#[allow(unused_imports)]
use crate::util::field;
use crate::util::field::Scalar;
#[allow(unused_imports)]
use crate::util::zp;
use vstd::prelude::*;

verus! {

/// A univariate polynomial, held as its coefficients, lowest degree first.
#[derive(Debug, PartialEq, Eq)]
pub struct UnivariatePolynomial {
    coeffs: Vec<Scalar>,
}

impl View for UnivariatePolynomial {
    type V = Seq<int>;

    /// The coefficients.
    closed spec fn view(&self) -> Seq<int> {
        field::values(self.coeffs@)
    }
}

impl UnivariatePolynomial {
    /// The polynomial with the given coefficients.
    pub fn monomial(coeffs: Vec<Scalar>) -> (r: UnivariatePolynomial)
        ensures
            r@ == field::values(coeffs@),
    {
        UnivariatePolynomial { coeffs }
    }

    pub fn coeffs(&self) -> (r: &Vec<Scalar>)
        ensures
            field::values(r@) == self@,
            r.len() == self@.len(),
    {
        &self.coeffs
    }

    /// The value at `x`.
    pub fn evaluate(&self, x: &Scalar) -> (r: Scalar)
        ensures
            r@ == zp::red(zx::eval(self@, x@)),
    {
        horner(&self.coeffs, x)
    }

    /// The quotient and the remainder of the division by `X - z`.
    pub fn div_rem_linear(&self, z: &Scalar) -> (r: (UnivariatePolynomial, Scalar))
        ensures
            r.0@ == zx::red(zx::quotient(self@, z@)),
            r.1@ == zp::red(zx::eval(self@, z@)),
    {
        (
            UnivariatePolynomial { coeffs: horner_univariate_div(&self.coeffs, z) },
            horner(&self.coeffs, z),
        )
    }
}

/// The value at `x` of the polynomial with the given coefficients, by Horner's rule.
pub fn horner(coeffs: &Vec<Scalar>, x: &Scalar) -> (r: Scalar)
    ensures
        r@ == zp::red(zx::eval(field::values(coeffs@), x@)),
{
    let ghost c = field::values(coeffs@);
    let mut acc = Scalar::zero();
    let mut i: usize = coeffs.len();
    proof {
        zp::lemma_modulus();
        zp::lemma_red(0);
        assert(c.skip(i as int).len() == 0);
    }
    while i > 0
        invariant
            i <= coeffs.len(),
            c == field::values(coeffs@),
            acc@ == zp::red(zx::eval(c.skip(i as int), x@)),
        decreases i,
    {
        i = i - 1;
        proof {
            lemma_horner_step(c, i as int, x@, acc@);
            vstd::arithmetic::mul::lemma_mul_is_commutative(x@, acc@);
        }
        acc = acc.mul_add(x, &coeffs[i]);
    }
    assert(c.skip(0) =~= c);
    acc
}

proof fn lemma_horner_step(c: Seq<int>, i: int, x: int, acc: int)
    requires
        0 <= i < c.len(),
        acc == zp::red(zx::eval(c.skip(i + 1), x)),
    ensures
        zp::red(x * acc + c[i]) == zp::red(zx::eval(c.skip(i), x)),
{
    let e = zx::eval(c.skip(i + 1), x);
    assert(c.skip(i).skip(1) =~= c.skip(i + 1));
    zp::lemma_red(e);
    zp::lemma_same_mul(x, x, acc, e);
    zp::lemma_same_add(x * acc, x * e, c[i], c[i]);
}

/// The coefficients of the quotient by `X - z`, by Horner's rule.
pub fn horner_univariate_div(coeffs: &Vec<Scalar>, z: &Scalar) -> (r: Vec<Scalar>)
    ensures
        field::values(r@) == zx::red(zx::quotient(field::values(coeffs@), z@)),
{
    let ghost c = field::values(coeffs@);
    let n: usize = coeffs.len();
    if n == 0 {
        let r: Vec<Scalar> = Vec::new();
        assert(field::values(r@) =~= zx::red(zx::quotient(c, z@)));
        return r;
    }
    let mut q: Vec<Scalar> = Vec::new();
    let mut k: usize = 0;
    while k < n - 1
        invariant
            k <= n - 1,
            q.len() == k,
        decreases n - k,
    {
        q.push(Scalar::zero());
        k = k + 1;
    }
    let mut acc = Scalar::zero();
    let mut i: usize = n;
    proof {
        zp::lemma_modulus();
        zp::lemma_red(0);
        assert(c.skip(n as int).len() == 0);
    }
    while i > 1
        invariant
            1 <= i <= n,
            n == coeffs.len(),
            q.len() == n - 1,
            c == field::values(coeffs@),
            acc@ == zp::red(zx::eval(c.skip(i as int), z@)),
            forall|j: int|
                i - 1 <= j < n - 1 ==> #[trigger] q@[j]@ == zp::red(zx::eval(c.skip(j + 1), z@)),
        decreases i,
    {
        i = i - 1;
        proof {
            lemma_horner_step(c, i as int, z@, acc@);
            vstd::arithmetic::mul::lemma_mul_is_commutative(z@, acc@);
        }
        acc = acc.mul_add(z, &coeffs[i]);
        q.set(i - 1, acc);
    }
    assert(field::values(q@) =~= zx::red(zx::quotient(c, z@)));
    q
}

} // verus!
