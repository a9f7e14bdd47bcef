//! Multilinear polynomials over the scalar field, as tables of their values on the
//! boolean cube.
#[allow(unused_imports)]
use crate::poly::cube;
#[allow(unused_imports)]
use crate::poly::zx;
#[allow(unused_imports)]
use crate::util::field;
use crate::util::field::Scalar;
#[allow(unused_imports)]
use crate::util::zp;
#[allow(unused_imports)]
use vstd::arithmetic::power2::*;
use vstd::prelude::*;

verus! {

/// A table has one entry for each point of a boolean cube, or none at all.
pub open spec fn table_len(n: nat) -> bool {
    n == 0 || exists|k: nat| n == #[trigger] pow2(k)
}

/// Tables of any number of variables are admitted, and the empty one; of no other length.
pub proof fn law_table_len(k: nat, n: nat)
    ensures
        table_len(pow2(k)),
        table_len(0),
        pow2(k) < n < pow2(k + 1) ==> !table_len(n),
{
    assert(table_len(pow2(k)));
    if pow2(k) < n < pow2(k + 1) && table_len(n) {
        lemma_pow2_pos(k);
        let j = choose|j: nat| n == #[trigger] pow2(j);
        if j < k {
            lemma_pow2_strictly_increases(j, k);
        }
        if j > k + 1 {
            lemma_pow2_strictly_increases(k + 1, j);
        }
    }
}

/// A multilinear polynomial, held as its values on the boolean cube.
#[derive(Debug, PartialEq, Eq)]
pub struct MultilinearPolynomial {
    evals: Vec<Scalar>,
    num_vars: usize,
}

impl View for MultilinearPolynomial {
    type V = Seq<int>;

    /// The values on the cube.
    closed spec fn view(&self) -> Seq<int> {
        field::values(self.evals@)
    }
}

impl Clone for MultilinearPolynomial {
    fn clone(&self) -> (r: MultilinearPolynomial)
        ensures
            r@ == self@,
    {
        proof {
            use_type_invariant(self);
        }
        let evals = self.evals.clone();
        assert(evals@ =~= self.evals@);
        MultilinearPolynomial { evals, num_vars: self.num_vars }
    }
}

impl MultilinearPolynomial {
    #[verifier::type_invariant]
    spec fn shaped(self) -> bool {
        ||| self.evals@.len() == 0 && self.num_vars == 0
        ||| self.evals@.len() == pow2(self.num_vars as nat)
    }

    /// The polynomial with the given values, whose number must be that of a table.
    pub fn new(evals: Vec<Scalar>) -> (r: Option<MultilinearPolynomial>)
        ensures
            r is Some <==> table_len(evals.len() as nat),
            r matches Some(p) ==> p@ == field::values(evals@),
    {
        let n: usize = evals.len();
        if n == 0 {
            return Some(MultilinearPolynomial { evals, num_vars: 0 });
        }
        let mut k: usize = 0;
        let mut size: usize = 1;
        proof {
            lemma2_to64();
        }
        while size <= n / 2
            invariant
                n == evals.len(),
                size == pow2(k as nat),
                1 <= size <= n,
                k < size,
            decreases n - size,
        {
            proof {
                lemma_pow2_unfold((k + 1) as nat);
            }
            size = size * 2;
            k = k + 1;
        }
        if size == n {
            Some(MultilinearPolynomial { evals, num_vars: k })
        } else {
            proof {
                lemma_pow2_unfold((k + 1) as nat);
                assert forall|e: nat| n != #[trigger] pow2(e) by {
                    if e < k {
                        lemma_pow2_strictly_increases(e, k as nat);
                    } else if e > k + 1 {
                        lemma_pow2_strictly_increases((k + 1) as nat, e);
                    }
                }
            }
            None
        }
    }

    pub fn num_vars(&self) -> (r: usize)
        ensures
            self@.len() == 0 ==> r == 0,
            self@.len() != 0 ==> self@.len() == pow2(r as nat),
    {
        proof {
            use_type_invariant(self);
            lemma_pow2_pos(self.num_vars as nat);
        }
        self.num_vars
    }

    pub fn evals(&self) -> (r: &Vec<Scalar>)
        ensures
            field::values(r@) == self@,
            r.len() == self@.len(),
            table_len(r.len() as nat),
    {
        proof {
            use_type_invariant(self);
        }
        &self.evals
    }

    /// The value at `point`.
    pub fn evaluate(&self, point: &Vec<Scalar>) -> (r: Scalar)
        requires
            self@.len() == pow2(point.len() as nat),
        ensures
            r@ == zp::red(zx::dot(self@, cube::eq(field::values(point@)))),
    {
        proof {
            lemma_pow2_pos(point.len() as nat);
            vstd::arithmetic::div_mod::lemma_mod_self_0(pow2(point.len() as nat) as int);
            assert(self.evals.len() == self@.len());
        }
        let table = fold(&self.evals, point, point.len());
        proof {
            let u = field::values(point@);
            assert(field::values(table@).len() == table.len());
            assert(u.take(point.len() as int) =~= u);
            cube::lemma_fold_all(self@, u);
            assert(field::values(table@)[0] == table@[0]@);
        }
        table[0]
    }
}

/// `2^k`.
pub fn power_of_two(k: usize) -> (r: usize)
    requires
        pow2(k as nat) <= usize::MAX,
    ensures
        r == pow2(k as nat),
{
    let mut r: usize = 1;
    proof {
        lemma2_to64();
    }
    for i in 0..k
        invariant
            pow2(k as nat) <= usize::MAX,
            r == pow2(i as nat),
    {
        proof {
            lemma_pow2_unfold((i + 1) as nat);
            if i + 1 < k {
                lemma_pow2_strictly_increases((i + 1) as nat, k as nat);
            }
        }
        r = r * 2;
    }
    r
}

/// The table with its first variable fixed to `x`.
pub fn merge(evals: &Vec<Scalar>, x: &Scalar) -> (r: Vec<Scalar>)
    requires
        evals.len() % 2 == 0,
    ensures
        field::values(r@) == zx::red(cube::merge(field::values(evals@), x@)),
        r.len() == evals.len() / 2,
{
    let ghost f = field::values(evals@);
    let mut r: Vec<Scalar> = Vec::new();
    let half: usize = evals.len() / 2;
    for k in 0..half
        invariant
            half == evals.len() / 2,
            f == field::values(evals@),
            r.len() == k,
            forall|j: int| 0 <= j < k ==> #[trigger] r@[j]@ == zp::red(cube::merge(f, x@)[j]),
    {
        let slope = evals[2 * k + 1].minus(&evals[2 * k]);
        let v = slope.mul_add(x, &evals[2 * k]);
        proof {
            let (a, b) = (f[2 * k as int], f[2 * k as int + 1]);
            zp::lemma_red(b - a);
            zp::lemma_same_mul(slope@, b - a, x@, x@);
            zp::lemma_same_add(slope@ * x@, (b - a) * x@, a, a);
            vstd::arithmetic::mul::lemma_mul_is_commutative(x@, b - a);
        }
        r.push(v);
    }
    assert(field::values(r@) =~= zx::red(cube::merge(f, x@)));
    r
}

/// The table with its first `t` variables fixed to the first `t` coordinates of `point`.
pub fn fold(evals: &Vec<Scalar>, point: &Vec<Scalar>, t: usize) -> (r: Vec<Scalar>)
    requires
        t <= point.len(),
        evals.len() as int % (pow2(t as nat) as int) == 0,
    ensures
        field::values(r@) == zx::red(
            cube::fold(field::values(evals@), field::values(point@).take(t as int)),
        ),
{
    let ghost f = field::values(evals@);
    let ghost u = field::values(point@).take(t as int);
    let mut r = evals.clone();
    proof {
        assert(r@ =~= evals@);
        broadcast use field::lemma_scalar_range;
        lemma_red_values(evals@);
        assert(u.take(0).len() == 0);
        lemma2_to64();
    }
    for i in 0..t
        invariant
            t <= point.len(),
            u == field::values(point@).take(t as int),
            evals.len() as int % (pow2(t as nat) as int) == 0,
            f == field::values(evals@),
            field::values(r@) == zx::red(cube::fold(f, u.take(i as int))),
            r.len() * pow2(i as nat) == evals.len(),
    {
        let ghost before = cube::fold(f, u.take(i as int));
        proof {
            assert(field::values(r@).len() == r.len());
            lemma_even_part(evals.len() as int, r.len() as int, i as nat, t as nat);
        }
        let next = merge(&r, &point[i]);
        proof {
            assert(u.take(i + 1) =~= u.take(i as int) + seq![u[i as int]]);
            cube::lemma_fold_concat(f, u.take(i as int), seq![u[i as int]]);
            assert(seq![u[i as int]].skip(1).len() == 0);
            assert(cube::fold(cube::merge(before, u[i as int]), seq![u[i as int]].skip(1))
                == cube::merge(before, u[i as int]));
            assert(cube::fold(f, u.take(i + 1)) == cube::merge(before, u[i as int]));
            lemma_merge_red(before, u[i as int]);
            lemma_pow2_unfold((i + 1) as nat);
            let (m, p) = (r.len() as int, pow2(i as nat) as int);
            assert((m / 2) * (2 * p) == m * p) by (nonlinear_arith)
                requires
                    m % 2 == 0,
            ;
        }
        r = next;
    }
    assert(u.take(t as int) =~= u);
    r
}

proof fn lemma_even_part(n: int, m: int, i: nat, t: nat)
    requires
        n >= 0,
        m * pow2(i) == n,
        i < t,
        n % (pow2(t) as int) == 0,
    ensures
        m % 2 == 0,
{
    let d = (t - i) as nat;
    lemma_pow2_adds(i, d);
    lemma_pow2_unfold(d);
    lemma_pow2_pos(i);
    lemma_pow2_pos(t);
    let (p, h) = (pow2(i) as int, pow2((d - 1) as nat) as int);
    vstd::arithmetic::div_mod::lemma_fundamental_div_mod(n, pow2(t) as int);
    let k = n / (pow2(t) as int);
    assert(n == (p * (2 * h)) * k);
    assert(m * p == (2 * (h * k)) * p) by (nonlinear_arith)
        requires
            n == (p * (2 * h)) * k,
            n == m * p,
    ;
    assert(p * m == m * p && p * (2 * (h * k)) == (2 * (h * k)) * p) by (nonlinear_arith);
    vstd::arithmetic::mul::lemma_mul_equality_converse(p, m, 2 * (h * k));
}

/// Scalars are their own canonical representatives.
pub proof fn lemma_red_values(s: Seq<Scalar>)
    ensures
        zx::red(field::values(s)) == field::values(s),
{
    assert forall|i: int| 0 <= i < s.len() implies zp::red(s[i]@) == s[i]@ by {
        field::lemma_scalar_range(s[i]);
        zp::lemma_red(s[i]@);
    }
    assert(zx::red(field::values(s)) =~= field::values(s));
}

proof fn lemma_merge_red(f: Seq<int>, x: int)
    ensures
        zx::red(cube::merge(zx::red(f), x)) == zx::red(cube::merge(f, x)),
{
    let g = zx::red(f);
    assert forall|k: int| 0 <= k < f.len() / 2 implies zp::same(
        cube::merge(g, x)[k],
        #[trigger] cube::merge(f, x)[k],
    ) by {
        let (a, b) = (f[2 * k], f[2 * k + 1]);
        zp::lemma_red(a);
        zp::lemma_red(b);
        zp::lemma_same_sub(g[2 * k + 1], b, g[2 * k], a);
        zp::lemma_same_mul(x, x, g[2 * k + 1] - g[2 * k], b - a);
        zp::lemma_same_add(g[2 * k], a, x * (g[2 * k + 1] - g[2 * k]), x * (b - a));
    }
    assert(zx::red(cube::merge(g, x)) =~= zx::red(cube::merge(f, x)));
}

/// The values of `eq(X, y)` on the cube.
pub fn eq_xy(y: &Vec<Scalar>, from: usize) -> (r: Vec<Scalar>)
    requires
        from <= y.len(),
        pow2((y.len() - from) as nat) <= usize::MAX,
    ensures
        field::values(r@) == zx::red(cube::eq(field::values(y@).skip(from as int))),
        r.len() == pow2((y.len() - from) as nat),
{
    let ghost u = field::values(y@);
    let mut r: Vec<Scalar> = Vec::new();
    r.push(Scalar::one());
    let mut i: usize = y.len();
    proof {
        zp::lemma_modulus();
        zp::lemma_red(1);
        lemma2_to64();
        assert(u.skip(i as int).len() == 0);
        assert(field::values(r@) =~= zx::red(seq![1int]));
    }
    while i > from
        invariant
            from <= i <= y.len(),
            u == field::values(y@),
            pow2((y.len() - from) as nat) <= usize::MAX,
            field::values(r@) == zx::red(cube::eq(u.skip(i as int))),
            r.len() == pow2((y.len() - i) as nat),
        decreases i,
    {
        let ghost e = cube::eq(u.skip(i as int));
        i = i - 1;
        let x = y[i];
        let one = Scalar::one();
        let co = one.minus(&x);
        let n: usize = r.len();
        proof {
            assert(field::values(r@).len() == n);
            assert(u.skip(i as int).skip(1) =~= u.skip(i + 1));
            lemma_pow2_unfold((y.len() - i) as nat);
            if y.len() - i < y.len() - from {
                lemma_pow2_strictly_increases((y.len() - i) as nat, (y.len() - from) as nat);
            }
        }
        let mut next: Vec<Scalar> = Vec::new();
        let ghost target = cube::spread(x@, e);
        for k in 0..n
            invariant
                n == r.len(),
                e.len() == n,
                field::values(r@) == zx::red(e),
                co@ == zp::red(1 - x@),
                target == cube::spread(x@, e),
                next.len() == 2 * k,
                forall|j: int| 0 <= j < 2 * k ==> #[trigger] next@[j]@ == zp::red(target[j]),
        {
            let low = co.times(&r[k]);
            let high = x.times(&r[k]);
            proof {
                assert(r@[k as int]@ == field::values(r@)[k as int]);
                zp::lemma_red(e[k as int]);
                zp::lemma_red(1 - x@);
                zp::lemma_same_mul(co@, 1 - x@, r@[k as int]@, e[k as int]);
                zp::lemma_same_mul(x@, x@, r@[k as int]@, e[k as int]);
                assert(target[2 * k as int] == (1 - x@) * e[k as int]);
                assert(target[2 * k as int + 1] == x@ * e[k as int]);
            }
            next.push(low);
            next.push(high);
        }
        assert(field::values(next@) =~= zx::red(target));
        r = next;
    }
    r
}

/// The value at `x` of the univariate polynomial whose coefficients are the values of
/// `eq(X, y)`, for the coordinates `from..to` of a point.
pub fn eq_xy_at(y: &Vec<Scalar>, from: usize, to: usize, x: &Scalar) -> (r: Scalar)
    requires
        from <= to <= y.len(),
    ensures
        r@ == zp::red(cube::eq_at(field::values(y@).subrange(from as int, to as int), x@)),
{
    let ghost u = field::values(y@);
    let ghost whole = cube::eq_at(u.subrange(from as int, to as int), x@);
    let one = Scalar::one();
    let mut acc = Scalar::one();
    let mut z = *x;
    for i in from..to
        invariant
            from <= to <= y.len(),
            u == field::values(y@),
            one@ == 1,
            zp::same(acc@ * cube::eq_at(u.subrange(i as int, to as int), z@), whole),
    {
        let c = y[i];
        let zc = z.minus(&one);
        let factor = c.mul_add(&zc, &one);
        let next = acc.times(&factor);
        let zz = z.times(&z);
        proof {
            let v = u.subrange(i as int, to as int);
            assert(v.skip(1) =~= u.subrange(i + 1, to as int));
            let k = 1 - c@ + c@ * z@;
            let tail = cube::eq_at(v.skip(1), z@ * z@);
            // the factor is k
            zp::lemma_red(z@ - 1);
            zp::lemma_same_mul(c@, c@, zc@, z@ - 1);
            zp::lemma_same_add(c@ * zc@, c@ * (z@ - 1), 1, 1);
            zp::lemma_red(c@ * zc@ + 1);
            assert(c@ * (z@ - 1) + 1 == k) by (nonlinear_arith)
                requires
                    k == 1 - c@ + c@ * z@,
            ;
            assert(zp::same(factor@, k));
            zp::lemma_same_mul(acc@, acc@, factor@, k);
            zp::lemma_red(acc@ * factor@);
            zp::lemma_red(z@ * z@);
            lemma_eq_at_same(v.skip(1), zz@, z@ * z@);
            let tail2 = cube::eq_at(v.skip(1), zz@);
            zp::lemma_same_mul(next@, acc@ * k, tail2, tail);
            vstd::arithmetic::mul::lemma_mul_is_associative(acc@, k, tail);
        }
        acc = next;
        z = zz;
    }
    proof {
        assert(u.subrange(to as int, to as int).len() == 0);
        field::lemma_scalar_range(acc);
        zp::lemma_red(acc@);
    }
    acc
}

/// The value depends on the residue of the argument alone.
pub proof fn lemma_eq_at_same(u: Seq<int>, x: int, y: int)
    requires
        zp::same(x, y),
    ensures
        zp::same(cube::eq_at(u, x), cube::eq_at(u, y)),
    decreases u.len(),
{
    if u.len() > 0 {
        zp::lemma_same_mul(x, y, x, y);
        lemma_eq_at_same(u.skip(1), x * x, y * y);
        zp::lemma_same_mul(u[0], u[0], x, y);
        zp::lemma_same_add(1 - u[0], 1 - u[0], u[0] * x, u[0] * y);
        zp::lemma_same_mul(
            1 - u[0] + u[0] * x,
            1 - u[0] + u[0] * y,
            cube::eq_at(u.skip(1), x * x),
            cube::eq_at(u.skip(1), y * y),
        );
    }
}

} // verus!
