//! Tables of multilinear evaluations on the boolean cube, over the integers.
//!
//! Index `i` of a table holds the value at the point whose `k`-th coordinate is the
//! `k`-th bit of `i`, least significant first.
use crate::poly::zx;
#[allow(unused_imports)]
use vstd::arithmetic::power2::*;
use vstd::prelude::*;

verus! {

/// Fixes the first variable of a table of multilinear evaluations to `x`.
pub open spec fn merge(f: Seq<int>, x: int) -> Seq<int> {
    Seq::new((f.len() / 2) as nat, |k: int| f[2 * k] + x * (f[2 * k + 1] - f[2 * k]))
}

/// Every entry `v` of `e` in turn as the pair `(1 - x) * v`, `x * v`.
pub open spec fn spread(x: int, e: Seq<int>) -> Seq<int> {
    Seq::new(2 * e.len(), |i: int| if i % 2 == 0 { (1 - x) * e[i / 2] } else { x * e[i / 2] })
}

/// The evaluations of `eq(X, u)` on the boolean cube, the first variable varying fastest.
pub open spec fn eq(u: Seq<int>) -> Seq<int>
    decreases u.len(),
{
    if u.len() == 0 {
        seq![1int]
    } else {
        spread(u[0], eq(u.skip(1)))
    }
}

/// The value at `x` of the univariate polynomial with coefficients `eq(u)`.
pub open spec fn eq_at(u: Seq<int>, x: int) -> int
    decreases u.len(),
{
    if u.len() == 0 {
        1
    } else {
        (1 - u[0] + u[0] * x) * eq_at(u.skip(1), x * x)
    }
}

/// Fixes the first variables of a table of multilinear evaluations to `u`.
pub open spec fn fold(f: Seq<int>, u: Seq<int>) -> Seq<int>
    decreases u.len(),
{
    if u.len() == 0 {
        f
    } else {
        fold(merge(f, u[0]), u.skip(1))
    }
}

pub proof fn lemma_eq_len(u: Seq<int>)
    ensures
        eq(u).len() == pow2(u.len()),
    decreases u.len(),
{
    if u.len() == 0 {
        lemma2_to64();
    } else {
        lemma_eq_len(u.skip(1));
        lemma_pow2_unfold(u.len());
    }
}

/// The product over the first `n` variables of `u[i]` where bit `i` of `k` is set, and of
/// `1 - u[i]` where it is not.
pub open spec fn bit_product(u: Seq<int>, k: int, n: nat) -> int
    decreases n,
{
    if n == 0 {
        1
    } else {
        let i = n - 1;
        bit_product(u, k, i as nat) * (if k / pow2(i as nat) as int % 2 == 1 {
            u[i]
        } else {
            1 - u[i]
        })
    }
}

/// The first variable of a product over bits.
proof fn lemma_bit_product_first(u: Seq<int>, k: int, n: nat)
    requires
        n <= u.len(),
        n >= 1,
        k >= 0,
    ensures
        bit_product(u, k, n) == (if k % 2 == 1 {
            u[0]
        } else {
            1 - u[0]
        }) * bit_product(u.skip(1), k / 2, (n - 1) as nat),
    decreases n,
{
    let i = (n - 1) as nat;
    let first = if k % 2 == 1 {
        u[0]
    } else {
        1 - u[0]
    };
    if n == 1 {
        lemma2_to64();
        assert(pow2(0) == 1);
        assert(bit_product(u, k, 0) == 1);
        assert(bit_product(u.skip(1), k / 2, 0) == 1);
        assert(first * 1 == 1 * first);
    } else {
        lemma_bit_product_first(u, k, i);
        let j = (i - 1) as nat;
        lemma_pow2_unfold(i);
        lemma_pow2_pos(j);
        vstd::arithmetic::div_mod::lemma_div_denominator(k, 2, pow2(j) as int);
        assert(k / 2 / (pow2(j) as int) == k / (pow2(i) as int));
        let last = if k / (pow2(i) as int) % 2 == 1 {
            u[i as int]
        } else {
            1 - u[i as int]
        };
        let rest = bit_product(u.skip(1), k / 2, j);
        assert(bit_product(u.skip(1), k / 2, i) == rest * last);
        assert(bit_product(u, k, n) == (first * rest) * last);
        vstd::arithmetic::mul::lemma_mul_is_associative(first, rest, last);
    }
}

/// Entry `k` of `eq` is the product over the bits of `k` of the variable or one less it.
pub proof fn law_eq_entry(u: Seq<int>, k: int)
    requires
        0 <= k < pow2(u.len()),
    ensures
        eq(u).len() == pow2(u.len()),
        eq(u)[k] == bit_product(u, k, u.len()),
    decreases u.len(),
{
    lemma_eq_len(u);
    if u.len() == 0 {
        lemma2_to64();
    } else {
        lemma_pow2_unfold(u.len());
        law_eq_entry(u.skip(1), k / 2);
        lemma_bit_product_first(u, k, u.len());
    }
}

/// `eq` is an indicator: at a point of the cube it is one in the entry of that point and zero
/// in all others. So a table is what its multilinear polynomial takes on the cube.
pub proof fn law_eq_on_cube(u: Seq<int>, k: int, j: int)
    requires
        0 <= k < pow2(u.len()),
        0 <= j < pow2(u.len()),
        forall|i: int| 0 <= i < u.len() ==> #[trigger] u[i] == j / (pow2(i as nat) as int) % 2,
    ensures
        eq(u)[k] == (if k == j { 1int } else { 0 }),
    decreases u.len(),
{
    lemma_eq_len(u);
    if u.len() == 0 {
        lemma2_to64();
    } else {
        lemma_pow2_unfold(u.len());
        lemma2_to64();
        let v = u.skip(1);
        assert(u[0] == j / (pow2(0) as int) % 2);
        assert forall|i: int| 0 <= i < v.len() implies #[trigger] v[i] == j / 2 / (pow2(
            i as nat,
        ) as int) % 2 by {
            lemma_pow2_unfold((i + 1) as nat);
            lemma_pow2_pos(i as nat);
            assert(u[i + 1] == j / (pow2((i + 1) as nat) as int) % 2);
            vstd::arithmetic::div_mod::lemma_div_denominator(j, 2, pow2(i as nat) as int);
        }
        law_eq_on_cube(v, k / 2, j / 2);
        let e = eq(v)[k / 2];
        lemma_eq_len(v);
        let x = u[0];
        if k % 2 == 0 {
            assert(eq(u)[k] == (1 - x) * e);
        } else {
            assert(eq(u)[k] == x * e);
        }
        assert(x == j % 2);
        assert(0 * e == 0 && 1 * e == e);
    }
}

/// Fixing a variable in the table is spreading the weights.
pub proof fn lemma_dot_merge(f: Seq<int>, x: int, e: Seq<int>)
    requires
        f.len() == 2 * e.len(),
    ensures
        zx::dot(merge(f, x), e) == zx::dot(f, spread(x, e)),
    decreases e.len(),
{
    if e.len() > 0 {
        let (f2, e1) = (f.skip(1).skip(1), e.skip(1));
        lemma_dot_merge(f2, x, e1);
        let (m, s) = (merge(f, x), spread(x, e));
        assert(m.skip(1) =~= merge(f2, x));
        assert(s.skip(1).skip(1) =~= spread(x, e1));
        assert(s[0] == (1 - x) * e[0] && s.skip(1)[0] == x * e[0]);
        assert(f.skip(1)[0] == f[1]);
        assert(zx::dot(f.skip(1), s.skip(1)) == f[1] * s[1] + zx::dot(f2, spread(x, e1)));
        assert(zx::dot(f, s) == f[0] * s[0] + zx::dot(f.skip(1), s.skip(1)));
        let (p, q, v) = (f[0], f[1], e[0]);
        assert((p + x * (q - p)) * v == p * ((1 - x) * v) + q * (x * v)) by (nonlinear_arith);
    }
}

pub proof fn lemma_eval_spread(x: int, e: Seq<int>, z: int)
    ensures
        zx::eval(spread(x, e), z) == (1 - x + x * z) * zx::eval(e, z * z),
    decreases e.len(),
{
    let s = spread(x, e);
    if e.len() > 0 {
        let e1 = e.skip(1);
        lemma_eval_spread(x, e1, z);
        assert(s.skip(1).skip(1) =~= spread(x, e1));
        let (v, w) = (e[0], zx::eval(e1, z * z));
        let k = 1 - x + x * z;
        assert(s[0] == (1 - x) * v && s.skip(1)[0] == x * v);
        assert(zx::eval(s.skip(1), z) == s[1] + z * (k * w));
        assert(zx::eval(s, z) == s[0] + z * zx::eval(s.skip(1), z));
        assert(z * (x * v + z * (k * w)) == (x * z) * v + k * ((z * z) * w)) by (nonlinear_arith);
        assert((1 - x) * v + (x * z) * v == k * v) by (nonlinear_arith)
            requires
                k == 1 - x + x * z,
        ;
        assert(k * v + k * ((z * z) * w) == k * (v + (z * z) * w)) by (nonlinear_arith);
    } else {
        assert((1 - x + x * z) * 0 == 0);
    }
}

/// `eq(u)`, read as coefficients, is a product of one binomial for each variable.
pub proof fn lemma_eval_eq(u: Seq<int>, z: int)
    ensures
        zx::eval(eq(u), z) == eq_at(u, z),
    decreases u.len(),
{
    if u.len() == 0 {
        assert(seq![1int].skip(1).len() == 0);
        assert(zx::eval(seq![1int].skip(1), z) == 0);
        assert(z * 0 == 0);
    } else {
        lemma_eval_eq(u.skip(1), z * z);
        lemma_eval_spread(u[0], eq(u.skip(1)), z);
    }
}

pub proof fn lemma_fold_concat(f: Seq<int>, u: Seq<int>, v: Seq<int>)
    ensures
        fold(f, u + v) == fold(fold(f, u), v),
    decreases u.len(),
{
    if u.len() == 0 {
        assert(u + v =~= v);
    } else {
        lemma_fold_concat(merge(f, u[0]), u.skip(1), v);
        assert((u + v).skip(1) =~= u.skip(1) + v);
    }
}

/// Fixing the first variables to `u` weighs each row of the table with `eq(u)`.
pub proof fn lemma_fold_rows(f: Seq<int>, u: Seq<int>, m: int)
    requires
        m >= 0,
        f.len() == m * pow2(u.len()),
    ensures
        fold(f, u) == zx::by_rows(f, pow2(u.len()) as int, eq(u)),
    decreases u.len(),
{
    lemma_pow2_pos(u.len());
    let b = pow2(u.len()) as int;
    zx::lemma_blocks(f.len() as int, b, m);
    if u.len() == 0 {
        lemma2_to64();
        assert forall|j: int| 0 <= j < m implies f[j] == zx::by_rows(f, 1, eq(u))[j] by {
            let r = zx::row(f, 1, j);
            assert(r.len() == 1 && r[0] == f[j]);
            assert(zx::dot(r.skip(1), eq(u).skip(1)) == 0);
            assert(zx::dot(r, eq(u)) == r[0] * eq(u)[0]);
            assert(f[j] * 1 == f[j]);
        }
        assert(f =~= zx::by_rows(f, 1, eq(u)));
    } else {
        let v = u.skip(1);
        let c = pow2(v.len()) as int;
        lemma_pow2_unfold(u.len());
        lemma_pow2_pos(v.len());
        lemma_eq_len(v);
        assert(m * (2 * c) == 2 * (m * c)) by (nonlinear_arith);
        let g = merge(f, u[0]);
        zx::lemma_blocks(g.len() as int, c, m);
        lemma_fold_rows(g, v, m);
        assert forall|j: int| 0 <= j < m implies zx::by_rows(g, c, eq(v))[j] == zx::by_rows(
            f,
            b,
            eq(u),
        )[j] by {
            zx::lemma_block_index(j, b, b - 1, m);
            zx::lemma_block_index(j, c, c - 1, m);
            assert(j * b == 2 * (j * c)) by (nonlinear_arith)
                requires
                    b == 2 * c,
            ;
            assert(zx::row(g, c, j) =~= merge(zx::row(f, b, j), u[0]));
            lemma_dot_merge(zx::row(f, b, j), u[0], eq(v));
        }
        assert(zx::by_rows(g, c, eq(v)) =~= zx::by_rows(f, b, eq(u)));
    }
}

/// Fixing all variables gives the value of the multilinear polynomial.
pub proof fn lemma_fold_all(f: Seq<int>, u: Seq<int>)
    requires
        f.len() == pow2(u.len()),
    ensures
        fold(f, u) == seq![zx::dot(f, eq(u))],
{
    let b = pow2(u.len()) as int;
    lemma_pow2_pos(u.len());
    zx::lemma_blocks(b, b, 1);
    assert(1 * b == b);
    lemma_fold_rows(f, u, 1);
    assert(0 * b == 0);
    assert(zx::row(f, b, 0) =~= f);
    assert(zx::by_rows(f, b, eq(u)) =~= seq![zx::dot(f, eq(u))]);
}

/// Fixing the first variables to `u` and evaluating the rest at `v` is evaluating
/// the whole table at `u` followed by `v`.
pub proof fn lemma_dot_rows(f: Seq<int>, u: Seq<int>, v: Seq<int>)
    requires
        f.len() == pow2(u.len() + v.len()),
    ensures
        zx::dot(zx::by_rows(f, pow2(u.len()) as int, eq(u)), eq(v)) == zx::dot(f, eq(u + v)),
{
    lemma_pow2_adds(u.len(), v.len());
    lemma_pow2_pos(u.len());
    let m = pow2(v.len()) as int;
    assert(f.len() == m * pow2(u.len())) by {
        vstd::arithmetic::mul::lemma_mul_is_commutative(m, pow2(u.len()) as int);
    }
    zx::lemma_blocks(f.len() as int, pow2(u.len()) as int, m);
    lemma_fold_rows(f, u, m);
    lemma_fold_concat(f, u, v);
    lemma_fold_all(f, u + v);
    lemma_fold_all(fold(f, u), v);
    assert(seq![zx::dot(f, eq(u + v))][0] == seq![zx::dot(fold(f, u), eq(v))][0]);
}

} // verus!
