//! Polynomials with integer coefficients, lowest degree first, and their identities.
#[allow(unused_imports)]
use crate::util::zp;
#[allow(unused_imports)]
use vstd::arithmetic::mul::*;
#[allow(unused_imports)]
use vstd::arithmetic::power::*;
#[allow(unused_imports)]
use vstd::arithmetic::power2::*;
use vstd::prelude::*;

verus! {

/// The value of the polynomial with coefficients `c` at `x`.
pub open spec fn eval(c: Seq<int>, x: int) -> int
    decreases c.len(),
{
    if c.len() == 0 {
        0
    } else {
        c[0] + x * eval(c.skip(1), x)
    }
}

/// All coefficients of `c` are zero.
pub open spec fn is_zero(c: Seq<int>) -> bool {
    forall|i: int| 0 <= i < c.len() ==> #[trigger] c[i] == 0
}

/// The inner product of two sequences, over the shorter of them.
pub open spec fn dot(a: Seq<int>, b: Seq<int>) -> int
    decreases a.len(),
{
    if a.len() == 0 || b.len() == 0 {
        0
    } else {
        a[0] * b[0] + dot(a.skip(1), b.skip(1))
    }
}

/// Coefficient-wise `a + k * b`, for sequences of one length.
pub open spec fn axpy(a: Seq<int>, k: int, b: Seq<int>) -> Seq<int> {
    Seq::new(a.len(), |i: int| a[i] + k * b[i])
}

/// `c` with zero coefficients appended, or cut, to length `n`.
pub open spec fn pad(c: Seq<int>, n: nat) -> Seq<int> {
    Seq::new(n, |i: int| if i < c.len() { c[i] } else { 0 })
}

/// `c` reduced coefficient by coefficient to canonical field representatives.
pub open spec fn red(c: Seq<int>) -> Seq<int> {
    Seq::new(c.len(), |i: int| zp::red(c[i]))
}

/// The sequences denote the same field elements.
pub open spec fn same(a: Seq<int>, b: Seq<int>) -> bool {
    a.len() == b.len() && forall|i: int| 0 <= i < a.len() ==> zp::same(#[trigger] a[i], b[i])
}

/// The quotient of `c` by `X - z`.
pub open spec fn quotient(c: Seq<int>, z: int) -> Seq<int> {
    Seq::new((if c.len() == 0 { 0 } else { c.len() - 1 }) as nat, |i: int| eval(c.skip(i + 1), z))
}

/// The `j`-th block of `b` consecutive entries.
pub open spec fn row(f: Seq<int>, b: int, j: int) -> Seq<int> {
    f.subrange(j * b, j * b + b)
}

/// Every `b`-th entry, starting at the `i`-th.
pub open spec fn column(f: Seq<int>, b: int, i: int) -> Seq<int> {
    Seq::new((f.len() as int / b) as nat, |j: int| f[j * b + i])
}

/// The columns of `f`, as polynomials, evaluated at `y`.
pub open spec fn by_columns(f: Seq<int>, b: int, y: int) -> Seq<int> {
    Seq::new(b as nat, |i: int| eval(column(f, b, i), y))
}

/// The inner products of the rows of `f` with `e`.
pub open spec fn by_rows(f: Seq<int>, b: int, e: Seq<int>) -> Seq<int> {
    Seq::new((f.len() as int / b) as nat, |j: int| dot(row(f, b, j), e))
}

/// The quotient of `f` by `X^b - y`: its columns are the quotients of the columns
/// of `f` by `X - y`.
pub open spec fn block_quotient(f: Seq<int>, b: int, y: int) -> Seq<int> {
    Seq::new(
        (if f.len() < b { 0 } else { f.len() - b }) as nat,
        |k: int| eval(column(f, b, k % b).skip(k / b + 1), y),
    )
}

/// The coefficient of `X^k` in `g(X) p(1/X) + g(1/X) p(X)`.
pub open spec fn cross(g: Seq<int>, p: Seq<int>, k: int) -> int {
    dot(g.skip(k), p) + dot(p.skip(k), g)
}

/// The coefficients of `X, X^2, ..` in `g(X) p(1/X) + g(1/X) p(X)`.
pub open spec fn cross_tail(g: Seq<int>, p: Seq<int>) -> Seq<int> {
    Seq::new((g.len() - 1) as nat, |k: int| cross(g, p, k + 1))
}

/// The coefficient of `X^k` in `c`.
pub open spec fn at(c: Seq<int>, k: int) -> int {
    if 0 <= k < c.len() {
        c[k]
    } else {
        0
    }
}

/// The coefficient of `X^k` in the product of `a` and `b`.
pub open spec fn conv(a: Seq<int>, b: Seq<int>, k: int) -> int
    decreases a.len(),
{
    if a.len() == 0 {
        0
    } else {
        a[0] * at(b, k) + conv(a.skip(1), b, k - 1)
    }
}

/// The first `n` coefficients of the product of `a` and `b`.
pub open spec fn product(a: Seq<int>, b: Seq<int>, n: nat) -> Seq<int> {
    Seq::new(n, |k: int| conv(a, b, k))
}

// ---- evaluation ----

pub proof fn lemma_eval_same(a: Seq<int>, b: Seq<int>, x: int, y: int)
    requires
        same(a, b),
        zp::same(x, y),
    ensures
        zp::same(eval(a, x), eval(b, y)),
    decreases a.len(),
{
    if a.len() > 0 {
        assert(same(a.skip(1), b.skip(1)));
        lemma_eval_same(a.skip(1), b.skip(1), x, y);
        zp::lemma_same_mul(x, y, eval(a.skip(1), x), eval(b.skip(1), y));
        assert(zp::same(a[0], b[0]));
        zp::lemma_same_add(a[0], b[0], x * eval(a.skip(1), x), y * eval(b.skip(1), y));
    }
}

pub proof fn lemma_dot_same(a: Seq<int>, b: Seq<int>, c: Seq<int>, d: Seq<int>)
    requires
        same(a, b),
        same(c, d),
    ensures
        zp::same(dot(a, c), dot(b, d)),
    decreases a.len(),
{
    if a.len() > 0 && c.len() > 0 {
        assert(same(a.skip(1), b.skip(1)));
        assert(same(c.skip(1), d.skip(1)));
        lemma_dot_same(a.skip(1), b.skip(1), c.skip(1), d.skip(1));
        assert(zp::same(a[0], b[0]));
        assert(zp::same(c[0], d[0]));
        zp::lemma_same_mul(a[0], b[0], c[0], d[0]);
        zp::lemma_same_add(
            a[0] * c[0],
            b[0] * d[0],
            dot(a.skip(1), c.skip(1)),
            dot(b.skip(1), d.skip(1)),
        );
    }
}

pub proof fn lemma_red_same(c: Seq<int>)
    ensures
        same(red(c), c),
        same(c, red(c)),
{
    assert forall|i: int| 0 <= i < c.len() implies zp::same(#[trigger] red(c)[i], c[i]) by {
        zp::lemma_red(c[i]);
    }
}

pub proof fn lemma_eval_axpy(a: Seq<int>, k: int, b: Seq<int>, x: int)
    requires
        a.len() == b.len(),
    ensures
        eval(axpy(a, k, b), x) == eval(a, x) + k * eval(b, x),
    decreases a.len(),
{
    if a.len() > 0 {
        let (a1, b1) = (a.skip(1), b.skip(1));
        lemma_eval_axpy(a1, k, b1, x);
        assert(axpy(a, k, b).skip(1) =~= axpy(a1, k, b1));
        let (ea, eb) = (eval(a1, x), eval(b1, x));
        assert(a[0] + k * b[0] + x * (ea + k * eb) == (a[0] + x * ea) + k * (b[0] + x * eb))
            by (nonlinear_arith);
    } else {
        assert(k * 0 == 0);
    }
}

pub proof fn lemma_eval_concat(a: Seq<int>, b: Seq<int>, x: int)
    ensures
        eval(a + b, x) == eval(a, x) + pow(x, a.len()) * eval(b, x),
    decreases a.len(),
{
    if a.len() == 0 {
        assert(a + b =~= b);
        lemma_pow0(x);
        assert(1 * eval(b, x) == eval(b, x));
    } else {
        let a1 = a.skip(1);
        lemma_eval_concat(a1, b, x);
        assert((a + b).skip(1) =~= a1 + b);
        reveal(pow);
        let (e1, p1, eb) = (eval(a1, x), pow(x, a1.len()), eval(b, x));
        assert(pow(x, a.len()) == x * p1);
        assert(a[0] + x * (e1 + p1 * eb) == (a[0] + x * e1) + (x * p1) * eb) by (nonlinear_arith);
    }
}

pub proof fn lemma_eval_zeros(n: nat, x: int)
    ensures
        eval(Seq::new(n, |i: int| 0int), x) == 0,
    decreases n,
{
    if n > 0 {
        let s = Seq::new(n, |i: int| 0int);
        lemma_eval_zeros((n - 1) as nat, x);
        assert(s.skip(1) =~= Seq::new((n - 1) as nat, |i: int| 0int));
        assert(x * 0 == 0);
    }
}

pub proof fn lemma_eval_pad(c: Seq<int>, n: nat, x: int)
    requires
        c.len() <= n,
    ensures
        eval(pad(c, n), x) == eval(c, x),
{
    let z = Seq::new((n - c.len()) as nat, |i: int| 0int);
    assert(pad(c, n) =~= c + z);
    lemma_eval_concat(c, z, x);
    lemma_eval_zeros((n - c.len()) as nat, x);
    assert(pow(x, c.len()) * 0 == 0);
}

/// Division by `X - z` leaves the value at `z`.
pub proof fn lemma_quotient(c: Seq<int>, z: int, x: int)
    ensures
        eval(c, x) == (x - z) * eval(quotient(c, z), x) + eval(c, z),
    decreases c.len(),
{
    let q = quotient(c, z);
    if c.len() == 0 {
        assert((x - z) * 0 == 0);
    } else if c.len() == 1 {
        assert(eval(c.skip(1), x) == 0 && eval(c.skip(1), z) == 0 && eval(q, x) == 0);
        assert(x * 0 == 0 && z * 0 == 0 && (x - z) * 0 == 0);
    } else {
        let c1 = c.skip(1);
        lemma_quotient(c1, z, x);
        assert(q.skip(1) =~= quotient(c1, z)) by {
            assert forall|i: int| 0 <= i < c.len() - 2 implies q.skip(1)[i] == quotient(c1, z)[i] by {
                assert(c.skip(i + 2) =~= c1.skip(i + 1));
            }
        }
        assert(q[0] == eval(c1, z));
        let (e, q1, v) = (eval(c1, x), eval(quotient(c1, z), x), eval(c1, z));
        assert(e == (x - z) * q1 + v);
        assert(eval(q, x) == v + x * q1);
        assert(eval(c, x) == c[0] + x * e);
        assert(eval(c, z) == c[0] + z * v);
        assert(c[0] + x * e == (x - z) * (v + x * q1) + (c[0] + z * v)) by (nonlinear_arith)
            requires
                e == (x - z) * q1 + v,
        ;
    }
}

// ---- inner products ----

pub proof fn lemma_dot_axpy(a: Seq<int>, k: int, b: Seq<int>, c: Seq<int>)
    requires
        a.len() == b.len(),
        c.len() == a.len(),
    ensures
        dot(axpy(a, k, b), c) == dot(a, c) + k * dot(b, c),
    decreases a.len(),
{
    if a.len() > 0 {
        let (a1, b1, c1) = (a.skip(1), b.skip(1), c.skip(1));
        lemma_dot_axpy(a1, k, b1, c1);
        assert(axpy(a, k, b).skip(1) =~= axpy(a1, k, b1));
        let (da, db) = (dot(a1, c1), dot(b1, c1));
        assert((a[0] + k * b[0]) * c[0] + (da + k * db) == (a[0] * c[0] + da) + k * (b[0] * c[0]
            + db)) by (nonlinear_arith);
    } else {
        assert(k * 0 == 0);
    }
}

pub proof fn lemma_dot_concat(a: Seq<int>, b: Seq<int>, c: Seq<int>, d: Seq<int>)
    requires
        a.len() == c.len(),
    ensures
        dot(a + b, c + d) == dot(a, c) + dot(b, d),
    decreases a.len(),
{
    if a.len() == 0 {
        assert(a + b =~= b);
        assert(c + d =~= d);
    } else {
        lemma_dot_concat(a.skip(1), b, c.skip(1), d);
        assert((a + b).skip(1) =~= a.skip(1) + b);
        assert((c + d).skip(1) =~= c.skip(1) + d);
    }
}

pub proof fn lemma_dot_three(a: Seq<int>, b: Seq<int>)
    requires
        a.len() == 3,
        b.len() == 3,
    ensures
        dot(a, b) == a[0] * b[0] + a[1] * b[1] + a[2] * b[2],
{
    let (a1, b1) = (a.skip(1), b.skip(1));
    let (a2, b2) = (a1.skip(1), b1.skip(1));
    assert(dot(a2.skip(1), b2.skip(1)) == 0);
    assert(dot(a2, b2) == a2[0] * b2[0]);
    assert(dot(a1, b1) == a1[0] * b1[0] + dot(a2, b2));
    assert(dot(a, b) == a[0] * b[0] + dot(a1, b1));
}

pub proof fn lemma_dot_four(a: Seq<int>, b: Seq<int>)
    requires
        a.len() == 4,
        b.len() == 4,
    ensures
        dot(a, b) == a[0] * b[0] + a[1] * b[1] + a[2] * b[2] + a[3] * b[3],
{
    lemma_dot_three(a.skip(1), b.skip(1));
}

// ---- rows and columns ----

pub proof fn lemma_blocks(len: int, b: int, m: int)
    requires
        b > 0,
        m >= 0,
        len == m * b,
    ensures
        len / b == m,
        m > 0 ==> len >= b && (len - b) / b == m - 1 && len - b == (m - 1) * b,
{
    vstd::arithmetic::div_mod::lemma_div_by_multiple(m, b);
    if m > 0 {
        assert(m * b - b == (m - 1) * b) by (nonlinear_arith);
        assert((m - 1) * b >= 0) by (nonlinear_arith)
            requires
                m > 0,
                b > 0,
        ;
        vstd::arithmetic::div_mod::lemma_div_by_multiple(m - 1, b);
    }
}

pub proof fn lemma_block_index(j: int, b: int, i: int, m: int)
    requires
        0 <= j < m,
        0 <= i < b,
    ensures
        0 <= j * b + i < m * b,
        (j + 1) * b == j * b + b,
        (j * b + i) / b == j,
        (j * b + i) % b == i,
{
    assert(0 <= j * b) by (nonlinear_arith)
        requires
            0 <= j,
            0 < b,
    ;
    assert(j * b + b <= m * b) by (nonlinear_arith)
        requires
            j + 1 <= m,
            0 < b,
    ;
    assert((j + 1) * b == j * b + b) by (nonlinear_arith);
    vstd::arithmetic::div_mod::lemma_fundamental_div_mod_converse(j * b + i, b, j, i);
}

/// Splits the first row off the columns.
proof fn lemma_by_columns_step(f: Seq<int>, b: int, m: int, y: int)
    requires
        b > 0,
        m > 0,
        f.len() == m * b,
    ensures
        by_columns(f, b, y) == axpy(f.take(b), y, by_columns(f.skip(b), b, y)),
{
    lemma_blocks(f.len() as int, b, m);
    let rest = f.skip(b);
    assert forall|i: int| 0 <= i < b implies #[trigger] by_columns(f, b, y)[i] == f[i] + y
        * by_columns(rest, b, y)[i] by {
        let c = column(f, b, i);
        assert(c.skip(1) =~= column(rest, b, i)) by {
            assert forall|j: int| 0 <= j < m - 1 implies c.skip(1)[j] == column(rest, b, i)[j] by {
                lemma_block_index(j, b, i, m - 1);
                lemma_block_index(j + 1, b, i, m);
            }
        }
        assert(c[0] == f[0 * b + i]);
        assert(0 * b == 0);
    }
    assert(by_columns(f, b, y) =~= axpy(f.take(b), y, by_columns(rest, b, y)));
}

/// A polynomial is the sum of its columns: `f(X) = sum_i X^i f_i(X^b)`.
pub proof fn lemma_eval_by_columns(f: Seq<int>, b: int, m: int, x: int)
    requires
        b > 0,
        m >= 0,
        f.len() == m * b,
    ensures
        eval(f, x) == eval(by_columns(f, b, pow(x, b as nat)), x),
    decreases m,
{
    let y = pow(x, b as nat);
    lemma_blocks(f.len() as int, b, m);
    if m == 0 {
        lemma_mul_basics(b);
        assert(f.len() == 0);
        assert(by_columns(f, b, y) =~= Seq::new(b as nat, |i: int| 0int));
        lemma_eval_zeros(b as nat, x);
        assert(eval(f, x) == 0);
    } else {
        let (first, rest) = (f.take(b), f.skip(b));
        lemma_by_columns_step(f, b, m, y);
        lemma_eval_by_columns(rest, b, m - 1, x);
        lemma_eval_axpy(first, y, by_columns(rest, b, y), x);
        assert(f =~= first + rest);
        lemma_eval_concat(first, rest, x);
        assert(first.len() == b as nat);
        assert(eval(f, x) == eval(first, x) + y * eval(rest, x));
        assert(eval(by_columns(f, b, y), x) == eval(first, x) + y * eval(
            by_columns(rest, b, y),
            x,
        ));
    }
}

proof fn lemma_block_quotient_column(f: Seq<int>, b: int, m: int, y: int, i: int)
    requires
        b > 0,
        m > 0,
        f.len() == m * b,
        0 <= i < b,
    ensures
        column(block_quotient(f, b, y), b, i) == quotient(column(f, b, i), y),
{
    lemma_blocks(f.len() as int, b, m);
    lemma_blocks(f.len() - b, b, m - 1);
    let q = block_quotient(f, b, y);
    assert forall|j: int| 0 <= j < m - 1 implies column(q, b, i)[j] == quotient(column(f, b, i), y)[j] by {
        lemma_block_index(j, b, i, m - 1);
    }
    assert(column(q, b, i) =~= quotient(column(f, b, i), y));
}

/// `f(X) = (X^b - y) q(X) + g(X)`, where `g` collects the columns of `f` at `y`.
pub proof fn lemma_block_division(f: Seq<int>, b: int, m: int, y: int, x: int)
    requires
        b > 0,
        m > 0,
        f.len() == m * b,
    ensures
        eval(f, x) == (pow(x, b as nat) - y) * eval(block_quotient(f, b, y), x) + eval(
            by_columns(f, b, y),
            x,
        ),
{
    lemma_blocks(f.len() as int, b, m);
    let z = pow(x, b as nat);
    let q = block_quotient(f, b, y);
    lemma_eval_by_columns(f, b, m, x);
    lemma_eval_by_columns(q, b, m - 1, x);
    assert forall|i: int| 0 <= i < b implies #[trigger] by_columns(f, b, z)[i] == by_columns(
        f,
        b,
        y,
    )[i] + (z - y) * by_columns(q, b, z)[i] by {
        lemma_block_quotient_column(f, b, m, y, i);
        lemma_quotient(column(f, b, i), y, z);
    }
    assert(by_columns(f, b, z) =~= axpy(by_columns(f, b, y), z - y, by_columns(q, b, z)));
    lemma_eval_axpy(by_columns(f, b, y), z - y, by_columns(q, b, z), x);
}

/// Combining rows with `e` and then evaluating is evaluating columns and then
/// combining with `e`.
pub proof fn lemma_rows_columns(f: Seq<int>, b: int, m: int, y: int, e: Seq<int>)
    requires
        b > 0,
        m >= 0,
        f.len() == m * b,
        e.len() == b,
    ensures
        dot(by_columns(f, b, y), e) == eval(by_rows(f, b, e), y),
    decreases m,
{
    lemma_blocks(f.len() as int, b, m);
    if m == 0 {
        let z = Seq::new(b as nat, |i: int| 0int);
        assert(by_columns(f, b, y) =~= z);
        lemma_dot_zeros(b as nat, e);
    } else {
        let rest = f.skip(b);
        lemma_by_columns_step(f, b, m, y);
        lemma_rows_columns(rest, b, m - 1, y, e);
        lemma_dot_axpy(f.take(b), y, by_columns(rest, b, y), e);
        let h = by_rows(f, b, e);
        assert(h.skip(1) =~= by_rows(rest, b, e)) by {
            assert forall|j: int| 0 <= j < m - 1 implies h.skip(1)[j] == by_rows(rest, b, e)[j] by {
                lemma_block_index(j, b, 0, m - 1);
                lemma_block_index(j + 1, b, 0, m);
                lemma_block_index(j + 1, b, b - 1, m);
                assert(row(f, b, j + 1) =~= row(rest, b, j));
            }
        }
        assert(0 * b == 0);
        assert(row(f, b, 0) =~= f.take(b));
    }
}

pub proof fn lemma_dot_zeros(n: nat, e: Seq<int>)
    ensures
        dot(Seq::new(n, |i: int| 0int), e) == 0,
    decreases n,
{
    if n > 0 && e.len() > 0 {
        let s = Seq::new(n, |i: int| 0int);
        assert(s.skip(1) =~= Seq::new((n - 1) as nat, |i: int| 0int));
        lemma_dot_zeros((n - 1) as nat, e.skip(1));
        assert(0 * e[0] == 0);
    }
}

// ---- products ----

proof fn lemma_binomials(a: int, b: int, c: int, d: int)
    ensures
        (a + b) * (c + d) == a * c + a * d + c * b + b * d,
{
    lemma_mul_is_distributive_add_other_way(c + d, a, b);
    lemma_mul_is_distributive_add(a, c, d);
    lemma_mul_is_distributive_add(b, c, d);
    lemma_mul_is_commutative(b, c);
}

proof fn lemma_trinomial(x: int, u: int, p: int, a: int, q: int, b: int)
    ensures
        x * (u + p * a + q * b) == x * u + p * (x * a) + q * (x * b),
{
    lemma_mul_is_distributive_add(x, u + p * a, q * b);
    lemma_mul_is_distributive_add(x, u, p * a);
    assert(x * (p * a) == p * (x * a)) by (nonlinear_arith);
    assert(x * (q * b) == q * (x * b)) by (nonlinear_arith);
}

/// `g(x) p(1/x) + g(1/x) p(x)` in terms of its coefficients.
pub proof fn lemma_cross(g: Seq<int>, p: Seq<int>, x: int, y: int)
    requires
        g.len() == p.len(),
        g.len() > 0,
        zp::same(x * y, 1),
    ensures
        zp::same(
            eval(g, x) * eval(p, y) + eval(g, y) * eval(p, x),
            2 * dot(g, p) + x * eval(cross_tail(g, p), x) + y * eval(cross_tail(g, p), y),
        ),
    decreases g.len(),
{
    let (g1, p1) = (g.skip(1), p.skip(1));
    let (g0, p0) = (g[0], p[0]);
    let (gx, gy, px, py) = (eval(g1, x), eval(g1, y), eval(p1, x), eval(p1, y));
    let t = cross_tail(g, p);
    let (tx, ty) = (eval(t, x), eval(t, y));
    let w = gx * py + gy * px;
    let lhs = eval(g, x) * eval(p, y) + eval(g, y) * eval(p, x);
    let (a, b, c, d) = (x * gx, y * py, y * gy, x * px);
    let rest = g0 * b + p0 * a + g0 * d + p0 * c + 2 * (g0 * p0);
    assert(eval(g, x) == g0 + a && eval(p, y) == p0 + b);
    assert(eval(g, y) == g0 + c && eval(p, x) == p0 + d);
    lemma_binomials(g0, a, p0, b);
    lemma_binomials(g0, c, p0, d);
    assert(a * b == (x * y) * (gx * py)) by (nonlinear_arith)
        requires
            a == x * gx,
            b == y * py,
    ;
    assert(c * d == (x * y) * (gy * px)) by (nonlinear_arith)
        requires
            c == y * gy,
            d == x * px,
    ;
    lemma_mul_is_distributive_add(x * y, gx * py, gy * px);
    assert(lhs == rest + (x * y) * w);
    if g.len() == 1 {
        assert(gx == 0 && gy == 0 && px == 0 && py == 0 && tx == 0 && ty == 0);
        assert(dot(g1, p1) == 0);
        assert(0 * py == 0 && 0 * px == 0);
        assert((x * y) * 0 == 0 && x * 0 == 0 && y * 0 == 0 && g0 * 0 == 0 && p0 * 0 == 0);
        assert(rest == 2 * (g0 * p0));
        assert(lhs == 2 * (g0 * p0));
    } else {
        let t1 = cross_tail(g1, p1);
        let (ux, uy) = (eval(t1, x), eval(t1, y));
        lemma_cross(g1, p1, x, y);
        let n = t.len();
        let s1 = axpy(pad(t1, n), p0, g1);
        let s = axpy(s1, g0, p1);
        assert(t =~= s) by {
            assert forall|k: int| 0 <= k < n implies t[k] == s[k] by {
                let k1 = k + 1;
                assert(g.skip(k1)[0] == g1[k] && p.skip(k1)[0] == p1[k]);
                assert(g.skip(k1).skip(1) =~= g1.skip(k1));
                assert(p.skip(k1).skip(1) =~= p1.skip(k1));
                assert(dot(g.skip(k1), p) == g1[k] * p0 + dot(g1.skip(k1), p1));
                assert(dot(p.skip(k1), g) == p1[k] * g0 + dot(p1.skip(k1), g1));
                if k == n - 1 {
                    assert(g1.skip(k1).len() == 0 && p1.skip(k1).len() == 0);
                    assert(pad(t1, n)[k] == 0);
                } else {
                    assert(pad(t1, n)[k] == cross(g1, p1, k1));
                }
                lemma_mul_is_commutative(g1[k], p0);
                lemma_mul_is_commutative(p1[k], g0);
            }
        }
        lemma_eval_axpy(pad(t1, n), p0, g1, x);
        lemma_eval_axpy(pad(t1, n), p0, g1, y);
        lemma_eval_axpy(s1, g0, p1, x);
        lemma_eval_axpy(s1, g0, p1, y);
        lemma_eval_pad(t1, n, x);
        lemma_eval_pad(t1, n, y);
        assert(tx == ux + p0 * gx + g0 * px && ty == uy + p0 * gy + g0 * py);
        let d1 = dot(g1, p1);
        let inner = 2 * d1 + x * ux + y * uy;
        assert(zp::same(w, inner));
        zp::lemma_same_mul(x * y, 1, w, inner);
        zp::lemma_same_add(rest, rest, (x * y) * w, 1 * inner);
        assert(dot(g, p) == g0 * p0 + d1);
        lemma_trinomial(x, ux, p0, gx, g0, px);
        lemma_trinomial(y, uy, p0, gy, g0, py);
        assert(rest + inner == 2 * dot(g, p) + x * tx + y * ty);
    }
}

/// The reversed polynomial is `x^(n-1) c(1/x)`.
pub proof fn lemma_eval_reverse(c: Seq<int>, x: int, y: int)
    requires
        c.len() > 0,
        zp::same(x * y, 1),
    ensures
        zp::same(eval(c.reverse(), x), pow(x, (c.len() - 1) as nat) * eval(c, y)),
    decreases c.len(),
{
    let n = (c.len() - 1) as nat;
    let c1 = c.skip(1);
    let (c0, ey) = (c[0], eval(c1, y));
    assert(c.reverse() =~= c1.reverse() + seq![c0]);
    lemma_eval_concat(c1.reverse(), seq![c0], x);
    assert(seq![c0].skip(1).len() == 0);
    assert(eval(seq![c0].skip(1), x) == 0);
    assert(x * 0 == 0 && y * 0 == 0);
    assert(eval(seq![c0], x) == c0);
    if n == 0 {
        assert(c1.reverse().len() == 0);
        assert(eval(c1.reverse(), x) == 0);
        assert(ey == 0);
    } else {
        lemma_eval_reverse(c1, x, y);
        reveal(pow);
        let (pn, pm) = (pow(x, n), pow(x, (n - 1) as nat));
        assert(pn == x * pm);
        let er = eval(c1.reverse(), x);
        zp::lemma_same_mul(x * y, 1, pm * ey, pm * ey);
        zp::lemma_same_add(er, (x * y) * (pm * ey), pn * c0, pn * c0);
        assert((x * y) * (pm * ey) + pn * c0 == pn * (c0 + y * ey)) by (nonlinear_arith)
            requires
                pn == x * pm,
        ;
    }
}

proof fn lemma_conv_below(a: Seq<int>, b: Seq<int>, k: int)
    requires
        k < 0,
    ensures
        conv(a, b, k) == 0,
    decreases a.len(),
{
    if a.len() > 0 {
        lemma_conv_below(a.skip(1), b, k - 1);
        assert(a[0] * 0 == 0);
    }
}

/// The value of a product is the product of the values.
pub proof fn lemma_eval_product(a: Seq<int>, b: Seq<int>, n: nat, x: int)
    requires
        n >= a.len() + b.len(),
    ensures
        eval(product(a, b, n), x) == eval(a, x) * eval(b, x),
    decreases a.len(),
{
    if a.len() == 0 {
        assert(product(a, b, n) =~= Seq::new(n, |i: int| 0int));
        lemma_eval_zeros(n, x);
        assert(0 * eval(b, x) == 0);
    } else {
        let a1 = a.skip(1);
        let t = product(a1, b, (n - 1) as nat);
        let s = seq![0int] + t;
        lemma_eval_product(a1, b, (n - 1) as nat, x);
        assert(s.skip(1) =~= t);
        assert(product(a, b, n) =~= axpy(s, a[0], pad(b, n))) by {
            assert forall|k: int| 0 <= k < n implies product(a, b, n)[k] == axpy(
                s,
                a[0],
                pad(b, n),
            )[k] by {
                if k == 0 {
                    lemma_conv_below(a1, b, -1);
                }
            }
        }
        lemma_eval_axpy(s, a[0], pad(b, n), x);
        lemma_eval_pad(b, n, x);
        let (e1, eb, a0) = (eval(a1, x), eval(b, x), a[0]);
        assert(x * (e1 * eb) + a0 * eb == (a0 + x * e1) * eb) by (nonlinear_arith);
    }
}

/// The upper coefficients of `a` times a reversed `c` are inner products.
pub proof fn lemma_conv_reverse(a: Seq<int>, c: Seq<int>, i: int, k: int)
    requires
        a.len() == c.len(),
        0 <= k,
        0 <= i <= a.len(),
        k <= a.len(),
    ensures
        conv(a.skip(i), c.reverse(), c.len() - 1 + k - i) == if i < k {
            dot(a.skip(k), c)
        } else {
            dot(a.skip(i), c.skip(i - k))
        },
    decreases a.len() - i,
{
    let n = a.len() as int;
    if i < n {
        lemma_conv_reverse(a, c, i + 1, k);
        assert(a.skip(i).skip(1) =~= a.skip(i + 1));
        let v = at(c.reverse(), n - 1 + k - i);
        if i < k {
            assert(v == 0);
            assert(a[i] * 0 == 0);
            assert(c.skip(0) =~= c);
        } else {
            assert(v == c[i - k]);
            assert(c.skip(i - k).skip(1) =~= c.skip(i - k + 1));
        }
    } else if i < k {
    } else {
        assert(a.skip(i).len() == 0);
    }
}

} // verus!
