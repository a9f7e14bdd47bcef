//! Linear combinations of tables, over the integers.
#[allow(unused_imports)]
use crate::poly::zx;
#[allow(unused_imports)]
use vstd::arithmetic::mul::*;
use vstd::prelude::*;

verus! {

/// The sum of the entries.
pub open spec fn sum(s: Seq<int>) -> int
    decreases s.len(),
{
    if s.len() == 0 {
        0
    } else {
        sum(s.drop_last()) + s.last()
    }
}

/// Entry by entry, `c[0] ts[0] + c[1] ts[1] + ..`, for tables of length `n`.
pub open spec fn combination(c: Seq<int>, ts: Seq<Seq<int>>, n: nat) -> Seq<int> {
    Seq::new(n, |x: int| zx::dot(c, Seq::new(ts.len(), |k: int| ts[k][x])))
}

/// All tables have length `n`.
pub open spec fn all_of_len(ts: Seq<Seq<int>>, n: nat) -> bool {
    forall|i: int| 0 <= i < ts.len() ==> (#[trigger] ts[i]).len() == n
}

/// The tables one after the other.
pub open spec fn flat(ts: Seq<Seq<int>>) -> Seq<int>
    decreases ts.len(),
{
    if ts.len() == 0 {
        Seq::empty()
    } else {
        flat(ts.drop_last()) + ts.last()
    }
}

/// The entries of `w` whose place in `at` holds `i`, and zero for the others.
pub open spec fn masked(w: Seq<int>, at: Seq<int>, i: int) -> Seq<int> {
    Seq::new(w.len(), |k: int| if at[k] == i { w[k] } else { 0 })
}

proof fn lemma_combination_step(c: Seq<int>, ts: Seq<Seq<int>>, n: nat)
    requires
        0 < c.len() == ts.len(),
        all_of_len(ts, n),
    ensures
        combination(c, ts, n) == zx::axpy(combination(c.skip(1), ts.skip(1), n), c[0], ts[0]),
        all_of_len(ts.skip(1), n),
{
    let rest = combination(c.skip(1), ts.skip(1), n);
    assert forall|x: int| 0 <= x < n implies #[trigger] combination(c, ts, n)[x] == rest[x] + c[0]
        * ts[0][x] by {
        let col = Seq::new(ts.len(), |k: int| ts[k][x]);
        assert(col.skip(1) =~= Seq::new(ts.skip(1).len(), |k: int| ts.skip(1)[k][x]));
    }
    assert(ts[0].len() == n);
    assert(combination(c, ts, n) =~= zx::axpy(rest, c[0], ts[0]));
    assert forall|i: int| 0 <= i < ts.skip(1).len() implies (#[trigger] ts.skip(1)[i]).len()
        == n by {
        assert(ts[i + 1].len() == n);
    }
}

/// The inner product with a combination is the combination of the inner products.
pub proof fn lemma_dot_combination(c: Seq<int>, ts: Seq<Seq<int>>, n: nat, e: Seq<int>)
    requires
        c.len() == ts.len(),
        all_of_len(ts, n),
        e.len() == n,
    ensures
        zx::dot(combination(c, ts, n), e) == zx::dot(
            c,
            Seq::new(ts.len(), |k: int| zx::dot(ts[k], e)),
        ),
    decreases c.len(),
{
    let all = Seq::new(ts.len(), |k: int| zx::dot(ts[k], e));
    if c.len() == 0 {
        assert(combination(c, ts, n) =~= Seq::new(n, |i: int| 0int));
        zx::lemma_dot_zeros(n, e);
    } else {
        let (c1, t1) = (c.skip(1), ts.skip(1));
        lemma_combination_step(c, ts, n);
        lemma_dot_combination(c1, t1, n, e);
        assert(ts[0].len() == n);
        zx::lemma_dot_axpy(combination(c1, t1, n), c[0], ts[0], e);
        assert(all.skip(1) =~= Seq::new(t1.len(), |k: int| zx::dot(t1[k], e)));
    }
}

/// The value of a combination is the combination of the values.
pub proof fn lemma_eval_combination(c: Seq<int>, ts: Seq<Seq<int>>, n: nat, s: int)
    requires
        c.len() == ts.len(),
        all_of_len(ts, n),
    ensures
        zx::eval(combination(c, ts, n), s) == zx::dot(
            c,
            Seq::new(ts.len(), |k: int| zx::eval(ts[k], s)),
        ),
    decreases c.len(),
{
    let all = Seq::new(ts.len(), |k: int| zx::eval(ts[k], s));
    if c.len() == 0 {
        assert(combination(c, ts, n) =~= Seq::new(n, |i: int| 0int));
        zx::lemma_eval_zeros(n, s);
    } else {
        let (c1, t1) = (c.skip(1), ts.skip(1));
        lemma_combination_step(c, ts, n);
        lemma_eval_combination(c1, t1, n, s);
        assert(ts[0].len() == n);
        zx::lemma_eval_axpy(combination(c1, t1, n), c[0], ts[0], s);
        assert(all.skip(1) =~= Seq::new(t1.len(), |k: int| zx::eval(t1[k], s)));
    }
}

proof fn lemma_sum_add(a: Seq<int>, b: Seq<int>)
    requires
        a.len() == b.len(),
    ensures
        sum(Seq::new(a.len(), |i: int| a[i] + b[i])) == sum(a) + sum(b),
    decreases a.len(),
{
    if a.len() > 0 {
        let s = Seq::new(a.len(), |i: int| a[i] + b[i]);
        let (a1, b1) = (a.drop_last(), b.drop_last());
        lemma_sum_add(a1, b1);
        assert(s.drop_last() =~= Seq::new(a1.len(), |i: int| a1[i] + b1[i]));
    }
}

proof fn lemma_sum_zeros(n: nat)
    ensures
        sum(Seq::new(n, |i: int| 0int)) == 0,
    decreases n,
{
    if n > 0 {
        let s = Seq::new(n, |i: int| 0int);
        lemma_sum_zeros((n - 1) as nat);
        assert(s.drop_last() =~= Seq::new((n - 1) as nat, |i: int| 0int));
    }
}

/// A sum with a single entry that is not zero.
proof fn lemma_sum_single(n: nat, j: int, v: int)
    requires
        0 <= j < n,
    ensures
        sum(Seq::new(n, |i: int| if i == j { v } else { 0 })) == v,
    decreases n,
{
    let s = Seq::new(n, |i: int| if i == j { v } else { 0 });
    if j == n - 1 {
        lemma_sum_zeros((n - 1) as nat);
        assert(s.drop_last() =~= Seq::new((n - 1) as nat, |i: int| 0int));
    } else {
        lemma_sum_single((n - 1) as nat, j, v);
        assert(s.drop_last() =~= Seq::new((n - 1) as nat, |i: int| if i == j { v } else { 0 }));
    }
}

/// The inner product as a sum.
pub proof fn lemma_dot_sum(a: Seq<int>, b: Seq<int>)
    requires
        a.len() == b.len(),
    ensures
        zx::dot(a, b) == sum(Seq::new(a.len(), |i: int| a[i] * b[i])),
    decreases a.len(),
{
    let s = Seq::new(a.len(), |i: int| a[i] * b[i]);
    if a.len() > 0 {
        let (a1, b1) = (a.drop_last(), b.drop_last());
        let (a2, b2) = (seq![a.last()], seq![b.last()]);
        lemma_dot_sum(a1, b1);
        assert(a =~= a1 + a2 && b =~= b1 + b2);
        zx::lemma_dot_concat(a1, a2, b1, b2);
        assert(zx::dot(a2.skip(1), b2.skip(1)) == 0);
        assert(s.drop_last() =~= Seq::new(a1.len(), |i: int| a1[i] * b1[i]));
    }
}

/// The order of the two sums does not matter: summing over `i` what the entries at `i`
/// make of `v(i, ..)` is going through the entries with `v` at their places.
pub proof fn lemma_masked(
    a: Seq<int>,
    w: Seq<int>,
    at: Seq<int>,
    v: spec_fn(int, int) -> int,
)
    requires
        w.len() == at.len(),
        forall|k: int| 0 <= k < at.len() ==> 0 <= #[trigger] at[k] < a.len(),
    ensures
        sum(
            Seq::new(
                a.len(),
                |i: int| a[i] * zx::dot(masked(w, at, i), Seq::new(w.len(), |k: int| v(i, k))),
            ),
        ) == zx::dot(w, Seq::new(w.len(), |k: int| a[at[k]] * v(at[k], k))),
    decreases w.len(),
{
    let p = a.len();
    let all = Seq::new(
        p,
        |i: int| a[i] * zx::dot(masked(w, at, i), Seq::new(w.len(), |k: int| v(i, k))),
    );
    if w.len() == 0 {
        assert forall|i: int| 0 <= i < p implies all[i] == 0 by {
            assert(masked(w, at, i).len() == 0);
            assert(a[i] * 0 == 0);
        }
        assert(all =~= Seq::new(p, |i: int| 0int));
        lemma_sum_zeros(p);
    } else {
        let (w1, at1) = (w.skip(1), at.skip(1));
        let v1 = |i: int, k: int| v(i, k + 1);
        assert forall|k: int| 0 <= k < at1.len() implies 0 <= #[trigger] at1[k] < p by {
            assert(0 <= at[k + 1] < p);
        }
        lemma_masked(a, w1, at1, v1);
        let rest = Seq::new(
            p,
            |i: int| a[i] * zx::dot(masked(w1, at1, i), Seq::new(w1.len(), |k: int| v1(i, k))),
        );
        let j = at[0];
        assert(0 <= j < p);
        let x = w[0] * (a[j] * v(j, 0));
        let here = Seq::new(p, |i: int| if i == j { x } else { 0 });
        assert forall|i: int| 0 <= i < p implies #[trigger] all[i] == rest[i] + here[i] by {
            let (m, vs) = (masked(w, at, i), Seq::new(w.len(), |k: int| v(i, k)));
            assert(m.skip(1) =~= masked(w1, at1, i));
            assert(vs.skip(1) =~= Seq::new(w1.len(), |k: int| v1(i, k)));
            let d = zx::dot(m.skip(1), vs.skip(1));
            assert(zx::dot(m, vs) == m[0] * v(i, 0) + d);
            if i == j {
                let (b, c, e) = (a[i], w[0], v(i, 0));
                assert(b * (c * e + d) == b * d + c * (b * e)) by (nonlinear_arith);
            } else {
                assert(0 * v(i, 0) == 0);
            }
        }
        assert(all =~= Seq::new(p, |i: int| rest[i] + here[i]));
        lemma_sum_add(rest, here);
        lemma_sum_single(p, j, x);
        let tail = Seq::new(w.len(), |k: int| a[at[k]] * v(at[k], k));
        assert(tail.skip(1) =~= Seq::new(w1.len(), |k: int| a[at1[k]] * v1(at1[k], k)));
    }
}

pub proof fn lemma_flat_len(ts: Seq<Seq<int>>, n: nat)
    requires
        all_of_len(ts, n),
    ensures
        flat(ts).len() == ts.len() * n,
    decreases ts.len(),
{
    if ts.len() == 0 {
        assert(0 * n == 0);
    } else {
        let init = ts.drop_last();
        assert(ts[ts.len() - 1].len() == n);
        assert forall|i: int| 0 <= i < init.len() implies (#[trigger] init[i]).len() == n by {
            assert(ts[i].len() == n);
        }
        lemma_flat_len(init, n);
        let k = ts.len() as int;
        assert((k - 1) * n + n == k * n) by (nonlinear_arith);
    }
}

/// The rows of the tables one after the other are the tables.
pub proof fn lemma_flat_row(ts: Seq<Seq<int>>, n: nat, i: int)
    requires
        all_of_len(ts, n),
        0 <= i < ts.len(),
    ensures
        zx::row(flat(ts), n as int, i) == ts[i],
    decreases ts.len(),
{
    let init = ts.drop_last();
    assert forall|k: int| 0 <= k < init.len() implies (#[trigger] init[k]).len() == n by {
        assert(ts[k].len() == n);
    }
    lemma_flat_len(init, n);
    assert(ts[ts.len() - 1].len() == n);
    if i < init.len() {
        lemma_flat_row(init, n, i);
        let (m, k) = (n as int, init.len() as int);
        assert(0 <= i * m && i * m + m <= k * m) by (nonlinear_arith)
            requires
                0 <= i < k,
                0 <= m,
        ;
        assert(zx::row(flat(ts), m, i) =~= zx::row(flat(init), m, i));
    } else {
        assert(zx::row(flat(ts), n as int, i) =~= ts[i]);
    }
}

/// The inner product of tables one after the other.
pub proof fn lemma_dot_flat(a: Seq<Seq<int>>, b: Seq<Seq<int>>, n: nat)
    requires
        a.len() == b.len(),
        all_of_len(a, n),
        all_of_len(b, n),
    ensures
        zx::dot(flat(a), flat(b)) == sum(Seq::new(a.len(), |i: int| zx::dot(a[i], b[i]))),
    decreases a.len(),
{
    if a.len() > 0 {
        let (a1, b1) = (a.drop_last(), b.drop_last());
        assert forall|k: int| 0 <= k < a1.len() implies (#[trigger] a1[k]).len() == n by {
            assert(a[k].len() == n);
        }
        assert forall|k: int| 0 <= k < b1.len() implies (#[trigger] b1[k]).len() == n by {
            assert(b[k].len() == n);
        }
        lemma_dot_flat(a1, b1, n);
        lemma_flat_len(a1, n);
        lemma_flat_len(b1, n);
        zx::lemma_dot_concat(flat(a1), a.last(), flat(b1), b.last());
        let s = Seq::new(a.len(), |i: int| zx::dot(a[i], b[i]));
        assert(s.drop_last() =~= Seq::new(a1.len(), |i: int| zx::dot(a1[i], b1[i])));
    }
}

} // verus!
