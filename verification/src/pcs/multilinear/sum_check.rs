//! The sum-check protocol for an inner product of two tables.
//!
//! The tables may hold several polynomials one after the other. In each round their first
//! variable is fixed to a challenge.
use crate::error::Error;
#[allow(unused_imports)]
use crate::pcs::multilinear::mercury;
#[allow(unused_imports)]
use crate::poly::cube;
use crate::poly::multilinear;
use crate::poly::univariate::horner;
#[allow(unused_imports)]
use crate::poly::zx;
#[allow(unused_imports)]
use crate::util::field;
use crate::util::field::Scalar;
#[allow(unused_imports)]
use crate::util::transcript::Transcript;
use crate::util::transcript::{ProofReader, ProofWriter};
#[allow(unused_imports)]
use crate::util::zp;
#[allow(unused_imports)]
use vstd::arithmetic::power2::*;
use vstd::prelude::*;

verus! {

/// The entries where the first variable is zero.
pub open spec fn low(f: Seq<int>) -> Seq<int> {
    Seq::new((f.len() / 2) as nat, |k: int| f[2 * k])
}

/// By how much the entries grow with the first variable.
pub open spec fn slope(f: Seq<int>) -> Seq<int> {
    Seq::new((f.len() / 2) as nat, |k: int| f[2 * k + 1] - f[2 * k])
}

/// The coefficients of the inner product of `e` and `m` with their first variable fixed to
/// `X`.
pub open spec fn message(e: Seq<int>, m: Seq<int>) -> Seq<int> {
    zx::red(
        seq![
            zx::dot(low(e), low(m)),
            zx::dot(low(e), slope(m)) + zx::dot(slope(e), low(m)),
            zx::dot(slope(e), slope(m)),
        ],
    )
}

/// What a prover is left with.
pub struct Proved {
    pub challenges: Seq<int>,
    /// The tables with all variables fixed to the challenges.
    pub e: Seq<int>,
    pub m: Seq<int>,
    pub transcript: Transcript,
}

/// `n` rounds of a prover.
pub open spec fn proved(n: nat, e: Seq<int>, m: Seq<int>, t: Transcript) -> Proved
    decreases n,
{
    if n == 0 {
        Proved { challenges: Seq::empty(), e, m, transcript: t }
    } else {
        let t1 = mercury::with_scalars(t, message(e, m));
        let c = t1.challenge();
        let p = proved(
            (n - 1) as nat,
            zx::red(cube::merge(e, c)),
            zx::red(cube::merge(m, c)),
            t1.squeezed(),
        );
        Proved { challenges: seq![c] + p.challenges, ..p }
    }
}

/// What a verifier is left with.
pub struct Checked {
    pub challenges: Seq<int>,
    /// What the last message claims the inner product to be.
    pub value: int,
    /// Each message agrees with the one before it.
    pub consistent: bool,
    pub transcript: Transcript,
}

/// `n` rounds of a verifier, of whose messages the first must add up to `value`.
pub open spec fn checked(n: nat, value: int, t: Transcript) -> Result<Checked, Error>
    decreases n,
{
    if n == 0 {
        Ok(Checked { challenges: Seq::empty(), value, consistent: true, transcript: t })
    } else {
        match mercury::next_scalars(3, t) {
            Err(e) => Err(e),
            Ok((msg, t1)) => {
                let c = t1.challenge();
                match checked((n - 1) as nat, zp::red(zx::eval(msg, c)), t1.squeezed()) {
                    Err(e) => Err(e),
                    Ok(r) => Ok(
                        Checked {
                            challenges: seq![c] + r.challenges,
                            consistent: zp::red(zx::eval(msg, 0) + zx::eval(msg, 1)) == value
                                && r.consistent,
                            ..r
                        },
                    ),
                }
            },
        }
    }
}

/// Where a verifier stands after `n` rounds, or as many as there are.
pub open spec fn after_rounds(n: nat, t: Transcript) -> Transcript
    decreases n,
{
    if n == 0 {
        t
    } else {
        match mercury::next_scalars(3, t) {
            Err(_) => mercury::after_scalars(3, t),
            Ok((_, t1)) => after_rounds((n - 1) as nat, t1.squeezed()),
        }
    }
}

proof fn lemma_three(c: Seq<int>, x: int)
    requires
        c.len() == 3,
    ensures
        zx::eval(c, x) == c[0] + x * (c[1] + x * c[2]),
{
    let (c1, c2) = (c.skip(1), c.skip(1).skip(1));
    assert(c2.skip(1).len() == 0);
    assert(zx::eval(c2.skip(1), x) == 0);
    assert(x * 0 == 0);
    assert(zx::eval(c2, x) == c[2]);
    assert(zx::eval(c1, x) == c[1] + x * zx::eval(c2, x));
}

/// The message is the inner product of the tables with their first variable fixed.
proof fn lemma_message(e: Seq<int>, m: Seq<int>, x: int)
    requires
        e.len() == m.len(),
    ensures
        zp::same(zx::eval(message(e, m), x), zx::dot(cube::merge(e, x), cube::merge(m, x))),
{
    let (e0, e1, m0, m1) = (low(e), slope(e), low(m), slope(m));
    let c = seq![zx::dot(e0, m0), zx::dot(e0, m1) + zx::dot(e1, m0), zx::dot(e1, m1)];
    assert(cube::merge(e, x) =~= zx::axpy(e0, x, e1));
    assert(cube::merge(m, x) =~= zx::axpy(m0, x, m1));
    let mm = zx::axpy(m0, x, m1);
    zx::lemma_dot_axpy(e0, x, e1, mm);
    lemma_dot_axpy_right(e0, m0, x, m1);
    lemma_dot_axpy_right(e1, m0, x, m1);
    lemma_three(c, x);
    let (a, b, d, f) = (zx::dot(e0, m0), zx::dot(e0, m1), zx::dot(e1, m0), zx::dot(e1, m1));
    assert(a + x * b + x * (d + x * f) == a + x * ((b + d) + x * f)) by (nonlinear_arith);
    zx::lemma_red_same(c);
    zx::lemma_eval_same(zx::red(c), c, x, x);
}

proof fn lemma_dot_axpy_right(c: Seq<int>, a: Seq<int>, k: int, b: Seq<int>)
    requires
        a.len() == b.len(),
        c.len() == a.len(),
    ensures
        zx::dot(c, zx::axpy(a, k, b)) == zx::dot(c, a) + k * zx::dot(c, b),
    decreases a.len(),
{
    if a.len() > 0 {
        let (a1, b1, c1) = (a.skip(1), b.skip(1), c.skip(1));
        lemma_dot_axpy_right(c1, a1, k, b1);
        assert(zx::axpy(a, k, b).skip(1) =~= zx::axpy(a1, k, b1));
        let (da, db) = (zx::dot(c1, a1), zx::dot(c1, b1));
        assert(c[0] * (a[0] + k * b[0]) + (da + k * db) == (c[0] * a[0] + da) + k * (c[0] * b[0]
            + db)) by (nonlinear_arith);
    } else {
        assert(k * 0 == 0);
    }
}

/// The inner products for both values of the first variable add up to the whole.
proof fn lemma_halves(e: Seq<int>, m: Seq<int>)
    requires
        e.len() == m.len(),
        e.len() % 2 == 0,
    ensures
        zx::dot(cube::merge(e, 0), cube::merge(m, 0)) + zx::dot(
            cube::merge(e, 1),
            cube::merge(m, 1),
        ) == zx::dot(e, m),
    decreases e.len(),
{
    if e.len() > 0 {
        let (e2, m2) = (e.skip(1).skip(1), m.skip(1).skip(1));
        lemma_halves(e2, m2);
        let (a0, b0) = (cube::merge(e, 0), cube::merge(m, 0));
        let (a1, b1) = (cube::merge(e, 1), cube::merge(m, 1));
        assert(a0.skip(1) =~= cube::merge(e2, 0) && b0.skip(1) =~= cube::merge(m2, 0));
        assert(a1.skip(1) =~= cube::merge(e2, 1) && b1.skip(1) =~= cube::merge(m2, 1));
        assert(a0[0] == e[0] && b0[0] == m[0] && a1[0] == e[1] && b1[0] == m[1]);
        assert(e.skip(1)[0] == e[1] && m.skip(1)[0] == m[1]);
        assert(zx::dot(e, m) == e[0] * m[0] + zx::dot(e.skip(1), m.skip(1)));
        assert(zx::dot(e.skip(1), m.skip(1)) == e[1] * m[1] + zx::dot(e2, m2));
    }
}

/// What a verifier expects of a message is what an honest message says.
proof fn lemma_message_sum(e: Seq<int>, m: Seq<int>)
    requires
        e.len() == m.len(),
        e.len() % 2 == 0,
    ensures
        zp::red(zx::eval(message(e, m), 0) + zx::eval(message(e, m), 1)) == zp::red(
            zx::dot(e, m),
        ),
{
    lemma_message(e, m, 0);
    lemma_message(e, m, 1);
    lemma_halves(e, m);
    zp::lemma_same_add(
        zx::eval(message(e, m), 0),
        zx::dot(cube::merge(e, 0), cube::merge(m, 0)),
        zx::eval(message(e, m), 1),
        zx::dot(cube::merge(e, 1), cube::merge(m, 1)),
    );
}

/// The tables hold as many values as there are for `n` variables, several times over.
pub open spec fn shaped(n: nat, e: Seq<int>, m: Seq<int>) -> bool {
    &&& e.len() == m.len()
    &&& e.len() as int % (pow2(n) as int) == 0
}

proof fn lemma_shaped(n: nat, e: Seq<int>, m: Seq<int>, x: int)
    requires
        n > 0,
        shaped(n, e, m),
    ensures
        e.len() % 2 == 0,
        shaped((n - 1) as nat, zx::red(cube::merge(e, x)), zx::red(cube::merge(m, x))),
{
    let (l, h) = (e.len() as int, pow2((n - 1) as nat) as int);
    lemma_pow2_unfold(n);
    lemma_pow2_pos((n - 1) as nat);
    let k = l / (2 * h);
    vstd::arithmetic::div_mod::lemma_fundamental_div_mod(l, 2 * h);
    assert(l == 2 * (k * h)) by (nonlinear_arith)
        requires
            l == (2 * h) * k,
    ;
    assert(l / 2 == k * h);
    vstd::arithmetic::div_mod::lemma_mod_multiples_basic(k, h);
}

/// Completeness: a verifier who stands where a prover stood, and expects the inner product
/// of the tables, finds all messages consistent and is left with the inner product of what
/// the prover is left with.
pub proof fn law_sum_check(n: nat, e: Seq<int>, m: Seq<int>, t: Transcript, all: Seq<u8>)
    requires
        shaped(n, e, m),
        proved(n, e, m, t).transcript.written_in(all),
    ensures
        t.written_in(all),
        ({
            let p = proved(n, e, m, t);
            checked(n, zp::red(zx::dot(e, m)), t.reading(all)) == Ok::<Checked, Error>(
                Checked {
                    challenges: p.challenges,
                    value: zp::red(zx::dot(p.e, p.m)),
                    consistent: true,
                    transcript: p.transcript.reading(all),
                },
            )
        }),
    decreases n,
{
    if n > 0 {
        let msg = message(e, m);
        let t1 = mercury::with_scalars(t, msg);
        let c = t1.challenge();
        let (e1, m1) = (cube::merge(e, c), cube::merge(m, c));
        lemma_shaped(n, e, m, c);
        law_sum_check((n - 1) as nat, zx::red(e1), zx::red(m1), t1.squeezed(), all);
        assert(t1.written_in(all));
        assert forall|i: int| 0 <= i < msg.len() implies 0 <= #[trigger] msg[i]
            < zp::modulus() by {
            zp::lemma_red(
                seq![
                    zx::dot(low(e), low(m)),
                    zx::dot(low(e), slope(m)) + zx::dot(slope(e), low(m)),
                    zx::dot(slope(e), slope(m)),
                ][i],
            );
        }
        mercury::law_scalars_read_back(t, msg, all);
        lemma_message_sum(e, m);
        lemma_message(e, m, c);
        zx::lemma_red_same(e1);
        zx::lemma_red_same(m1);
        zx::lemma_dot_same(zx::red(e1), e1, zx::red(m1), m1);
        assert(t1.reading(all).squeezed() == t1.squeezed().reading(all));
        assert(t1.reading(all).challenge() == c);
    }
}

/// Each round of a verifier who finds all messages consistent: three coefficients are read,
/// their polynomial adds up over zero and one to what was expected, and its value at the
/// challenge drawn next is what the other rounds expect.
pub proof fn law_round(n: nat, value: int, t: Transcript, c: Checked)
    requires
        n > 0,
        checked(n, value, t) == Ok::<Checked, Error>(c),
        c.consistent,
    ensures
        mercury::next_scalars(3, t) is Ok,
        ({
            let (msg, t1) = mercury::next_scalars(3, t)->Ok_0;
            let x = t1.challenge();
            &&& zp::red(2 * msg[0] + msg[1] + msg[2]) == value
            &&& checked(
                (n - 1) as nat,
                zp::red(msg[0] + x * msg[1] + (x * x) * msg[2]),
                t1.squeezed(),
            ) == Ok::<Checked, Error>(Checked { challenges: c.challenges.skip(1), ..c })
            &&& c.challenges.len() > 0
            &&& c.challenges[0] == x
        }),
{
    assert(mercury::next_scalars(3, t) is Ok);
    let (msg, t1) = mercury::next_scalars(3, t)->Ok_0;
    let x = t1.challenge();
    lemma_scalars_len(3, t);
    lemma_three(msg, 0);
    lemma_three(msg, 1);
    lemma_three(msg, x);
    assert(x * (x * msg[2]) == (x * x) * msg[2]) by (nonlinear_arith);
    lemma_mul_is_distributive(x, msg[1], x * msg[2]);
    let r = checked((n - 1) as nat, zp::red(zx::eval(msg, x)), t1.squeezed())->Ok_0;
    assert((seq![x] + r.challenges).skip(1) =~= r.challenges);
}

proof fn lemma_mul_is_distributive(x: int, a: int, b: int)
    ensures
        x * (a + b) == x * a + x * b,
{
    vstd::arithmetic::mul::lemma_mul_is_distributive_add(x, a, b);
}

proof fn lemma_scalars_len(n: nat, t: Transcript)
    ensures
        mercury::next_scalars(n, t) matches Ok((v, _)) ==> v.len() == n,
    decreases n,
{
    if n > 0 {
        lemma_scalars_len((n - 1) as nat, t);
    }
}

/// With no rounds, what is expected is what is left.
pub proof fn law_no_rounds(value: int, t: Transcript)
    ensures
        checked(0, value, t) == Ok::<Checked, Error>(
            Checked { challenges: Seq::empty(), value, consistent: true, transcript: t },
        ),
{
}

/// One proof is consistent with no more than one expected value.
pub proof fn law_one_value(n: nat, a: int, b: int, t: Transcript)
    requires
        n > 0,
        checked(n, a, t) matches Ok(c) && c.consistent,
        checked(n, b, t) matches Ok(c) && c.consistent,
    ensures
        a == b,
{
}

/// No other sum: what a prover wrote is not consistent with any value but the inner product
/// of the tables.
pub proof fn law_wrong_sum(
    n: nat,
    e: Seq<int>,
    m: Seq<int>,
    t: Transcript,
    all: Seq<u8>,
    value: int,
)
    requires
        n > 0,
        shaped(n, e, m),
        proved(n, e, m, t).transcript.written_in(all),
        value != zp::red(zx::dot(e, m)),
    ensures
        checked(n, value, t.reading(all)) matches Ok(c) && !c.consistent,
{
    law_sum_check(n, e, m, t, all);
}

/// The message of a round is the inner product of the tables, as a polynomial in their first
/// variable.
pub proof fn law_message(e: Seq<int>, m: Seq<int>, x: int)
    requires
        e.len() == m.len(),
        e.len() % 2 == 0,
    ensures
        message(e, m).len() == 3,
        zp::same(
            zx::eval(message(e, m), x),
            zx::dot(cube::merge(e, x), cube::merge(m, x)),
        ),
{
    lemma_message(e, m, x);
}

/// A prover is left with the tables whose variables are fixed to the challenges.
pub proof fn law_proved_tables(n: nat, e: Seq<int>, m: Seq<int>, t: Transcript)
    ensures
        ({
            let p = proved(n, e, m, t);
            &&& p.challenges.len() == n
            &&& zx::same(p.e, cube::fold(e, p.challenges))
            &&& zx::same(p.m, cube::fold(m, p.challenges))
        }),
    decreases n,
{
    if n > 0 {
        let t1 = mercury::with_scalars(t, message(e, m));
        let c = t1.challenge();
        let (e1, m1) = (cube::merge(e, c), cube::merge(m, c));
        let p = proved((n - 1) as nat, zx::red(e1), zx::red(m1), t1.squeezed());
        law_proved_tables((n - 1) as nat, zx::red(e1), zx::red(m1), t1.squeezed());
        let all = seq![c] + p.challenges;
        assert(all.skip(1) =~= p.challenges);
        zx::lemma_red_same(e1);
        zx::lemma_red_same(m1);
        lemma_fold_same(zx::red(e1), e1, p.challenges);
        lemma_fold_same(zx::red(m1), m1, p.challenges);
        lemma_same_trans(p.e, cube::fold(zx::red(e1), p.challenges), cube::fold(e1, p.challenges));
        lemma_same_trans(p.m, cube::fold(zx::red(m1), p.challenges), cube::fold(m1, p.challenges));
    }
}

proof fn lemma_same_trans(a: Seq<int>, b: Seq<int>, c: Seq<int>)
    requires
        zx::same(a, b),
        zx::same(b, c),
    ensures
        zx::same(a, c),
{
    assert forall|i: int| 0 <= i < a.len() implies zp::same(#[trigger] a[i], c[i]) by {
        assert(zp::same(b[i], c[i]));
    }
}

proof fn lemma_merge_same(f: Seq<int>, g: Seq<int>, x: int)
    requires
        zx::same(f, g),
    ensures
        zx::same(cube::merge(f, x), cube::merge(g, x)),
{
    assert forall|k: int| 0 <= k < f.len() / 2 implies zp::same(
        #[trigger] cube::merge(f, x)[k],
        cube::merge(g, x)[k],
    ) by {
        let (a, b, c, d) = (f[2 * k], g[2 * k], f[2 * k + 1], g[2 * k + 1]);
        assert(zp::same(a, b) && zp::same(c, d));
        zp::lemma_same_sub(c, d, a, b);
        zp::lemma_same_mul(x, x, c - a, d - b);
        zp::lemma_same_add(a, b, x * (c - a), x * (d - b));
    }
}

proof fn lemma_fold_same(f: Seq<int>, g: Seq<int>, u: Seq<int>)
    requires
        zx::same(f, g),
    ensures
        zx::same(cube::fold(f, u), cube::fold(g, u)),
    decreases u.len(),
{
    if u.len() > 0 {
        lemma_merge_same(f, g, u[0]);
        lemma_fold_same(cube::merge(f, u[0]), cube::merge(g, u[0]), u.skip(1));
    }
}

proof fn lemma_dot_push(a: Seq<int>, b: Seq<int>, k: int)
    requires
        a.len() == b.len(),
        0 <= k < a.len(),
    ensures
        zx::dot(a.take(k + 1), b.take(k + 1)) == zx::dot(a.take(k), b.take(k)) + a[k] * b[k],
{
    let (x, y) = (seq![a[k]], seq![b[k]]);
    assert(a.take(k + 1) =~= a.take(k) + x && b.take(k + 1) =~= b.take(k) + y);
    zx::lemma_dot_concat(a.take(k), x, b.take(k), y);
    assert(zx::dot(x.skip(1), y.skip(1)) == 0);
}

/// `acc + a * b`, as the next term of an inner product.
fn add_product(
    acc: &Scalar,
    a: &Scalar,
    b: &Scalar,
    Ghost(sum): Ghost<int>,
    Ghost(x): Ghost<int>,
    Ghost(y): Ghost<int>,
) -> (r: Scalar)
    requires
        acc@ == zp::red(sum),
        a@ == zp::red(x),
        b@ == zp::red(y),
    ensures
        r@ == zp::red(sum + x * y),
{
    proof {
        zp::lemma_red(sum);
        zp::lemma_red(x);
        zp::lemma_red(y);
        zp::lemma_same_mul(a@, x, b@, y);
        zp::lemma_same_add(a@ * b@, x * y, acc@, sum);
    }
    a.mul_add(b, acc)
}

/// The coefficients of the inner product of `e` and `m` with their first variable fixed to
/// `X`.
fn round_message(e: &Vec<Scalar>, m: &Vec<Scalar>) -> (r: Vec<Scalar>)
    requires
        e.len() == m.len(),
        e.len() % 2 == 0,
    ensures
        field::values(r@) == message(field::values(e@), field::values(m@)),
{
    let ghost (ce, cm) = (field::values(e@), field::values(m@));
    let ghost (e0, e1, m0, m1) = (low(ce), slope(ce), low(cm), slope(cm));
    let half: usize = e.len() / 2;
    let mut c0 = Scalar::zero();
    let mut c1 = Scalar::zero();
    let mut c2 = Scalar::zero();
    proof {
        zp::lemma_modulus();
        zp::lemma_red(0);
    }
    for k in 0..half
        invariant
            half == e.len() / 2,
            e.len() == m.len(),
            e.len() % 2 == 0,
            ce == field::values(e@),
            cm == field::values(m@),
            e0 == low(ce),
            e1 == slope(ce),
            m0 == low(cm),
            m1 == slope(cm),
            c0@ == zp::red(zx::dot(e0.take(k as int), m0.take(k as int))),
            c1@ == zp::red(
                zx::dot(e0.take(k as int), m1.take(k as int)) + zx::dot(
                    e1.take(k as int),
                    m0.take(k as int),
                ),
            ),
            c2@ == zp::red(zx::dot(e1.take(k as int), m1.take(k as int))),
    {
        let (el, ml) = (e[2 * k], m[2 * k]);
        let es = e[2 * k + 1].minus(&el);
        let ms = m[2 * k + 1].minus(&ml);
        let ghost i = k as int;
        proof {
            lemma_dot_push(e0, m0, i);
            lemma_dot_push(e0, m1, i);
            lemma_dot_push(e1, m0, i);
            lemma_dot_push(e1, m1, i);
            field::lemma_scalar_range(el);
            field::lemma_scalar_range(ml);
            zp::lemma_red(el@);
            zp::lemma_red(ml@);
            assert(el@ == e0[i] && ml@ == m0[i]);
            assert(es@ == zp::red(e1[i]) && ms@ == zp::red(m1[i]));
        }
        let ghost (d00, d01) = (zx::dot(e0.take(i), m0.take(i)), zx::dot(e0.take(i), m1.take(i)));
        let ghost (d10, d11) = (zx::dot(e1.take(i), m0.take(i)), zx::dot(e1.take(i), m1.take(i)));
        c0 = add_product(&c0, &el, &ml, Ghost(d00), Ghost(e0[i]), Ghost(m0[i]));
        c1 = add_product(&c1, &el, &ms, Ghost(d01 + d10), Ghost(e0[i]), Ghost(m1[i]));
        c1 = add_product(
            &c1,
            &es,
            &ml,
            Ghost(d01 + d10 + e0[i] * m1[i]),
            Ghost(e1[i]),
            Ghost(m0[i]),
        );
        c2 = add_product(&c2, &es, &ms, Ghost(d11), Ghost(e1[i]), Ghost(m1[i]));
    }
    let mut r: Vec<Scalar> = Vec::new();
    r.push(c0);
    r.push(c1);
    r.push(c2);
    proof {
        let h = half as int;
        assert(e0.take(h) =~= e0 && e1.take(h) =~= e1);
        assert(m0.take(h) =~= m0 && m1.take(h) =~= m1);
        assert(field::values(r@) =~= message(ce, cm));
    }
    r
}

/// `n` rounds of a prover: the challenges, and the tables with their variables fixed to
/// them.
pub fn prove(n: usize, e: Vec<Scalar>, m: Vec<Scalar>, transcript: &mut ProofWriter) -> (r: (
    Vec<Scalar>,
    Vec<Scalar>,
    Vec<Scalar>,
))
    requires
        shaped(n as nat, field::values(e@), field::values(m@)),
    ensures
        ({
            let p = proved(
                n as nat,
                field::values(e@),
                field::values(m@),
                old(transcript)@,
            );
            &&& field::values(r.0@) == p.challenges
            &&& field::values(r.1@) == p.e
            &&& field::values(r.2@) == p.m
            &&& r.0.len() == n
            &&& final(transcript)@ == p.transcript
        }),
{
    let ghost whole = proved(n as nat, field::values(e@), field::values(m@), transcript@);
    let mut e = e;
    let mut m = m;
    let mut challenges: Vec<Scalar> = Vec::new();
    proof {
        let p = proved(n as nat, field::values(e@), field::values(m@), transcript@);
        assert(field::values(challenges@) + p.challenges =~= p.challenges);
    }
    for i in 0..n
        invariant
            shaped((n - i) as nat, field::values(e@), field::values(m@)),
            challenges.len() == i,
            ({
                let p = proved(
                    (n - i) as nat,
                    field::values(e@),
                    field::values(m@),
                    transcript@,
                );
                whole == Proved { challenges: field::values(challenges@) + p.challenges, ..p }
            }),
    {
        let ghost (ce, cm) = (field::values(e@), field::values(m@));
        let ghost before = field::values(challenges@);
        let ghost t = transcript@;
        proof {
            lemma_shaped((n - i) as nat, ce, cm, 0);
        }
        let msg = round_message(&e, &m);
        mercury::write_scalars(&msg, transcript);
        let c = transcript.squeeze_challenge();
        proof {
            lemma_shaped((n - i) as nat, ce, cm, c@);
        }
        e = multilinear::merge(&e, &c);
        m = multilinear::merge(&m, &c);
        challenges.push(c);
        proof {
            let p = proved(
                (n - i - 1) as nat,
                field::values(e@),
                field::values(m@),
                transcript@,
            );
            assert(proved((n - i) as nat, ce, cm, t).challenges == seq![c@] + p.challenges);
            assert(field::values(challenges@) =~= before.push(c@));
            assert(before + (seq![c@] + p.challenges) =~= before.push(c@) + p.challenges);
        }
    }
    proof {
        let p = proved(0, field::values(e@), field::values(m@), transcript@);
        assert(field::values(challenges@) + p.challenges =~= field::values(challenges@));
    }
    (challenges, e, m)
}

/// `n` rounds of a verifier who expects the inner product to be `value`: the challenges, and
/// what the inner product is claimed to be when all variables are fixed to them.
pub fn verify(n: usize, value: Scalar, transcript: &mut ProofReader) -> (r: Result<
    (Vec<Scalar>, Scalar),
    Error,
>)
    ensures
        final(transcript)@ == after_rounds(n as nat, old(transcript)@),
        match checked(n as nat, value@, old(transcript)@) {
            Err(e) => r == Err::<(Vec<Scalar>, Scalar), Error>(e),
            Ok(c) => if c.consistent {
                &&& r matches Ok((challenges, v))
                &&& field::values(challenges@) == c.challenges
                &&& challenges.len() == n
                &&& v@ == c.value
                &&& final(transcript)@ == c.transcript
            } else {
                r == Err::<(Vec<Scalar>, Scalar), Error>(Error::InvalidSumcheck)
            },
        },
{
    let ghost t0 = transcript@;
    let ghost v0 = value@;
    let mut value = value;
    let mut consistent = true;
    let mut challenges: Vec<Scalar> = Vec::new();
    proof {
        if let Ok(c) = checked(n as nat, v0, t0) {
            assert(field::values(challenges@) + c.challenges =~= c.challenges);
        }
    }
    for i in 0..n
        invariant
            t0 == old(transcript)@,
            challenges.len() == i,
            after_rounds(n as nat, t0) == after_rounds((n - i) as nat, transcript@),
            checked(n as nat, v0, t0) == match checked((n - i) as nat, value@, transcript@) {
                Err(e) => Err::<Checked, Error>(e),
                Ok(c) => Ok(
                    Checked {
                        challenges: field::values(challenges@) + c.challenges,
                        consistent: consistent && c.consistent,
                        ..c
                    },
                ),
            },
    {
        let ghost before = field::values(challenges@);
        let ghost was = consistent;
        let ghost (v, t) = (value@, transcript@);
        let msg = match mercury::read_scalars(3, transcript) {
            Err(e) => {
                return Err(e);
            },
            Ok(m) => m,
        };
        let c = transcript.squeeze_challenge();
        let total = msg[0].plus(&msg[0]).plus(&msg[1]).plus(&msg[2]);
        proof {
            let s = field::values(msg@);
            lemma_three(s, 0);
            lemma_three(s, 1);
            zp::lemma_red(s[0] + s[0]);
            let x = zp::red(s[0] + s[0]);
            zp::lemma_same_add(x, s[0] + s[0], s[1], s[1]);
            zp::lemma_red(x + s[1]);
            zp::lemma_same_add(zp::red(x + s[1]), s[0] + s[0] + s[1], s[2], s[2]);
            assert(total@ == zp::red(zx::eval(s, 0) + zx::eval(s, 1)));
        }
        consistent = consistent && total.minus(&value).is_zero();
        proof {
            field::lemma_scalar_range(total);
            field::lemma_scalar_range(value);
            lemma_difference(total@, value@);
        }
        value = horner(&msg, &c);
        challenges.push(c);
        proof {
            assert(field::values(challenges@) =~= before.push(c@));
            if let Ok(k) = checked((n - i - 1) as nat, value@, transcript@) {
                assert(before + (seq![c@] + k.challenges) =~= before.push(c@) + k.challenges);
            }
        }
    }
    proof {
        assert(field::values(challenges@) + Seq::<int>::empty() =~= field::values(challenges@));
    }
    if consistent {
        Ok((challenges, value))
    } else {
        Err(Error::InvalidSumcheck)
    }
}

proof fn lemma_difference(a: int, b: int)
    requires
        0 <= a < zp::modulus(),
        0 <= b < zp::modulus(),
    ensures
        zp::red(a - b) == 0 <==> a == b,
{
    zp::lemma_red(0);
    zp::lemma_red(a);
    zp::lemma_red(b);
    if zp::red(a - b) == 0 {
        zp::lemma_same_add(a - b, 0, b, b);
    }
}

} // verus!
