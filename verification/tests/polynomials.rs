use plonkish_backend::pcs::multilinear::steps;
use plonkish_backend::poly::fft::radix2_fft;
use plonkish_backend::poly::multilinear::{
    eq_xy, eq_xy_at, fold, merge, power_of_two, MultilinearPolynomial,
};
use plonkish_backend::poly::univariate::{horner, horner_univariate_div, UnivariatePolynomial};
use plonkish_backend::util::field::Scalar;
use plonkish_backend::util::transcript::ProofWriter;

fn scalars(values: &[u64]) -> Vec<Scalar> {
    values.iter().map(|&v| Scalar::from_u64(v)).collect()
}

fn hex(v: &Scalar) -> String {
    let mut transcript = ProofWriter::new();
    transcript.write_field_element(v);
    transcript.into_proof().iter().map(|b| format!("{:02x}", b)).collect()
}

#[test]
fn scalars_from_numbers() {
    assert!(Scalar::zero().is_zero());
    assert!(!Scalar::one().is_zero());
    assert_eq!(Scalar::one(), Scalar::from_u64(1));
    assert_eq!(hex(&Scalar::from_u64(0x1234)), format!("{:064x}", 0x1234));
}

#[test]
fn subtraction_wraps_around() {
    // 3 + 1 (1 - 3) = 1
    let p = MultilinearPolynomial::new(scalars(&[3, 1])).unwrap();
    assert_eq!(p.evaluate(&scalars(&[1])), Scalar::from_u64(1));
    // 3 + 2 (1 - 3) = -1
    assert_eq!(
        hex(&p.evaluate(&scalars(&[2]))),
        "30644e72e131a029b85045b68181585d2833e84879b9709143e1f593f0000000"
    );
}

#[test]
fn inverses_of_powers_of_two() {
    assert_eq!(hex(&Scalar::pow2_inv(0)), hex(&Scalar::one()));
    assert_eq!(
        hex(&Scalar::pow2_inv(2)),
        "244b3ad628e5381f4a3c3448e1210245de26ee365b4b146cf2e9782ef4000001"
    );
}

#[test]
fn roots_of_unity() {
    assert_eq!(Scalar::root_of_unity(0), Scalar::one());
    assert_eq!(
        hex(&Scalar::root_of_unity(1)),
        "30644e72e131a029b85045b68181585d2833e84879b9709143e1f593f0000000"
    );
    // X^4 at a root of order four is one, and X^2 is not
    let i = Scalar::root_of_unity(2);
    assert_eq!(horner(&scalars(&[0, 0, 0, 0, 1]), &i), Scalar::one());
    assert_ne!(horner(&scalars(&[0, 0, 1]), &i), Scalar::one());
}

#[test]
fn a_transform_evaluates_at_the_powers_of_the_root() {
    let a = scalars(&[1, 2, 3, 4]);
    let omega = Scalar::root_of_unity(2);
    let out = radix2_fft(&a, &omega, 2);
    let mut x = Scalar::one();
    for k in 0..4 {
        assert_eq!(out[k], horner(&a, &x));
        x = horner(&vec![Scalar::zero(), omega], &x);
    }
    assert_eq!(out[0], Scalar::from_u64(10));
}

#[test]
fn a_transform_is_undone_by_the_inverse_root() {
    let a = scalars(&[9, 8, 7, 6, 5, 4, 3, 2]);
    let omega = Scalar::root_of_unity(3);
    // the seventh power of a root of order eight is its inverse
    let mut power = scalars(&[0; 8]);
    power[7] = Scalar::one();
    let omega_inv = horner(&power, &omega);
    let there = radix2_fft(&a, &omega, 3);
    let back = radix2_fft(&there, &omega_inv, 3);
    let eighth = Scalar::pow2_inv(3);
    for i in 0..8 {
        assert_eq!(horner(&vec![Scalar::zero(), eighth], &back[i]), a[i]);
    }
}

#[test]
fn univariate_values_and_quotients() {
    let p = UnivariatePolynomial::monomial(scalars(&[1, 3, 5, 7]));
    assert_eq!(p.evaluate(&Scalar::from_u64(3)), Scalar::from_u64(244));
    assert_eq!(
        horner_univariate_div(p.coeffs(), &Scalar::from_u64(3)),
        scalars(&[81, 26, 7])
    );
    let (q, r) = p.div_rem_linear(&Scalar::from_u64(3));
    assert_eq!(q.coeffs(), &scalars(&[81, 26, 7]));
    assert_eq!(r, Scalar::from_u64(244));
    let empty = UnivariatePolynomial::monomial(Vec::new());
    assert_eq!(empty.evaluate(&Scalar::from_u64(3)), Scalar::zero());
    assert_eq!(horner_univariate_div(&Vec::new(), &Scalar::one()), Vec::new());
}

#[test]
fn tables_have_a_power_of_two_of_entries() {
    for len in 0..20usize {
        let made = MultilinearPolynomial::new(vec![Scalar::one(); len]);
        assert_eq!(made.is_some(), len == 0 || len.is_power_of_two());
    }
    let p = MultilinearPolynomial::new(scalars(&[1, 2, 3, 4])).unwrap();
    assert_eq!(p.num_vars(), 2);
    assert_eq!(p.evals(), &scalars(&[1, 2, 3, 4]));
    assert_eq!(p.clone(), p);
    assert_eq!(power_of_two(5), 32);
}

#[test]
fn multilinear_values() {
    let table = scalars(&[1, 2, 3, 4, 5, 6, 7, 8]);
    assert_eq!(merge(&table, &Scalar::from_u64(2)), scalars(&[3, 5, 7, 9]));
    assert_eq!(fold(&table, &scalars(&[2, 3, 4]), 2), scalars(&[9, 13]));
    let p = MultilinearPolynomial::new(table).unwrap();
    assert_eq!(p.evaluate(&scalars(&[2, 3, 4])), Scalar::from_u64(25));
    // at the corners of the cube it has the values of the table
    assert_eq!(p.evaluate(&scalars(&[1, 0, 1])), Scalar::from_u64(6));
}

#[test]
fn equality_polynomials() {
    assert_eq!(eq_xy(&scalars(&[1, 0]), 0), scalars(&[0, 1, 0, 0]));
    assert_eq!(eq_xy(&scalars(&[0, 1, 1]), 1), scalars(&[0, 0, 0, 1]));
    assert_eq!(eq_xy(&Vec::new(), 0), scalars(&[1]));
    // (1 - 2 + 2 x) (1 - 3 + 3 x^2) at x = 2
    assert_eq!(eq_xy_at(&scalars(&[2, 3]), 0, 2, &Scalar::from_u64(2)), Scalar::from_u64(30));
    // as the coefficients of a univariate polynomial
    let y = scalars(&[2, 3]);
    let x = Scalar::from_u64(5);
    assert_eq!(horner(&eq_xy(&y, 0), &x), eq_xy_at(&y, 0, 2, &x));
}

#[test]
fn division_by_a_power_less_a_constant() {
    // f = (X^2 - 3) q + g
    let f = scalars(&[1, 2, 3, 4, 5, 6, 7, 8]);
    let (g, q) = steps::divide(&f, 2, 4, &Scalar::from_u64(3));
    assert_eq!(g, scalars(&[244, 284]));
    assert_eq!(q, scalars(&[81, 94, 26, 30, 7, 8]));
    // at X = 2 the divisor is one
    let two = Scalar::from_u64(2);
    assert_eq!(horner(&f, &two), Scalar::from_u64(1793));
    assert_eq!(horner(&q, &two), Scalar::from_u64(981));
    assert_eq!(horner(&g, &two), Scalar::from_u64(812));
}

#[test]
fn folding_keeps_the_value() {
    // the value of the folded polynomial at the other coordinates is that of the whole
    let f = scalars(&[3, 1, 4, 1, 5, 9, 2, 6]);
    let point = scalars(&[2, 7, 5]);
    let whole = MultilinearPolynomial::new(f.clone()).unwrap();
    let folded = MultilinearPolynomial::new(fold(&f, &point, 2)).unwrap();
    assert_eq!(folded.evaluate(&scalars(&[5])), whole.evaluate(&point));
}

#[test]
fn the_folded_value_at_the_challenge() {
    // h(alpha) is the inner product of g with the weights of the columns
    let f = scalars(&[1, 2, 3, 4, 5, 6, 7, 8]);
    let alpha = Scalar::from_u64(3);
    let u = scalars(&[2]);
    let h = fold(&f, &u, 1);
    let (g, _) = steps::divide(&f, 2, 4, &alpha);
    let g = MultilinearPolynomial::new(g).unwrap();
    assert_eq!(horner(&h, &alpha), Scalar::from_u64(3 + 15 + 63 + 243));
    assert_eq!(g.evaluate(&u), horner(&h, &alpha));
}

#[test]
fn reversed_and_padded() {
    let a = scalars(&[1, 2, 3]);
    assert_eq!(steps::reversed(&a), scalars(&[3, 2, 1]));
    assert_eq!(steps::padded(&a, 5), scalars(&[1, 2, 3, 0, 0]));
    // X^2 a(1/X) at X = 2 is a at 1/2, four times over
    let at_half = horner(&a, &Scalar::pow2_inv(1));
    assert_eq!(
        horner(&steps::reversed(&a), &Scalar::from_u64(2)),
        horner(&vec![Scalar::zero(), Scalar::from_u64(4)], &at_half)
    );
}

#[test]
fn tail_of_the_inner_product_polynomial() {
    let tail = steps::inner_product_tail(
        &scalars(&[1, 2]),
        &scalars(&[3, 4]),
        &Scalar::from_u64(10),
        &scalars(&[5, 6]),
        &scalars(&[7, 8]),
        1,
    );
    assert_eq!(tail, scalars(&[2 * 3 + 4 * 1 + 10 * (6 * 7 + 8 * 5)]));
    let tail = steps::inner_product_tail(
        &scalars(&[1, 2, 3, 4]),
        &scalars(&[5, 6, 7, 8]),
        &Scalar::zero(),
        &scalars(&[0; 4]),
        &scalars(&[0; 4]),
        2,
    );
    assert_eq!(tail, scalars(&[56 + 44, 39 + 23, 20 + 8]));
}
