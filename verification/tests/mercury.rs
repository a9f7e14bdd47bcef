use plonkish_backend::error::{Error, Operation};
use plonkish_backend::pcs::multilinear::mercury::Mercury;
use plonkish_backend::pcs::univariate::{
    Evaluation, UnivariateKzg, UnivariateKzgProverParam, UnivariateKzgVerifierParam,
};
use plonkish_backend::poly::multilinear::MultilinearPolynomial;
use plonkish_backend::util::curve::G1Affine;
use plonkish_backend::util::field::Scalar;
use plonkish_backend::util::transcript::{ProofReader, ProofWriter};
use plonkish_backend::util::wire::Wire;
use rand::rngs::StdRng;
use rand::{RngCore, SeedableRng};

type Pcs = Mercury<UnivariateKzg>;

fn random_poly(num_vars: usize, rng: &mut StdRng) -> MultilinearPolynomial {
    let evals = (0..1usize << num_vars).map(|_| Scalar::from_u64(rng.next_u64())).collect();
    MultilinearPolynomial::new(evals).unwrap()
}

fn params(
    num_vars: usize,
    batch_size: usize,
    rng: &mut StdRng,
) -> (UnivariateKzgProverParam, UnivariateKzgVerifierParam) {
    let poly_size = 1 << num_vars;
    let param = Pcs::setup(poly_size, batch_size, rng).unwrap();
    Pcs::trim(&param, poly_size, batch_size).unwrap()
}

fn write_point(num_vars: usize, transcript: &mut ProofWriter) -> Vec<Scalar> {
    (0..num_vars).map(|_| transcript.squeeze_challenge()).collect()
}

fn read_point(num_vars: usize, transcript: &mut ProofReader) -> Vec<Scalar> {
    (0..num_vars).map(|_| transcript.squeeze_challenge()).collect()
}

/// Commits to a polynomial and opens it at a point drawn from the transcript.
fn proof_of(pp: &UnivariateKzgProverParam, poly: &MultilinearPolynomial) -> Vec<u8> {
    let mut transcript = ProofWriter::new();
    let comm = Pcs::commit(pp, poly).unwrap();
    transcript.write_commitment(&comm);
    let point = write_point(poly.num_vars(), &mut transcript);
    let eval = poly.evaluate(&point);
    transcript.write_field_element(&eval);
    Pcs::open(pp, poly, &comm, &point, &eval, &mut transcript).unwrap();
    transcript.into_proof()
}

fn verify_proof(
    vp: &UnivariateKzgVerifierParam,
    num_vars: usize,
    proof: Vec<u8>,
) -> Result<(), Error> {
    let mut transcript = ProofReader::from_proof(proof);
    let comm = Pcs::read_commitments(vp, 1, &mut transcript)?[0];
    let point = read_point(num_vars, &mut transcript);
    let eval = transcript.read_field_element()?;
    Pcs::verify(vp, &comm, &point, &eval, &mut transcript)
}

#[test]
fn commit_open_verify() {
    let mut rng = StdRng::seed_from_u64(1);
    for num_vars in 3..9 {
        let (pp, vp) = params(num_vars, 1, &mut rng);
        let proof = proof_of(&pp, &random_poly(num_vars, &mut rng));
        assert_eq!(verify_proof(&vp, num_vars, proof), Ok(()));
    }
}

fn batch_pairs(batch_size: usize, num_points: usize, rng: &mut StdRng) -> Vec<(usize, usize)> {
    let mut pairs: Vec<(usize, usize)> = Vec::new();
    let mut all: Vec<(usize, usize)> = (0..num_points).map(|point| (0, point)).collect();
    all.extend((0..batch_size).map(|poly| (poly, 0)));
    for _ in 0..batch_size {
        let poly = (rng.next_u32() as usize) % batch_size;
        let point = (rng.next_u32() as usize) % num_points;
        all.push((poly, point));
    }
    for pair in all {
        if !pairs.contains(&pair) {
            pairs.push(pair);
        }
    }
    pairs
}

struct Batch {
    vp: UnivariateKzgVerifierParam,
    num_vars: usize,
    batch_size: usize,
    num_points: usize,
    pairs: Vec<(usize, usize)>,
}

fn batch_proof(num_vars: usize, rng: &mut StdRng) -> (Batch, Vec<u8>) {
    let batch_size = 8;
    let num_points = batch_size >> 1;
    let (pp, vp) = params(num_vars, batch_size, rng);
    let pairs = batch_pairs(batch_size, num_points, rng);
    let mut transcript = ProofWriter::new();
    let polys: Vec<MultilinearPolynomial> =
        (0..batch_size).map(|_| random_poly(num_vars, rng)).collect();
    let comms = Pcs::batch_commit(&pp, &polys).unwrap();
    for comm in comms.iter() {
        transcript.write_commitment(comm);
    }
    let points: Vec<Vec<Scalar>> =
        (0..num_points).map(|_| write_point(num_vars, &mut transcript)).collect();
    let evals: Vec<Evaluation> = pairs
        .iter()
        .map(|&(poly, point)| Evaluation::new(poly, point, polys[poly].evaluate(&points[point])))
        .collect();
    for eval in evals.iter() {
        transcript.write_field_element(&eval.value);
    }
    Pcs::batch_open(&pp, &polys, &comms, &points, &evals, &mut transcript).unwrap();
    (Batch { vp, num_vars, batch_size, num_points, pairs }, transcript.into_proof())
}

fn verify_batch(batch: &Batch, proof: Vec<u8>, wrong: Option<usize>) -> Result<(), Error> {
    let mut transcript = ProofReader::from_proof(proof);
    let comms: Vec<G1Affine> =
        Pcs::read_commitments(&batch.vp, batch.batch_size, &mut transcript)?;
    let points: Vec<Vec<Scalar>> = (0..batch.num_points)
        .map(|_| read_point(batch.num_vars, &mut transcript))
        .collect();
    let mut evals: Vec<Evaluation> = Vec::new();
    for &(poly, point) in batch.pairs.iter() {
        evals.push(Evaluation::new(poly, point, transcript.read_field_element()?));
    }
    if let Some(i) = wrong {
        evals[i].value = Scalar::from_u64(7);
    }
    Pcs::batch_verify(&batch.vp, &comms, &points, &evals, &mut transcript)
}

#[test]
fn batch_commit_open_verify() {
    let mut rng = StdRng::seed_from_u64(2);
    for num_vars in 3..8 {
        let (batch, proof) = batch_proof(num_vars, &mut rng);
        assert_eq!(verify_batch(&batch, proof, None), Ok(()));
    }
}

#[test]
fn one_and_two_variables() {
    let mut rng = StdRng::seed_from_u64(3);
    for num_vars in 1..3 {
        let (pp, vp) = params(num_vars, 1, &mut rng);
        let proof = proof_of(&pp, &random_poly(num_vars, &mut rng));
        assert_eq!(verify_proof(&vp, num_vars, proof), Ok(()));
        let (batch, proof) = batch_proof(num_vars, &mut rng);
        assert_eq!(verify_batch(&batch, proof, None), Ok(()));
    }
}

#[test]
fn constant_and_zero_polynomials() {
    let mut rng = StdRng::seed_from_u64(4);
    let (pp, vp) = params(4, 1, &mut rng);
    for value in [0, 5] {
        let poly = MultilinearPolynomial::new(vec![Scalar::from_u64(value); 16]).unwrap();
        assert_eq!(verify_proof(&vp, 4, proof_of(&pp, &poly)), Ok(()));
    }
}

#[test]
fn an_opening_writes_fourteen_points_and_six_scalars() {
    let mut rng = StdRng::seed_from_u64(5);
    for num_vars in 1..6 {
        let (pp, _) = params(num_vars, 1, &mut rng);
        let proof = proof_of(&pp, &random_poly(num_vars, &mut rng));
        assert_eq!(proof.len(), 64 + 32 + 14 * 64 + 6 * 32);
    }
}

#[test]
fn a_wrong_value_is_refused() {
    let mut rng = StdRng::seed_from_u64(6);
    let (pp, vp) = params(4, 1, &mut rng);
    let poly = random_poly(4, &mut rng);
    let comm = Pcs::commit(&pp, &poly).unwrap();
    let point: Vec<Scalar> = (1..5).map(Scalar::from_u64).collect();
    let eval = poly.evaluate(&point);
    let mut transcript = ProofWriter::new();
    Pcs::open(&pp, &poly, &comm, &point, &eval, &mut transcript).unwrap();
    let proof = transcript.into_proof();
    let verify = |comm: &G1Affine, point: &Vec<Scalar>, eval: &Scalar| {
        Pcs::verify(&vp, comm, point, eval, &mut ProofReader::from_proof(proof.clone()))
    };
    assert_eq!(verify(&comm, &point, &eval), Ok(()));
    assert_eq!(verify(&comm, &point, &Scalar::from_u64(3)), Err(Error::InvalidPcsOpen));
    let other = Pcs::commit(&pp, &random_poly(4, &mut rng)).unwrap();
    assert_eq!(verify(&other, &point, &eval), Err(Error::InvalidPcsOpen));
    let mut moved = point.clone();
    moved[0] = Scalar::from_u64(9);
    assert_eq!(verify(&comm, &moved, &eval), Err(Error::InvalidPcsOpen));
}

#[test]
fn every_part_of_a_proof_matters() {
    let mut rng = StdRng::seed_from_u64(7);
    let (pp, vp) = params(3, 1, &mut rng);
    let proof = proof_of(&pp, &random_poly(3, &mut rng));
    // the lowest bit of each written scalar
    for i in 0..6 {
        let mut changed = proof.clone();
        let at = 64 + 32 + 5 * 64 + i * 32 + 31;
        changed[at] ^= 1;
        assert_eq!(verify_proof(&vp, 3, changed), Err(Error::InvalidPcsOpen));
    }
    // one point in place of another
    let (a, b) = (64 + 32, 64 + 32 + 64);
    let mut changed = proof.clone();
    changed.copy_within(a..b, b);
    assert_eq!(verify_proof(&vp, 3, changed), Err(Error::InvalidPcsOpen));
}

#[test]
fn a_short_proof_is_truncated() {
    let mut rng = StdRng::seed_from_u64(8);
    let (pp, vp) = params(3, 1, &mut rng);
    let proof = proof_of(&pp, &random_poly(3, &mut rng));
    for len in [0, 63, 95, 96, 200, 500, proof.len() - 1] {
        let short = proof[..len].to_vec();
        assert_eq!(verify_proof(&vp, 3, short), Err(Error::TruncatedProof));
    }
}

#[test]
fn polynomials_that_are_too_large() {
    let mut rng = StdRng::seed_from_u64(9);
    let (pp, _) = params(3, 1, &mut rng);
    let poly = random_poly(4, &mut rng);
    let small = random_poly(3, &mut rng);
    let error = |operation: Operation| Error::TooLargeDegree { operation, upto: 7, got: 15 };
    assert_eq!(Pcs::commit(&pp, &poly), Err(error(Operation::Commit)));
    assert!(Pcs::commit(&pp, &small).is_ok());
    assert_eq!(
        Pcs::batch_commit(&pp, &vec![small.clone(), poly.clone()]),
        Err(error(Operation::Commit))
    );
    let comm = Pcs::commit(&pp, &small).unwrap();
    let point: Vec<Scalar> = (1..5).map(Scalar::from_u64).collect();
    let mut transcript = ProofWriter::new();
    assert_eq!(
        Pcs::open(&pp, &poly, &comm, &point, &Scalar::zero(), &mut transcript),
        Err(error(Operation::Open))
    );
    // whatever the point, the commitment and the value
    let other = Pcs::commit(&pp, &random_poly(2, &mut rng)).unwrap();
    for len in [0, 1, 9] {
        let point = vec![Scalar::one(); len];
        assert_eq!(
            Pcs::open(&pp, &poly, &other, &point, &Scalar::one(), &mut transcript),
            Err(error(Operation::Open))
        );
    }
    assert_eq!(transcript.squeeze_challenge(), ProofWriter::new().squeeze_challenge());
    assert_eq!(transcript.into_proof().len(), 0);
}

#[test]
fn an_opening_does_not_depend_on_the_commitment_and_the_value() {
    let mut rng = StdRng::seed_from_u64(14);
    let (pp, _) = params(3, 1, &mut rng);
    let poly = random_poly(3, &mut rng);
    let point: Vec<Scalar> = (1..4).map(Scalar::from_u64).collect();
    let open = |comm: &G1Affine, eval: &Scalar| {
        let mut transcript = ProofWriter::new();
        Pcs::open(&pp, &poly, comm, &point, eval, &mut transcript).unwrap();
        (transcript.squeeze_challenge(), transcript.into_proof())
    };
    let comm = Pcs::commit(&pp, &poly).unwrap();
    let other = Pcs::commit(&pp, &random_poly(3, &mut rng)).unwrap();
    assert_eq!(open(&comm, &poly.evaluate(&point)), open(&other, &Scalar::zero()));
}

#[test]
fn commitments_are_linear() {
    let mut rng = StdRng::seed_from_u64(15);
    let (pp, _) = params(2, 1, &mut rng);
    let commit = |v: [u64; 4]| {
        let evals = v.iter().map(|&v| Scalar::from_u64(v)).collect();
        Pcs::commit(&pp, &MultilinearPolynomial::new(evals).unwrap()).unwrap()
    };
    let (p, q) = (commit([1, 2, 3, 4]), commit([7, 0, 5, 6]));
    let factors = vec![Scalar::from_u64(10), Scalar::from_u64(3)];
    assert_eq!(
        UnivariateKzg::combine_commitments(&factors, &vec![p, q]),
        commit([31, 20, 45, 58])
    );
}

#[test]
fn trim_keeps_what_was_set_up() {
    let mut rng = StdRng::seed_from_u64(10);
    let param = Pcs::setup(8, 1, &mut rng).unwrap();
    assert_eq!(param.degree(), 7);
    assert_eq!(Pcs::trim(&param, 4, 1).unwrap().0.degree(), 3);
    assert_eq!(
        Pcs::trim(&param, 9, 1).err(),
        Some(Error::TooLargeDegree { operation: Operation::Trim, upto: 7, got: 8 })
    );
}

#[test]
fn setup_draws_a_secret() {
    let commit = |seed: u64| {
        let mut rng = StdRng::seed_from_u64(seed);
        let (pp, _) = params(2, 1, &mut rng);
        let evals = (1..5).map(Scalar::from_u64).collect();
        Pcs::commit(&pp, &MultilinearPolynomial::new(evals).unwrap()).unwrap()
    };
    assert_eq!(commit(1), commit(1));
    assert_ne!(commit(1), commit(2));
}

#[test]
fn a_batch_with_a_wrong_value_is_refused() {
    let mut rng = StdRng::seed_from_u64(11);
    let (batch, proof) = batch_proof(3, &mut rng);
    assert_eq!(verify_batch(&batch, proof.clone(), None), Ok(()));
    for i in 0..batch.pairs.len() {
        assert_eq!(verify_batch(&batch, proof.clone(), Some(i)), Err(Error::InvalidSumcheck));
    }
}

#[test]
fn a_batch_with_a_wrong_message_is_refused() {
    let mut rng = StdRng::seed_from_u64(12);
    let (batch, proof) = batch_proof(3, &mut rng);
    let messages = batch.batch_size * 64 + batch.pairs.len() * 32;
    for i in 0..9 {
        let mut changed = proof.clone();
        changed[messages + i * 32 + 31] ^= 1;
        assert_eq!(verify_batch(&batch, changed, None), Err(Error::InvalidSumcheck));
    }
    let mut changed = proof.clone();
    let last = proof.len();
    changed.copy_within(last - 128..last - 64, last - 64);
    assert_eq!(verify_batch(&batch, changed, None), Err(Error::InvalidPcsOpen));
    assert_eq!(
        verify_batch(&batch, proof[..messages + 10].to_vec(), None),
        Err(Error::TruncatedProof)
    );
}

#[test]
fn a_batch_of_unlike_shapes_is_rejected() {
    let mut rng = StdRng::seed_from_u64(13);
    let (pp, vp) = params(4, 2, &mut rng);
    let (small, large) = (random_poly(3, &mut rng), random_poly(4, &mut rng));
    let comm = Pcs::commit(&pp, &small).unwrap();
    let point: Vec<Scalar> = (1..4).map(Scalar::from_u64).collect();
    let long: Vec<Scalar> = (1..5).map(Scalar::from_u64).collect();
    let evals = vec![Evaluation::new(0, 0, small.evaluate(&point))];
    let open = |polys: &Vec<MultilinearPolynomial>, points: &Vec<Vec<Scalar>>| {
        let mut transcript = ProofWriter::new();
        Pcs::batch_open(&pp, polys, &vec![comm], points, &evals, &mut transcript)
    };
    assert_eq!(open(&vec![small.clone()], &vec![point.clone()]), Ok(()));
    assert_eq!(
        open(&vec![small.clone(), large], &vec![point.clone()]),
        Err(Error::TooManyVariates { operation: Operation::BatchOpen, upto: 3, got: 4 })
    );
    assert_eq!(
        open(&vec![small.clone()], &vec![long.clone()]),
        Err(Error::InvalidPointLength { expected: 3, got: 4 })
    );
    assert_eq!(
        open(&vec![small], &vec![point.clone(), long.clone()]),
        Err(Error::InvalidPointLength { expected: 3, got: 4 })
    );
    let endless: Vec<Scalar> = (0..70).map(Scalar::from_u64).collect();
    assert_eq!(
        open(&vec![random_poly(3, &mut rng)], &vec![endless]),
        Err(Error::InvalidPointLength { expected: 3, got: 70 })
    );
    let stray = vec![Evaluation::new(7, 7, Scalar::one())];
    let mut transcript = ProofWriter::new();
    assert_eq!(
        Pcs::batch_open(
            &pp,
            &vec![random_poly(3, &mut rng)],
            &vec![comm],
            &vec![long.clone()],
            &stray,
            &mut transcript
        ),
        Err(Error::InvalidPointLength { expected: 3, got: 4 })
    );
    assert!(transcript.into_proof().is_empty());
    let mut transcript = ProofWriter::new();
    assert_eq!(
        Pcs::batch_open(
            &pp,
            &vec![random_poly(3, &mut rng)],
            &vec![comm],
            &Vec::new(),
            &Vec::new(),
            &mut transcript
        ),
        Err(Error::TooManyVariates { operation: Operation::BatchOpen, upto: 0, got: 3 })
    );
    let mut reader = ProofReader::from_proof(Vec::new());
    assert_eq!(
        Pcs::batch_verify(&vp, &vec![comm], &vec![point.clone(), long], &evals, &mut reader),
        Err(Error::InvalidPointLength { expected: 3, got: 4 })
    );
    assert_eq!(
        Pcs::batch_verify(&vp, &vec![comm], &vec![Vec::new(), point], &stray, &mut reader),
        Err(Error::InvalidPointLength { expected: 0, got: 3 })
    );
}

#[test]
fn the_zero_polynomial_is_committed_to_as_the_neutral_element() {
    let mut rng = StdRng::seed_from_u64(14);
    let (pp, _) = params(4, 1, &mut rng);
    let neutral = |point: &G1Affine| {
        let mut raw = Vec::new();
        point.put(&mut raw);
        raw == vec![0; 64]
    };
    let zero = MultilinearPolynomial::new(vec![Scalar::zero(); 8]).unwrap();
    let commitment = Pcs::commit(&pp, &zero).unwrap();
    assert!(neutral(&commitment));
    let comm = Pcs::commit(&pp, &random_poly(3, &mut rng)).unwrap();
    assert!(!neutral(&comm));
    assert!(neutral(&UnivariateKzg::combine_commitments(&vec![Scalar::zero()], &vec![comm])));
    let param = UnivariateKzg::setup_with_secret(2, &Scalar::zero());
    let (pp, _) = UnivariateKzg::trim(&param, 2, 1).unwrap();
    let x = vec![Scalar::zero(), Scalar::one()];
    assert!(neutral(&UnivariateKzg::commit_monomial(&pp, &x)));
}
