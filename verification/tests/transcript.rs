use plonkish_backend::error::Error;
use plonkish_backend::pcs::univariate::UnivariateKzg;
use plonkish_backend::poly::univariate::UnivariatePolynomial;
use plonkish_backend::util::curve::G1Affine;
use plonkish_backend::util::field::Scalar;
use plonkish_backend::util::transcript::{ProofReader, ProofWriter};

const FIELD_ORDER: &str = "30644e72e131a029b85045b68181585d2833e84879b9709143e1f593f0000001";
const COORDINATE_ORDER: &str = "30644e72e131a029b85045b68181585d97816a916871ca8d3c208c16d87cfd47";

fn bytes(hex: &str) -> Vec<u8> {
    (0..hex.len() / 2).map(|i| u8::from_str_radix(&hex[2 * i..2 * i + 2], 16).unwrap()).collect()
}

fn number(v: u64) -> Vec<u8> {
    bytes(&format!("{:064x}", v))
}

fn hex_of_scalar(v: &Scalar) -> String {
    let mut transcript = ProofWriter::new();
    transcript.write_field_element(v);
    transcript.into_proof().iter().map(|b| format!("{:02x}", b)).collect()
}

fn hex_of_point(p: &G1Affine) -> String {
    let mut transcript = ProofWriter::new();
    transcript.write_commitment(p);
    transcript.into_proof().iter().map(|b| format!("{:02x}", b)).collect()
}

#[test]
fn challenges_are_keccak_hashes() {
    let mut transcript = ProofWriter::new();
    assert_eq!(
        hex_of_scalar(&transcript.squeeze_challenge()),
        "0fdbe8774275ba27ca86f75d50b3502b6f9bf74bbf0a9d6fb4600c5e2146d2c3"
    );
    assert_eq!(
        hex_of_scalar(&transcript.squeeze_challenge()),
        "2ead09e322f1ca96924469b477a9bcfe9a478ff4d1dc58b00029004c1f3eca0e"
    );
}

#[test]
fn what_is_written_changes_the_challenge() {
    let mut transcript = ProofWriter::new();
    transcript.write_field_element(&Scalar::from_u64(5));
    assert_eq!(
        hex_of_scalar(&transcript.squeeze_challenge()),
        "22ae76d4efbcb26a7d87863dc473b3529093ff78b7063749d063d1ac01466ec2"
    );
    let param = UnivariateKzg::setup_with_secret(1, &Scalar::one());
    let (pp, _) = UnivariateKzg::trim(&param, 1, 1).unwrap();
    let g = UnivariateKzg::commit_monomial(&pp, &vec![Scalar::one()]);
    let mut transcript = ProofWriter::new();
    transcript.write_commitment(&g);
    assert_eq!(
        hex_of_scalar(&transcript.squeeze_challenge()),
        "234a9e12e9b063b60f7e3289ee9b86a731de8e7e41bd4987f10982d6a753444d"
    );
}

#[test]
fn a_verifier_reads_what_a_prover_wrote() {
    let param = UnivariateKzg::setup_with_secret(4, &Scalar::from_u64(11));
    let (pp, _) = UnivariateKzg::trim(&param, 4, 1).unwrap();
    let point = UnivariateKzg::commit_monomial(&pp, &vec![Scalar::from_u64(9); 3]);
    let mut writer = ProofWriter::new();
    writer.write_field_element(&Scalar::from_u64(77));
    let first = writer.squeeze_challenge();
    writer.write_commitment(&point);
    let second = writer.squeeze_challenge();
    let mut reader = ProofReader::from_proof(writer.into_proof());
    assert_eq!(reader.read_field_element(), Ok(Scalar::from_u64(77)));
    assert_eq!(reader.squeeze_challenge(), first);
    assert_eq!(reader.read_commitment(), Ok(point));
    assert_eq!(reader.squeeze_challenge(), second);
    assert_eq!(reader.read_field_element(), Err(Error::TruncatedProof));
}

#[test]
fn scalars_must_be_canonical() {
    let mut order = bytes(FIELD_ORDER);
    let read = |b: &Vec<u8>| ProofReader::from_proof(b.clone()).read_field_element();
    assert_eq!(read(&order), Err(Error::InvalidFieldElement));
    order[31] -= 1;
    assert!(read(&order).is_ok());
    assert_eq!(read(&vec![0xff; 32]), Err(Error::InvalidFieldElement));
    assert_eq!(read(&vec![0; 31]), Err(Error::TruncatedProof));
}

#[test]
fn points_must_be_on_the_curve() {
    let read = |x: &Vec<u8>, y: &Vec<u8>| {
        let mut proof = x.clone();
        proof.extend(y);
        ProofReader::from_proof(proof).read_commitment()
    };
    assert!(read(&number(1), &number(2)).is_ok());
    assert!(read(&number(0), &number(0)).is_ok());
    assert_eq!(read(&number(1), &number(1)), Err(Error::InvalidPoint));
    assert_eq!(read(&bytes(COORDINATE_ORDER), &number(2)), Err(Error::InvalidFieldElement));
    assert_eq!(read(&number(1), &bytes(COORDINATE_ORDER)), Err(Error::InvalidFieldElement));
    assert_eq!(read(&number(1), &Vec::new()), Err(Error::TruncatedProof));
}

#[test]
fn commitments_are_multiples_of_the_generator() {
    let param = UnivariateKzg::setup_with_secret(4, &Scalar::from_u64(2));
    let (pp, _) = UnivariateKzg::trim(&param, 4, 1).unwrap();
    let commit = |coeffs: &[u64]| {
        let coeffs = coeffs.iter().map(|&c| Scalar::from_u64(c)).collect();
        hex_of_point(&UnivariateKzg::commit_monomial(&pp, &coeffs))
    };
    assert_eq!(commit(&[]), format!("{:064x}{:064x}", 0, 0));
    assert_eq!(commit(&[1]), format!("{:064x}{:064x}", 1, 2));
    // X at the secret
    assert_eq!(
        commit(&[0, 1]),
        "030644e72e131a029b85045b68181585d97816a916871ca8d3c208c16d87cfd3\
         15ed738c0e0a7c92e7845f96b2ae9c0a68a6a449e3538fc7ff3ebf7a5a18a2c4"
    );
    // 3 + 5 X at the secret
    assert_eq!(
        commit(&[3, 5]),
        "05e86f8cc8a7a4f10f56093465679f17f8b8c3fdb41469e408b529e030f52f3f\
         2857bd14bbc09767bed8e913d3ccb42b2bc8738f715417dd6f020725d22bcd90"
    );
    assert_eq!(commit(&[3, 5]), commit(&[13]));
}

#[test]
fn univariate_openings() {
    let param = UnivariateKzg::setup_with_secret(4, &Scalar::from_u64(1234567));
    let (pp, vp) = UnivariateKzg::trim(&param, 4, 1).unwrap();
    let poly = UnivariatePolynomial::monomial((1..5).map(Scalar::from_u64).collect());
    let comm = UnivariateKzg::commit_monomial(&pp, poly.coeffs());
    let z = Scalar::from_u64(3);
    let value = poly.evaluate(&z);
    assert_eq!(value, Scalar::from_u64(142));
    let mut transcript = ProofWriter::new();
    UnivariateKzg::open(&pp, &poly, &z, &mut transcript);
    let quotient = ProofReader::from_proof(transcript.into_proof()).read_commitment().unwrap();
    assert!(UnivariateKzg::check_opening(&vp, &comm, &z, &value, &quotient));
    assert!(!UnivariateKzg::check_opening(&vp, &comm, &z, &Scalar::one(), &quotient));
    assert!(!UnivariateKzg::check_opening(&vp, &comm, &Scalar::one(), &value, &quotient));
    assert!(!UnivariateKzg::check_opening(&vp, &comm, &z, &value, &comm));
}
