use plonkish_backend::error::Error;
use plonkish_backend::pcs::multilinear::sum_check::{prove, verify};
use plonkish_backend::poly::multilinear::MultilinearPolynomial;
use plonkish_backend::poly::univariate::horner;
use plonkish_backend::util::field::Scalar;
use plonkish_backend::util::transcript::{ProofReader, ProofWriter};

fn scalars(values: &[u64]) -> Vec<Scalar> {
    values.iter().map(|&v| Scalar::from_u64(v)).collect()
}

#[test]
fn the_first_message() {
    let mut transcript = ProofWriter::new();
    prove(2, scalars(&[1, 2, 3, 4]), scalars(&[5, 6, 7, 8]), &mut transcript);
    let mut reader = ProofReader::from_proof(transcript.into_proof());
    let message: Vec<Scalar> = (0..3).map(|_| reader.read_field_element().unwrap()).collect();
    assert_eq!(message, scalars(&[26, 16, 2]));
}

#[test]
fn an_inner_product_is_reduced_to_one_point() {
    let (e, m) = (scalars(&[1, 2, 3, 4]), scalars(&[5, 6, 7, 8]));
    let mut transcript = ProofWriter::new();
    let (challenges, e_left, m_left) = prove(2, e.clone(), m.clone(), &mut transcript);
    let proof = transcript.into_proof();
    assert_eq!(proof.len(), 2 * 3 * 32);
    assert_eq!(e_left, vec![MultilinearPolynomial::new(e).unwrap().evaluate(&challenges)]);
    assert_eq!(m_left, vec![MultilinearPolynomial::new(m).unwrap().evaluate(&challenges)]);

    let mut reader = ProofReader::from_proof(proof.clone());
    let (read, value) = verify(2, Scalar::from_u64(70), &mut reader).unwrap();
    assert_eq!(read, challenges);
    assert_eq!(value, horner(&vec![Scalar::zero(), e_left[0]], &m_left[0]));

    let mut reader = ProofReader::from_proof(proof.clone());
    assert_eq!(verify(2, Scalar::from_u64(71), &mut reader), Err(Error::InvalidSumcheck));
    let mut reader = ProofReader::from_proof(proof[..100].to_vec());
    assert_eq!(verify(2, Scalar::from_u64(70), &mut reader), Err(Error::TruncatedProof));
}

#[test]
fn several_tables_one_after_the_other() {
    let (e, m) = (scalars(&[1, 0, 3, 5]), scalars(&[2, 7, 1, 4]));
    let mut transcript = ProofWriter::new();
    let (challenges, e_left, m_left) = prove(1, e, m, &mut transcript);
    assert_eq!(challenges.len(), 1);
    assert_eq!(e_left.len(), 2);
    assert_eq!(m_left.len(), 2);
    let mut reader = ProofReader::from_proof(transcript.into_proof());
    assert!(verify(1, Scalar::from_u64(2 + 0 + 3 + 20), &mut reader).is_ok());
}

#[test]
fn no_rounds() {
    let mut transcript = ProofWriter::new();
    let (challenges, e, m) = prove(0, scalars(&[3]), scalars(&[4]), &mut transcript);
    assert_eq!((challenges, e, m), (Vec::new(), scalars(&[3]), scalars(&[4])));
    let mut reader = ProofReader::from_proof(Vec::new());
    assert_eq!(
        verify(0, Scalar::from_u64(12), &mut reader),
        Ok((Vec::new(), Scalar::from_u64(12)))
    );
}
