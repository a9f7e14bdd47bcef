use plonkish_backend::backend::serde::{
    read_expression, write_expression, CircuitInfo, Composition, Expression,
    HyperPlonkProverParam, HyperPlonkProvingKey, HyperPlonkVerifierParam, HyperPlonkVerifyingKey,
    VerifierParamError,
};
use plonkish_backend::pcs::multilinear::mercury::Mercury;
use plonkish_backend::pcs::univariate::{UnivariateKzg, UnivariateKzgProverParam};
use plonkish_backend::poly::multilinear::MultilinearPolynomial;
use plonkish_backend::util::curve::G1Affine;
use plonkish_backend::util::field::Scalar;
use plonkish_backend::util::wire::{ByteReader, ReadError, Wire};
use rand::rngs::StdRng;
use rand::{RngCore, SeedableRng};

type Pcs = Mercury<UnivariateKzg>;

fn bytes(hex: &str) -> Vec<u8> {
    (0..hex.len() / 2).map(|i| u8::from_str_radix(&hex[2 * i..2 * i + 2], 16).unwrap()).collect()
}

/// Takes expressions as they are.
fn any(bytes: Vec<u8>) -> Option<Vec<u8>> {
    Some(bytes)
}

/// Takes expressions that are two numbers.
fn numbers(bytes: Vec<u8>) -> Option<Vec<u8>> {
    let value: (u32, u16) = bincode::deserialize(&bytes).ok()?;
    bincode::serialize(&value).ok()
}

fn random_poly(num_vars: usize, rng: &mut StdRng) -> MultilinearPolynomial {
    let evals = (0..1usize << num_vars).map(|_| Scalar::from_u64(rng.next_u64())).collect();
    MultilinearPolynomial::new(evals).unwrap()
}

fn expression(seed: u32) -> Expression {
    let product = vec![(seed, 0i32), (seed + 1, -1)];
    Expression::new(bincode::serialize(&(seed, "sum", product)).unwrap())
}

fn prover_param(num_vars: usize) -> HyperPlonkProverParam<UnivariateKzgProverParam> {
    let mut rng = StdRng::seed_from_u64(1);
    let param = Pcs::setup(1 << num_vars, 1, &mut rng).unwrap();
    let (pp, _) = Pcs::trim(&param, 1 << num_vars, 1).unwrap();
    let preprocess_polys: Vec<MultilinearPolynomial> =
        (0..5).map(|_| random_poly(num_vars, &mut rng)).collect();
    let permutation: Vec<MultilinearPolynomial> =
        (0..3).map(|_| random_poly(num_vars, &mut rng)).collect();
    let preprocess_comms = Pcs::batch_commit(&pp, &preprocess_polys).unwrap();
    let permutation_comms = Pcs::batch_commit(&pp, &permutation).unwrap();
    HyperPlonkProverParam {
        pcs: pp,
        num_instances: vec![1 << num_vars],
        num_witness_polys: vec![3],
        num_challenges: vec![0, 3],
        lookups: vec![
            vec![(expression(1), expression(2)), (expression(3), expression(4))],
            Vec::new(),
            vec![(expression(5), expression(6))],
        ],
        num_permutation_z_polys: 1,
        num_vars,
        expression: expression(7),
        preprocess_polys,
        preprocess_comms,
        permutation_polys: (6..9).zip(permutation).collect(),
        permutation_comms,
    }
}

fn raw(point: &G1Affine) -> Vec<u8> {
    let mut out = Vec::new();
    point.put(&mut out);
    out
}

#[test]
fn test_hyperplonk_prover_param_serde_roundtrip() {
    let num_vars = 4;
    let prover_param = prover_param(num_vars);

    let mut buffer = Vec::new();
    prover_param.write(&mut buffer);

    let mut reader = ByteReader::new(buffer);
    let deserialized_param =
        HyperPlonkProverParam::read(&mut reader, &any, 0u8).expect("Failed to read prover param");
    // Verify all fields are identical
    assert_eq!(prover_param.num_vars, deserialized_param.num_vars);
    assert_eq!(prover_param.num_instances, deserialized_param.num_instances);
    assert_eq!(prover_param.num_witness_polys, deserialized_param.num_witness_polys);
    assert_eq!(prover_param.num_challenges, deserialized_param.num_challenges);
    assert_eq!(prover_param.lookups, deserialized_param.lookups);
    assert_eq!(
        prover_param.num_permutation_z_polys,
        deserialized_param.num_permutation_z_polys
    );
    // Verify expression serialization
    assert_eq!(prover_param.expression, deserialized_param.expression);
    // Verify polynomial data
    assert_eq!(prover_param.preprocess_polys.len(), deserialized_param.preprocess_polys.len());
    for (orig, deser) in
        prover_param.preprocess_polys.iter().zip(deserialized_param.preprocess_polys.iter())
    {
        assert_eq!(orig, deser, "Preprocess polynomial mismatch");
    }
    assert_eq!(prover_param.permutation_polys.len(), deserialized_param.permutation_polys.len());
    for (orig, deser) in
        prover_param.permutation_polys.iter().zip(deserialized_param.permutation_polys.iter())
    {
        assert_eq!(orig.0, deser.0, "Permutation polynomial index mismatch");
        assert_eq!(orig.1, deser.1, "Permutation polynomial data mismatch");
    }
    // Verify commitment data
    assert_eq!(prover_param.preprocess_comms.len(), deserialized_param.preprocess_comms.len());
    for (orig, deser) in
        prover_param.preprocess_comms.iter().zip(deserialized_param.preprocess_comms.iter())
    {
        assert_eq!(raw(orig), raw(deser), "Preprocess commitment mismatch");
    }
    assert_eq!(prover_param.permutation_comms.len(), deserialized_param.permutation_comms.len());
    for (orig, deser) in
        prover_param.permutation_comms.iter().zip(deserialized_param.permutation_comms.iter())
    {
        assert_eq!(raw(orig), raw(deser), "Permutation commitment mismatch");
    }
    assert_eq!(deserialized_param.pcs, 0u8);
    assert_eq!(reader.into_rest(), Vec::new());
}

#[test]
fn bytes_that_follow_are_left() {
    let param = prover_param(2);
    let mut buffer = param.to_bytes();
    let len = buffer.len();
    param.write(&mut buffer);
    assert_eq!(buffer[..len], buffer[len..]);
    buffer.push(42);
    let mut reader = ByteReader::new(buffer);
    let first = HyperPlonkProverParam::read(&mut reader, &any, ()).unwrap();
    let second = HyperPlonkProverParam::read(&mut reader, &any, ()).unwrap();
    assert_eq!(first.to_bytes(), second.to_bytes());
    assert_eq!(reader.into_rest(), vec![42]);
}

#[test]
fn a_short_buffer_ends_unexpectedly() {
    let buffer = prover_param(1).to_bytes();
    for len in 0..buffer.len() {
        let mut reader = ByteReader::new(buffer[..len].to_vec());
        assert_eq!(
            HyperPlonkProverParam::read(&mut reader, &any, ()).err(),
            Some(ReadError::UnexpectedEof)
        );
    }
}

const GENERATOR: &str = "9d0d8fc58d435dd33d0bc7f528eb780a2c4679786fa36e662fdf079ac1770a0e\
                         3a1b1e8b1b87baa67b168eeb51d6f114588cf2f0de46ddcc5ebe0f3483ef141c";

fn generator() -> G1Affine {
    let param = UnivariateKzg::setup_with_secret(1, &Scalar::one());
    let (pp, _) = UnivariateKzg::trim(&param, 1, 1).unwrap();
    UnivariateKzg::commit_monomial(&pp, &vec![Scalar::one()])
}

fn verifying_key() -> HyperPlonkVerifyingKey {
    HyperPlonkVerifyingKey {
        num_vars: 0x01020304,
        preprocess_comms: vec![generator()],
        permutation_comms: vec![(0x0a0b0c0d, generator())],
        num_instances: vec![5, 6],
        num_witness_polys: Vec::new(),
        num_challenges: vec![7],
        num_permutation_z_polys: 8,
        expression: Expression::new(vec![9, 10, 11]),
    }
}

#[test]
fn the_bytes_of_a_verifying_key() {
    let expected = [
        "01020304",
        "01000000",
        GENERATOR,
        "01000000",
        "0d0c0b0a",
        GENERATOR,
        "02000000",
        "05000000",
        "06000000",
        "00000000",
        "01000000",
        "07000000",
        "08000000",
        "03000000",
        "090a0b",
    ];
    assert_eq!(verifying_key().to_bytes(), bytes(&expected.concat()));
    let mut out = vec![1, 2];
    verifying_key().write(&mut out);
    assert_eq!(out[2..], bytes(&expected.concat())[..]);
}

#[test]
fn a_verifying_key_is_read_back() {
    let mut reader = ByteReader::new(verifying_key().to_bytes());
    let key = HyperPlonkVerifyingKey::read(&mut reader, &any).unwrap();
    assert_eq!(key.num_vars, 0x01020304);
    assert_eq!(key.preprocess_comms, vec![generator()]);
    assert_eq!(key.permutation_comms, vec![(0x0a0b0c0d, generator())]);
    assert_eq!(key.num_instances, vec![5, 6]);
    assert_eq!(key.num_witness_polys, Vec::<usize>::new());
    assert_eq!(key.num_challenges, vec![7]);
    assert_eq!(key.num_permutation_z_polys, 8);
    assert_eq!(key.expression.bytes(), &vec![9, 10, 11]);
    assert_eq!(key.to_bytes(), verifying_key().to_bytes());
}

#[test]
fn numbers_keep_their_low_bits() {
    let mut key = verifying_key();
    key.num_vars = 0x7_0000_0005;
    key.num_instances = vec![0x1_0000_0002];
    key.permutation_comms[0].0 = 0x3_0000_0004;
    let key = HyperPlonkVerifyingKey::read(&mut ByteReader::new(key.to_bytes()), &any).unwrap();
    assert_eq!(key.num_vars, 5);
    assert_eq!(key.num_instances, vec![2]);
    assert_eq!(key.permutation_comms[0].0, 4);
}

#[test]
fn commitments_must_be_below_the_field_order() {
    let good = verifying_key().to_bytes();
    let coordinate = |at: usize, with: &str| {
        let mut changed = good.clone();
        changed[at..at + 32].copy_from_slice(&bytes(with));
        HyperPlonkVerifyingKey::read(&mut ByteReader::new(changed), &any).err()
    };
    // the order, least significant byte first, and one less
    let order = "47fd7cd8168c203c8dca7168916a81975d588181b64550b829a031e1724e6430";
    let below = "46fd7cd8168c203c8dca7168916a81975d588181b64550b829a031e1724e6430";
    for at in [8, 8 + 32, 8 + 64 + 8, 8 + 64 + 8 + 32] {
        assert_eq!(coordinate(at, order), Some(ReadError::InvalidData));
        // no point of the curve is asked for
        assert_eq!(coordinate(at, below), None);
    }
    // the first coordinate is looked at before the second is missed
    let mut short = bytes("0000000001000000");
    short.extend(bytes(order));
    let read = |b: Vec<u8>| HyperPlonkVerifyingKey::read(&mut ByteReader::new(b), &any).err();
    assert_eq!(read(short.clone()), Some(ReadError::InvalidData));
    short[8] -= 1;
    assert_eq!(read(short), Some(ReadError::UnexpectedEof));
}

#[test]
fn the_bytes_of_a_proving_key() {
    let table = |v: &[u64]| {
        MultilinearPolynomial::new(v.iter().map(|&v| Scalar::from_u64(v)).collect()).unwrap()
    };
    let one = "fbffff4f1c3496ac29cd609f9576fc362e4679786fa36e662fdf079ac1770a0e";
    let seven = "dbffff4f9e81573001bb3268866d7f30893a4e489fec655cf8d9d37365a98001";
    let key = HyperPlonkProvingKey {
        vk: verifying_key(),
        preprocess_polys: vec![table(&[1, 7]), table(&[])],
        permutation_polys: vec![(3, table(&[7]))],
    };
    let expected = [
        "02000000", "02000000", one, seven, "00000000", "01000000", "03000000", "01000000", seven,
    ];
    let mut out = Vec::new();
    key.write(&mut out);
    let mut whole = verifying_key().to_bytes();
    whole.extend(bytes(&expected.concat()));
    assert_eq!(out, whole);
    let read = HyperPlonkProvingKey::read(&mut ByteReader::new(out.clone()), &any).unwrap();
    assert_eq!(read.preprocess_polys, vec![table(&[1, 7]), table(&[])]);
    assert_eq!(read.permutation_polys, vec![(3, table(&[7]))]);
    assert_eq!(read.vk.to_bytes(), verifying_key().to_bytes());

    let error = |b: Vec<u8>| HyperPlonkProvingKey::read(&mut ByteReader::new(b), &any).err();
    // a scalar that is not below the field order
    let mut changed = out.clone();
    let at = verifying_key().to_bytes().len() + 8;
    changed[at..at + 32].copy_from_slice(&[0xff; 32]);
    assert_eq!(error(changed), Some(ReadError::InvalidData));
    // a table of three entries
    let mut changed = verifying_key().to_bytes();
    changed.extend(bytes(&["01000000", "03000000", one, one, one, "00000000"].concat()));
    assert_eq!(error(changed), Some(ReadError::InvalidData));
}

#[test]
fn a_prover_param_holds_its_proving_key() {
    let mut param = prover_param(2);
    let key = param.to_pk();
    assert_eq!(key.preprocess_polys, param.preprocess_polys);
    assert_eq!(key.permutation_polys, param.permutation_polys);
    assert_eq!(key.vk.preprocess_comms, param.preprocess_comms);
    let indices: Vec<usize> = key.vk.permutation_comms.iter().map(|c| c.0).collect();
    assert_eq!(indices, vec![6, 7, 8]);
    let comms: Vec<G1Affine> = key.vk.permutation_comms.iter().map(|c| c.1).collect();
    assert_eq!(comms, param.permutation_comms);

    // a commitment without its polynomial is dropped
    param.permutation_polys.pop();
    assert_eq!(param.to_pk().vk.permutation_comms.len(), 2);
    let mut reader = ByteReader::new(param.to_bytes());
    let read = HyperPlonkProverParam::read(&mut reader, &any, ()).unwrap();
    assert_eq!(read.permutation_comms.len(), 2);
}

#[test]
fn expressions_carry_their_length() {
    let mut out = Vec::new();
    write_expression(&mut out, &Expression::new(vec![1, 2]));
    assert_eq!(out, vec![2, 0, 0, 0, 1, 2]);
    let mut reader = ByteReader::new(out);
    assert_eq!(read_expression(&mut reader, &any), Ok(Expression::new(vec![1, 2])));
    assert_eq!(read_expression(&mut reader, &any), Err(ReadError::UnexpectedEof));
    let mut reader = ByteReader::new(vec![2, 0, 0, 0, 1]);
    assert_eq!(read_expression(&mut reader, &any), Err(ReadError::UnexpectedEof));
}

#[test]
fn expressions_must_decode() {
    let mut out = Vec::new();
    write_expression(&mut out, &Expression::new(vec![1, 0, 0, 0, 2, 0]));
    write_expression(&mut out, &Expression::new(vec![1, 0, 0, 0, 2]));
    out.push(42);
    let mut reader = ByteReader::new(out);
    let good = Expression::new(vec![1, 0, 0, 0, 2, 0]);
    assert_eq!(read_expression(&mut reader, &numbers), Ok(good));
    assert_eq!(read_expression(&mut reader, &numbers), Err(ReadError::InvalidData));
    // the bytes of the expression are gone
    assert_eq!(reader.into_rest(), vec![42]);
}

#[test]
fn an_expression_is_read_as_its_value() {
    // bytes behind the value are not part of it
    let mut key = verifying_key();
    key.expression = Expression::new(vec![1, 0, 0, 0, 2, 0, 9, 9]);
    let read = HyperPlonkVerifyingKey::read(&mut ByteReader::new(key.to_bytes()), &numbers).unwrap();
    assert_eq!(read.expression.bytes(), &vec![1, 0, 0, 0, 2, 0]);
    let again = HyperPlonkVerifyingKey::read(&mut ByteReader::new(read.to_bytes()), &numbers).unwrap();
    assert_eq!(again.to_bytes(), read.to_bytes());
}

#[test]
fn a_bad_expression_comes_before_a_later_end() {
    let mut param = prover_param(1);
    let good = || Expression::new(vec![1, 0, 0, 0, 2, 0]);
    param.expression = good();
    param.lookups = vec![vec![(good(), good())]];
    let read = |data: Vec<u8>| HyperPlonkProverParam::read(&mut ByteReader::new(data), &numbers, ()).err();
    assert_eq!(read(param.to_bytes()), None);
    // the key's expression
    param.expression = Expression::new(vec![1]);
    let mut bytes = param.to_bytes();
    assert_eq!(read(bytes.clone()), Some(ReadError::InvalidData));
    bytes.pop();
    assert_eq!(read(bytes), Some(ReadError::InvalidData));
    // an expression of a lookup
    param.expression = good();
    param.lookups = vec![vec![(Expression::new(vec![1]), good())]];
    let mut bytes = param.to_bytes();
    bytes.pop();
    assert_eq!(read(bytes), Some(ReadError::InvalidData));
    // a verifier's parameters
    let mut key = verifying_key();
    key.expression = Expression::new(vec![1]);
    let read: Result<HyperPlonkVerifierParam<()>, VerifierParamError<&str>> =
        HyperPlonkVerifierParam::read(&mut ByteReader::new(key.to_bytes()), &numbers, |_| Err("asked"), ());
    assert_eq!(read.err(), Some(VerifierParamError::Key(ReadError::InvalidData)));
}

#[test]
fn what_a_failed_read_leaves() {
    let good = verifying_key().to_bytes();
    let left = |data: Vec<u8>| {
        let mut reader = ByteReader::new(data);
        assert!(HyperPlonkVerifyingKey::read(&mut reader, &any).is_err());
        reader.into_rest()
    };
    // the first coordinate of a commitment is too large
    let mut changed = good.clone();
    changed[8..40].copy_from_slice(&[0xff; 32]);
    assert_eq!(left(changed.clone()), changed[40..].to_vec());
    // the second is
    let mut changed = good.clone();
    changed[40..72].copy_from_slice(&[0xff; 32]);
    assert_eq!(left(changed.clone()), changed[72..].to_vec());
    // the bytes run out
    for len in 0..good.len() {
        assert_eq!(left(good[..len].to_vec()), Vec::new());
    }
    // a scalar is too large
    let mut changed = good.clone();
    changed.extend([1, 0, 0, 0, 1, 0, 0, 0]);
    changed.extend([0xff; 32]);
    changed.extend([7, 8]);
    let mut reader = ByteReader::new(changed);
    assert_eq!(HyperPlonkProvingKey::read(&mut reader, &any).err(), Some(ReadError::InvalidData));
    assert_eq!(reader.into_rest(), vec![7, 8]);
}

#[test]
fn reads_do_not_depend_on_the_commitment_scheme() {
    let mut changed = prover_param(1).to_bytes();
    let at = 8 + 5 * 64 + 4 + 4;
    changed[at..at + 32].copy_from_slice(&[0xff; 32]);
    let (mut one, mut other) = (ByteReader::new(changed.clone()), ByteReader::new(changed));
    assert_eq!(HyperPlonkProverParam::read(&mut one, &any, 1u8).err(), Some(ReadError::InvalidData));
    assert_eq!(HyperPlonkProverParam::read(&mut other, &any, "b").err(), Some(ReadError::InvalidData));
    assert_eq!(one.into_rest(), other.into_rest());
}

fn circuit() -> (CircuitInfo, Composition) {
    let info = CircuitInfo {
        num_instances: vec![50],
        num_witness_polys: vec![60],
        num_challenges: vec![70],
        lookups: vec![Vec::new(), vec![(expression(1), expression(2))]],
    };
    (info, Composition { num_permutation_z_polys: 80, expression: expression(3) })
}

#[test]
fn a_verifier_param_takes_the_rest_from_the_circuit() {
    let mut reader = ByteReader::new(verifying_key().to_bytes());
    let read: Result<HyperPlonkVerifierParam<u8>, VerifierParamError<()>> =
        HyperPlonkVerifierParam::read(
            &mut reader, &any,
            |num_vars: usize| {
                assert_eq!(num_vars, 0x01020304);
                Ok(circuit())
            },
            9u8,
        );
    let param = read.ok().unwrap();
    assert_eq!(param.pcs, 9);
    assert_eq!(param.num_vars, 0x01020304);
    assert_eq!(param.preprocess_comms, vec![generator()]);
    assert_eq!(param.permutation_comms, vec![(0x0a0b0c0d, generator())]);
    assert_eq!(param.num_instances, vec![50]);
    assert_eq!(param.num_witness_polys, vec![60]);
    assert_eq!(param.num_challenges, vec![70]);
    assert_eq!(param.num_lookups, 2);
    assert_eq!(param.num_permutation_z_polys, 80);
    assert_eq!(param.expression, expression(3));

    // written and read back
    let mut out = Vec::new();
    param.write(&mut out);
    assert_eq!(out, param.to_bytes());
    assert_eq!(out, param.to_vk().to_bytes());
    let mut reader = ByteReader::new(out);
    let again: Result<HyperPlonkVerifierParam<u8>, VerifierParamError<()>> =
        HyperPlonkVerifierParam::read(&mut reader, &any, |_| Ok(circuit()), 9u8);
    assert_eq!(again.ok().unwrap().to_bytes(), param.to_bytes());
}

#[test]
fn a_verifier_param_with_numbers_too_large_for_their_bytes() {
    let large = |n: usize| ((1u64 << 32) + n as u64) as usize;
    let laid_out = || {
        let info = CircuitInfo {
            num_instances: vec![large(1), 2],
            num_witness_polys: vec![large(3)],
            num_challenges: vec![large(4), large(5)],
            lookups: Vec::new(),
        };
        (info, Composition { num_permutation_z_polys: large(6), expression: expression(3) })
    };
    let read = |data: Vec<u8>| {
        let mut reader = ByteReader::new(data);
        let read: Result<HyperPlonkVerifierParam<()>, VerifierParamError<()>> =
            HyperPlonkVerifierParam::read(&mut reader, &any, |_| Ok(laid_out()), ());
        (read.ok().unwrap(), reader.into_rest())
    };
    let (param, _) = read(verifying_key().to_bytes());
    let mut data = param.to_bytes();
    let key = HyperPlonkVerifyingKey::read(&mut ByteReader::new(data.clone()), &any).unwrap();
    assert_eq!(key.num_instances, vec![1, 2]);
    assert_eq!(key.num_witness_polys, vec![3]);
    assert_eq!(key.num_challenges, vec![4, 5]);
    assert_eq!(key.num_permutation_z_polys, 6);
    data.extend([7, 8]);
    let (again, rest) = read(data);
    assert_eq!(rest, vec![7, 8]);
    assert_eq!(again.num_vars, param.num_vars);
    assert_eq!(again.preprocess_comms, param.preprocess_comms);
    assert_eq!(again.permutation_comms, param.permutation_comms);
    assert_eq!(again.num_instances, vec![large(1), 2]);
    assert_eq!(again.num_witness_polys, vec![large(3)]);
    assert_eq!(again.num_challenges, vec![large(4), large(5)]);
    assert_eq!(again.num_permutation_z_polys, large(6));
    assert_eq!(again.expression, expression(3));
}

#[test]
fn keys_are_cloned() {
    let key = verifying_key();
    assert_eq!(key.clone().to_bytes(), key.to_bytes());
    assert_eq!(format!("{:?}", key.clone()), format!("{:?}", key));
    let key = prover_param(2).to_pk();
    let (mut copied, mut out) = (Vec::new(), Vec::new());
    key.clone().write(&mut copied);
    key.write(&mut out);
    assert_eq!(copied, out);
    assert_eq!(format!("{:?}", key.clone()), format!("{:?}", key));
}

#[test]
fn a_verifier_param_that_cannot_be_read() {
    let mut reader = ByteReader::new(verifying_key().to_bytes());
    let read: Result<HyperPlonkVerifierParam<()>, VerifierParamError<&str>> =
        HyperPlonkVerifierParam::read(&mut reader, &any, |_| Err("no layout"), ());
    assert_eq!(read.err(), Some(VerifierParamError::Circuit("no layout")));
    let mut reader = ByteReader::new(vec![0; 7]);
    let read: Result<HyperPlonkVerifierParam<()>, VerifierParamError<&str>> =
        HyperPlonkVerifierParam::read(&mut reader, &any, |_| Err("no layout"), ());
    assert_eq!(read.err(), Some(VerifierParamError::Key(ReadError::UnexpectedEof)));
}
