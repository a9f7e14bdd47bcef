//! The byte format of HyperPlonk keys.
//!
//! Lengths and indices take four bytes, least significant first, but for the number of
//! variables, whose most significant byte comes first. Commitments and scalars are written
//! raw, in Montgomery form. An expression is held in its serialised form, and its length is
//! written in front of it. Who reads says how its bytes are decoded.
#[allow(unused_imports)]
use crate::poly::multilinear;
use crate::poly::multilinear::MultilinearPolynomial;
#[allow(unused_imports)]
use crate::util::bytes;
#[allow(unused_imports)]
use crate::util::curve;
use crate::util::curve::G1Affine;
#[allow(unused_imports)]
use crate::util::field::Scalar;
#[allow(unused_imports)]
use crate::util::wire;
use crate::util::wire::{ByteReader, Decoding, Parsed, ReadError, Wire};
#[allow(unused_imports)]
use crate::util::zp;
#[allow(unused_imports)]
use vstd::arithmetic::power::*;
use vstd::prelude::*;

verus! {

/// A serialised expression.
#[derive(Debug, PartialEq, Eq)]
pub struct Expression {
    bytes: Vec<u8>,
}

impl View for Expression {
    type V = Seq<u8>;

    closed spec fn view(&self) -> Seq<u8> {
        self.bytes@
    }
}

impl Clone for Expression {
    fn clone(&self) -> (r: Expression)
        ensures
            r@ == self@,
    {
        let bytes = self.bytes.clone();
        assert(bytes@ =~= self.bytes@);
        Expression { bytes }
    }
}

impl Expression {
    pub fn new(bytes: Vec<u8>) -> (r: Expression)
        ensures
            r@ == bytes@,
    {
        Expression { bytes }
    }

    pub fn bytes(&self) -> (r: &Vec<u8>)
        ensures
            r@ == self@,
    {
        &self.bytes
    }
}

/// Writes the length of an expression and the expression.
pub fn write_expression(writer: &mut Vec<u8>, expression: &Expression)
    ensures
        final(writer)@ == old(writer)@ + <Expression as Wire>::encode(expression@),
{
    let ghost before = writer@;
    wire::put_u32(expression.bytes.len(), writer);
    let ghost start = writer@;
    let ghost b = expression.bytes@;
    for i in 0..expression.bytes.len()
        invariant
            b == expression.bytes@,
            writer@ == start + b.take(i as int),
    {
        writer.push(expression.bytes[i]);
        assert(b.take(i + 1) =~= b.take(i as int).push(b[i as int]));
    }
    assert(b.take(b.len() as int) =~= b);
    assert(writer@ =~= before + <Expression as Wire>::encode(expression@));
}

/// Reads the length of an expression and the expression, which must decode.
pub fn read_expression<D: Fn(Vec<u8>) -> Option<Vec<u8>>>(
    reader: &mut ByteReader,
    decode: &D,
) -> (r: Result<Expression, ReadError>)
    requires
        wire::goes_by_bytes(*decode),
    ensures
        match <Expression as Wire>::parse(wire::decoding(*decode), old(reader)@) {
            Ok((m, rest)) => r matches Ok(v) && v@ == m && final(reader)@ == rest,
            Err((e, rest)) => r == Err::<Expression, ReadError>(e) && final(reader)@ == rest,
        },
{
    let len = match wire::take_u32(reader) {
        Err(e) => {
            return Err(e);
        },
        Ok(n) => n,
    };
    let bytes = match reader.read_exact(len) {
        Err(e) => {
            return Err(e);
        },
        Ok(b) => b,
    };
    match wire::decode_with(decode, bytes) {
        None => Err(ReadError::InvalidData),
        Some(bytes) => Ok(Expression { bytes }),
    }
}

/// An expression is read as what it decodes to.
proof fn lemma_expression_as_read(d: Decoding, e: Seq<u8>, rest: Seq<u8>)
    requires
        e.len() < 0x1_0000_0000,
        d(e) is Some,
    ensures
        <Expression as Wire>::parse(d, <Expression as Wire>::encode(e) + rest) == Parsed::<
            Seq<u8>,
        >::Ok((d(e)->Some_0, rest)),
{
    let n = bytes::le_bytes(e.len() as int, 4);
    assert(n + e + rest =~= n + (e + rest));
    <usize as Wire>::law_read_back(d, e.len() as int, e + rest);
    assert((e + rest).take(e.len() as int) =~= e);
    assert((e + rest).skip(e.len() as int) =~= rest);
}

/// An expression is taken only if its bytes decode, and then for what they decode to; the bytes
/// behind it are left in either case.
pub proof fn law_expression_decodes(d: Decoding, e: Seq<u8>, rest: Seq<u8>)
    requires
        e.len() < 0x1_0000_0000,
    ensures
        ({
            let s = bytes::le_bytes(e.len() as int, 4) + e + rest;
            match d(e) {
                None => <Expression as Wire>::parse(d, s) == Parsed::<Seq<u8>>::Err(
                    (ReadError::InvalidData, rest),
                ),
                Some(x) => <Expression as Wire>::parse(d, s) == Parsed::<Seq<u8>>::Ok((x, rest)),
            }
        }),
{
    let n = bytes::le_bytes(e.len() as int, 4);
    assert(n + e + rest =~= n + (e + rest));
    <usize as Wire>::law_read_back(d, e.len() as int, e + rest);
    assert((e + rest).take(e.len() as int) =~= e);
    assert((e + rest).skip(e.len() as int) =~= rest);
}

impl Wire for Expression {
    type Model = Seq<u8>;

    open spec fn model(&self) -> Seq<u8> {
        self@
    }

    open spec fn encode(m: Seq<u8>) -> Seq<u8> {
        bytes::le_bytes(m.len() as int, 4) + m
    }

    open spec fn parse(d: Decoding, s: Seq<u8>) -> Parsed<Seq<u8>> {
        match wire::parse_u32(s) {
            Err(e) => Err(e),
            Ok((n, rest)) => if rest.len() < n {
                Err((ReadError::UnexpectedEof, Seq::empty()))
            } else {
                match d(rest.take(n)) {
                    None => Err((ReadError::InvalidData, rest.skip(n))),
                    Some(e) => Ok((e, rest.skip(n))),
                }
            },
        }
    }

    /// The bytes are those of a value.
    open spec fn encodable(d: Decoding, m: Seq<u8>) -> bool {
        m.len() < 0x1_0000_0000 && d(m) == Some(m)
    }

    proof fn law_read_back(d: Decoding, m: Seq<u8>, rest: Seq<u8>) {
        lemma_expression_as_read(d, m, rest);
    }

    proof fn law_canonical(s: Seq<u8>) {
        <usize as Wire>::law_canonical(s);
        if let Ok((n, s1)) = wire::parse_u32(s) {
            if s1.len() >= n {
                assert(s =~= bytes::le_bytes(n, 4) + s1.take(n) + s1.skip(n));
            }
        }
    }

    proof fn law_rest(d: Decoding, s: Seq<u8>) {
        <usize as Wire>::law_rest(d, s);
        if let Ok((n, s1)) = wire::parse_u32(s) {
            if n <= s1.len() {
                <usize as Wire>::law_canonical(s);
                assert(s1.skip(n) =~= s.skip(4 + n));
            }
        }
    }

    fn put(&self, writer: &mut Vec<u8>) {
        write_expression(writer, self)
    }

    fn take<D: Fn(Vec<u8>) -> Option<Vec<u8>>>(reader: &mut ByteReader, decode: &D) -> (r: Result<
        Expression,
        ReadError,
    >) {
        read_expression(reader, decode)
    }
}

/// The number of variables, in four bytes, most significant first; higher bits are dropped.
pub struct NumVars(pub usize);

impl Wire for NumVars {
    type Model = int;

    open spec fn model(&self) -> int {
        self.0 as int
    }

    open spec fn encode(m: int) -> Seq<u8> {
        bytes::be_bytes(m, 4)
    }

    open spec fn parse(d: Decoding, s: Seq<u8>) -> Parsed<int> {
        if s.len() < 4 {
            Err((ReadError::UnexpectedEof, Seq::empty()))
        } else {
            Ok((bytes::le_nat(s.take(4).reverse()), s.skip(4)))
        }
    }

    open spec fn encodable(d: Decoding, m: int) -> bool {
        0 <= m < 0x1_0000_0000
    }

    proof fn law_read_back(d: Decoding, m: int, rest: Seq<u8>) {
        let b = bytes::le_bytes(m, 4);
        bytes::lemma_le_bytes_len(m, 4);
        <usize as Wire>::law_read_back(d, m, Seq::empty());
        assert((b + Seq::<u8>::empty()).take(4) =~= b);
        let s = b.reverse() + rest;
        assert(s.take(4).reverse() =~= b);
        assert(s.skip(4) =~= rest);
    }

    proof fn law_canonical(s: Seq<u8>) {
        if s.len() >= 4 {
            let b = s.take(4).reverse();
            <usize as Wire>::law_canonical(b);
            assert(b.take(4) =~= b);
            bytes::lemma_le_bytes_of_nat(b);
            assert(b.reverse() =~= s.take(4));
            assert(s =~= s.take(4) + s.skip(4));
        }
    }

    proof fn law_rest(d: Decoding, s: Seq<u8>) {
        <usize as Wire>::law_rest(d, s);
    }

    fn put(&self, writer: &mut Vec<u8>) {
        let ghost before = writer@;
        let v: usize = self.0;
        proof {
            wire::lemma_four_bytes(v as int);
        }
        writer.push((v / 16777216 % 256) as u8);
        writer.push((v / 65536 % 256) as u8);
        writer.push((v / 256 % 256) as u8);
        writer.push((v % 256) as u8);
        assert(writer@ =~= before + bytes::be_bytes(v as int, 4));
    }

    fn take<D: Fn(Vec<u8>) -> Option<Vec<u8>>>(reader: &mut ByteReader, decode: &D) -> (r: Result<
        NumVars,
        ReadError,
    >) {
        let b = match reader.read_exact(4) {
            Err(e) => {
                return Err(e);
            },
            Ok(b) => b,
        };
        proof {
            wire::lemma_four_digits(b@.reverse());
        }
        Ok(
            NumVars(
                b[3] as usize + 256 * (b[2] as usize) + 65536 * (b[1] as usize) + 16777216 * (
                b[0] as usize),
            ),
        )
    }
}

fn copied_numbers(v: &Vec<usize>) -> (r: Vec<usize>)
    ensures
        r@ == v@,
{
    let r = v.clone();
    assert(r@ =~= v@);
    r
}

fn copied_points(v: &Vec<G1Affine>) -> (r: Vec<G1Affine>)
    ensures
        r@ == v@,
{
    let r = v.clone();
    assert(r@ =~= v@);
    r
}

fn copied_indexed_points(v: &Vec<(usize, G1Affine)>) -> (r: Vec<(usize, G1Affine)>)
    ensures
        r@ == v@,
{
    let mut r: Vec<(usize, G1Affine)> = Vec::new();
    for i in 0..v.len()
        invariant
            r@ == v@.take(i as int),
    {
        r.push((v[i].0, v[i].1));
        assert(r@ =~= v@.take(i + 1));
    }
    assert(r@ =~= v@);
    r
}

fn copied_polys(v: &Vec<MultilinearPolynomial>) -> (r: Vec<MultilinearPolynomial>)
    ensures
        r.model() == v.model(),
        r.len() == v.len(),
        forall|i: int| 0 <= i < v.len() ==> (#[trigger] r@[i])@ == v@[i]@,
{
    let mut r: Vec<MultilinearPolynomial> = Vec::new();
    for i in 0..v.len()
        invariant
            r.len() == i,
            forall|j: int| 0 <= j < i ==> (#[trigger] r@[j])@ == v@[j]@,
    {
        r.push(v[i].clone());
    }
    assert(r.model() =~= v.model());
    r
}

fn copied_indexed_polys(v: &Vec<(usize, MultilinearPolynomial)>) -> (r: Vec<
    (usize, MultilinearPolynomial),
>)
    ensures
        r.model() == v.model(),
        r.len() == v.len(),
        forall|i: int|
            0 <= i < v.len() ==> (#[trigger] r@[i]).0 == v@[i].0 && r@[i].1@ == v@[i].1@,
{
    let mut r: Vec<(usize, MultilinearPolynomial)> = Vec::new();
    for i in 0..v.len()
        invariant
            r.len() == i,
            forall|j: int|
                0 <= j < i ==> (#[trigger] r@[j]).0 == v@[j].0 && r@[j].1@ == v@[j].1@,
    {
        r.push((v[i].0, v[i].1.clone()));
    }
    assert(r.model() =~= v.model());
    r
}

/// What a verifying key holds.
#[verifier::ext_equal]
pub struct VerifyingKey {
    pub num_vars: int,
    pub preprocess_comms: Seq<(int, int)>,
    pub permutation_comms: Seq<(int, (int, int))>,
    pub num_instances: Seq<int>,
    pub num_witness_polys: Seq<int>,
    pub num_challenges: Seq<int>,
    pub num_permutation_z_polys: int,
    pub expression: Seq<u8>,
}

/// The last fields of a verifying key in the order of their bytes.
pub type LastFields = (Vec<usize>, (Vec<usize>, (Vec<usize>, (usize, Expression))));

/// The fields of a verifying key in the order of their bytes.
pub type VerifyingKeyFields = (
    NumVars,
    (Vec<G1Affine>, (Vec<(usize, G1Affine)>, LastFields)),
);

impl VerifyingKey {
    pub open spec fn fields(self) -> <VerifyingKeyFields as Wire>::Model {
        (
            self.num_vars,
            (
                self.preprocess_comms,
                (
                    self.permutation_comms,
                    (
                        self.num_instances,
                        (
                            self.num_witness_polys,
                            (
                                self.num_challenges,
                                (self.num_permutation_z_polys, self.expression),
                            ),
                        ),
                    ),
                ),
            ),
        )
    }

    pub open spec fn from_fields(f: <VerifyingKeyFields as Wire>::Model) -> VerifyingKey {
        let (num_vars, (preprocess_comms, (permutation_comms, nums))) = f;
        let (num_instances, (num_witness_polys, (num_challenges, last))) = nums;
        VerifyingKey {
            num_vars,
            preprocess_comms,
            permutation_comms,
            num_instances,
            num_witness_polys,
            num_challenges,
            num_permutation_z_polys: last.0,
            expression: last.1,
        }
    }

    /// The bytes of a verifying key.
    pub open spec fn encode(self) -> Seq<u8> {
        bytes::be_bytes(self.num_vars, 4) + <Vec<G1Affine> as Wire>::encode(self.preprocess_comms)
            + <Vec<(usize, G1Affine)> as Wire>::encode(self.permutation_comms) + <Vec<
            usize,
        > as Wire>::encode(self.num_instances) + <Vec<usize> as Wire>::encode(
            self.num_witness_polys,
        ) + <Vec<usize> as Wire>::encode(self.num_challenges) + bytes::le_bytes(
            self.num_permutation_z_polys,
            4,
        ) + <Expression as Wire>::encode(self.expression)
    }

    /// All lengths, the number of variables and the permutation indices fit into their
    /// bytes, and the expression decodes.
    pub open spec fn legible(self, d: Decoding) -> bool {
        &&& <NumVars as Wire>::encodable(d, self.num_vars)
        &&& <Vec<G1Affine> as Wire>::encodable(d, self.preprocess_comms)
        &&& <Vec<(usize, G1Affine)> as Wire>::encodable(d, self.permutation_comms)
        &&& self.num_instances.len() < 0x1_0000_0000
        &&& self.num_witness_polys.len() < 0x1_0000_0000
        &&& self.num_challenges.len() < 0x1_0000_0000
        &&& self.expression.len() < 0x1_0000_0000
        &&& d(self.expression) is Some
    }

    /// What is read of the key's bytes: the low words of its numbers, and what its
    /// expression decodes to.
    pub open spec fn as_read(self, d: Decoding) -> VerifyingKey {
        VerifyingKey {
            num_instances: wire::low_words(self.num_instances),
            num_witness_polys: wire::low_words(self.num_witness_polys),
            num_challenges: wire::low_words(self.num_challenges),
            num_permutation_z_polys: wire::low_word(self.num_permutation_z_polys),
            expression: d(self.expression)->Some_0,
            ..self
        }
    }
}


proof fn lemma_verifying_key_fields(k: VerifyingKey)
    ensures
        k.encode() == <VerifyingKeyFields as Wire>::encode(k.fields()),
{
    assert(k.encode() =~= <VerifyingKeyFields as Wire>::encode(k.fields()));
}

/// Stores the commitments of the polynomials that are also known to the verifier.
#[derive(Debug)]
pub struct HyperPlonkVerifyingKey {
    pub num_vars: usize,
    /// Commitments to fixed polynomials and selectors.
    pub preprocess_comms: Vec<G1Affine>,
    /// Commitments to sigma polynomials.
    pub permutation_comms: Vec<(usize, G1Affine)>,
    pub num_instances: Vec<usize>,
    pub num_witness_polys: Vec<usize>,
    pub num_challenges: Vec<usize>,
    pub num_permutation_z_polys: usize,
    pub expression: Expression,
}

impl View for HyperPlonkVerifyingKey {
    type V = VerifyingKey;

    open spec fn view(&self) -> VerifyingKey {
        VerifyingKey {
            num_vars: self.num_vars as int,
            preprocess_comms: self.preprocess_comms.model(),
            permutation_comms: self.permutation_comms.model(),
            num_instances: self.num_instances.model(),
            num_witness_polys: self.num_witness_polys.model(),
            num_challenges: self.num_challenges.model(),
            num_permutation_z_polys: self.num_permutation_z_polys as int,
            expression: self.expression@,
        }
    }
}

impl Clone for HyperPlonkVerifyingKey {
    fn clone(&self) -> (r: HyperPlonkVerifyingKey)
        ensures
            r@ == self@,
    {
        HyperPlonkVerifyingKey {
            num_vars: self.num_vars,
            preprocess_comms: copied_points(&self.preprocess_comms),
            permutation_comms: copied_indexed_points(&self.permutation_comms),
            num_instances: copied_numbers(&self.num_instances),
            num_witness_polys: copied_numbers(&self.num_witness_polys),
            num_challenges: copied_numbers(&self.num_challenges),
            num_permutation_z_polys: self.num_permutation_z_polys,
            expression: self.expression.clone(),
        }
    }
}

impl Wire for HyperPlonkVerifyingKey {
    type Model = VerifyingKey;

    open spec fn model(&self) -> VerifyingKey {
        self@
    }

    open spec fn encode(m: VerifyingKey) -> Seq<u8> {
        m.encode()
    }

    open spec fn parse(d: Decoding, s: Seq<u8>) -> Parsed<VerifyingKey> {
        match <VerifyingKeyFields as Wire>::parse(d, s) {
            Err(e) => Err(e),
            Ok((f, rest)) => Ok((VerifyingKey::from_fields(f), rest)),
        }
    }

    open spec fn encodable(d: Decoding, m: VerifyingKey) -> bool {
        <VerifyingKeyFields as Wire>::encodable(d, m.fields())
    }

    proof fn law_read_back(d: Decoding, m: VerifyingKey, rest: Seq<u8>) {
        lemma_verifying_key_fields(m);
        <VerifyingKeyFields as Wire>::law_read_back(d, m.fields(), rest);
        assert(VerifyingKey::from_fields(m.fields()) =~= m);
    }

    proof fn law_canonical(s: Seq<u8>) {
        <VerifyingKeyFields as Wire>::law_canonical(s);
        if let Ok((f, rest)) = <VerifyingKeyFields as Wire>::parse(wire::exact(), s) {
            let k = VerifyingKey::from_fields(f);
            lemma_verifying_key_fields(k);
            assert(k.fields() == f);
        }
    }

    proof fn law_rest(d: Decoding, s: Seq<u8>) {
        <VerifyingKeyFields as Wire>::law_rest(d, s);
    }

    fn put(&self, writer: &mut Vec<u8>) {
        let ghost before = writer@;
        NumVars(self.num_vars).put(writer);
        self.preprocess_comms.put(writer);
        self.permutation_comms.put(writer);
        self.num_instances.put(writer);
        self.num_witness_polys.put(writer);
        self.num_challenges.put(writer);
        self.num_permutation_z_polys.put(writer);
        write_expression(writer, &self.expression);
        assert(writer@ =~= before + self@.encode());
    }

    fn take<D: Fn(Vec<u8>) -> Option<Vec<u8>>>(reader: &mut ByteReader, decode: &D) -> (r: Result<
        HyperPlonkVerifyingKey,
        ReadError,
    >) {
        let fields: VerifyingKeyFields = match Wire::take(reader, decode) {
            Err(e) => {
                return Err(e);
            },
            Ok(f) => f,
        };
        let (num_vars, (preprocess_comms, (permutation_comms, nums))) = fields;
        let (num_instances, (num_witness_polys, (num_challenges, last))) = nums;
        Ok(
            HyperPlonkVerifyingKey {
                num_vars: num_vars.0,
                preprocess_comms,
                permutation_comms,
                num_instances,
                num_witness_polys,
                num_challenges,
                num_permutation_z_polys: last.0,
                expression: last.1,
            },
        )
    }
}

/// Two values are read one after the other.
proof fn lemma_pair_read<A: Wire, B: Wire>(
    d: Decoding,
    s: Seq<u8>,
    a: A::Model,
    t: Seq<u8>,
    b: B::Model,
    rest: Seq<u8>,
)
    requires
        A::parse(d, s) == Parsed::<A::Model>::Ok((a, t)),
        B::parse(d, t) == Parsed::<B::Model>::Ok((b, rest)),
    ensures
        <(A, B) as Wire>::parse(d, s) == Parsed::<(A::Model, B::Model)>::Ok(((a, b), rest)),
{
}

/// What is read of the last fields of a verifying key.
proof fn lemma_last_fields_as_read(d: Decoding, k: VerifyingKey, rest: Seq<u8>)
    requires
        k.legible(d),
    ensures
        <LastFields as Wire>::parse(
            d,
            <LastFields as Wire>::encode(k.fields().1.1.1) + rest,
        ) == Parsed::<<LastFields as Wire>::Model>::Ok((k.as_read(d).fields().1.1.1, rest)),
{
    let f = k.as_read(d).fields().1.1.1;
    let s5 = <Expression as Wire>::encode(k.expression) + rest;
    let s4 = bytes::le_bytes(k.num_permutation_z_polys, 4) + s5;
    let s3 = <Vec<usize> as Wire>::encode(k.num_challenges) + s4;
    let s2 = <Vec<usize> as Wire>::encode(k.num_witness_polys) + s3;
    let s1 = <Vec<usize> as Wire>::encode(k.num_instances) + s2;
    assert(<LastFields as Wire>::encode(k.fields().1.1.1) + rest =~= s1);
    lemma_expression_as_read(d, k.expression, rest);
    wire::lemma_low_word(k.num_permutation_z_polys);
    <usize as Wire>::law_read_back(d, f.1.1.1.0, s5);
    lemma_pair_read::<usize, Expression>(d, s4, f.1.1.1.0, s5, f.1.1.1.1, rest);
    wire::lemma_low_words_read_back(d, k.num_challenges, s4);
    lemma_pair_read::<Vec<usize>, (usize, Expression)>(d, s3, f.1.1.0, s4, f.1.1.1, rest);
    wire::lemma_low_words_read_back(d, k.num_witness_polys, s3);
    lemma_pair_read::<Vec<usize>, (Vec<usize>, (usize, Expression))>(
        d,
        s2,
        f.1.0,
        s3,
        f.1.1,
        rest,
    );
    wire::lemma_low_words_read_back(d, k.num_instances, s2);
    lemma_pair_read::<Vec<usize>, (Vec<usize>, (Vec<usize>, (usize, Expression)))>(
        d,
        s1,
        f.0,
        s2,
        f.1,
        rest,
    );
}

/// What is read of the bytes of a verifying key.
pub proof fn law_verifying_key_as_read(d: Decoding, k: VerifyingKey, rest: Seq<u8>)
    requires
        k.legible(d),
    ensures
        <HyperPlonkVerifyingKey as Wire>::parse(d, k.encode() + rest) == Parsed::<
            VerifyingKey,
        >::Ok((k.as_read(d), rest)),
{
    let f = k.as_read(d).fields();
    let s4 = <LastFields as Wire>::encode(k.fields().1.1.1) + rest;
    let s3 = <Vec<(usize, G1Affine)> as Wire>::encode(k.permutation_comms) + s4;
    let s2 = <Vec<G1Affine> as Wire>::encode(k.preprocess_comms) + s3;
    let s1 = <NumVars as Wire>::encode(k.num_vars) + s2;
    lemma_verifying_key_fields(k);
    assert(k.encode() + rest =~= s1);
    lemma_last_fields_as_read(d, k, rest);
    <Vec<(usize, G1Affine)> as Wire>::law_read_back(d, k.permutation_comms, s4);
    lemma_pair_read::<Vec<(usize, G1Affine)>, LastFields>(d, s3, f.1.1.0, s4, f.1.1.1, rest);
    <Vec<G1Affine> as Wire>::law_read_back(d, k.preprocess_comms, s3);
    lemma_pair_read::<Vec<G1Affine>, (Vec<(usize, G1Affine)>, LastFields)>(
        d,
        s2,
        f.1.0,
        s3,
        f.1.1,
        rest,
    );
    <NumVars as Wire>::law_read_back(d, k.num_vars, s2);
    lemma_pair_read::<NumVars, (Vec<G1Affine>, (Vec<(usize, G1Affine)>, LastFields))>(
        d,
        s1,
        f.0,
        s2,
        f.1,
        rest,
    );
    assert(VerifyingKey::from_fields(f) =~= k.as_read(d));
}

impl HyperPlonkVerifyingKey {
    /// Appends the bytes of the key.
    pub fn write(&self, writer: &mut Vec<u8>)
        ensures
            final(writer)@ == old(writer)@ + self@.encode(),
    {
        self.put(writer)
    }

    /// Reads a key.
    pub fn read<D: Fn(Vec<u8>) -> Option<Vec<u8>>>(
        reader: &mut ByteReader,
        decode: &D,
    ) -> (r: Result<HyperPlonkVerifyingKey, ReadError>)
        requires
            wire::goes_by_bytes(*decode),
        ensures
                match <HyperPlonkVerifyingKey as Wire>::parse(wire::decoding(*decode), old(reader)@) {
                Ok((m, rest)) => r matches Ok(k) && k@ == m && final(reader)@ == rest,
                Err((e, rest)) => r matches Err(f) && f == e && final(reader)@ == rest,
            },
    {
        Wire::take(reader, decode)
    }

    /// The bytes of the key.
    pub fn to_bytes(&self) -> (r: Vec<u8>)
        ensures
            r@ == self@.encode(),
    {
        let mut out: Vec<u8> = Vec::new();
        self.write(&mut out);
        assert(Seq::<u8>::empty() + self@.encode() =~= self@.encode());
        out
    }
}

/// What a proving key holds.
#[verifier::ext_equal]
pub struct ProvingKey {
    pub vk: VerifyingKey,
    pub preprocess_polys: Seq<Seq<int>>,
    pub permutation_polys: Seq<(int, Seq<int>)>,
}

/// The fields of a proving key in the order of their bytes.
pub type ProvingKeyFields = (
    HyperPlonkVerifyingKey,
    (Vec<MultilinearPolynomial>, Vec<(usize, MultilinearPolynomial)>),
);

impl ProvingKey {
    pub open spec fn fields(self) -> <ProvingKeyFields as Wire>::Model {
        (self.vk, (self.preprocess_polys, self.permutation_polys))
    }

    /// The bytes of a proving key.
    pub open spec fn encode(self) -> Seq<u8> {
        self.vk.encode() + <Vec<MultilinearPolynomial> as Wire>::encode(self.preprocess_polys)
            + <Vec<(usize, MultilinearPolynomial)> as Wire>::encode(self.permutation_polys)
    }
}

proof fn lemma_proving_key_fields(k: ProvingKey)
    ensures
        k.encode() == <ProvingKeyFields as Wire>::encode(k.fields()),
{
    assert(k.encode() =~= <ProvingKeyFields as Wire>::encode(k.fields()));
}

/// A verifying key with the polynomials behind its commitments.
#[derive(Debug)]
pub struct HyperPlonkProvingKey {
    pub vk: HyperPlonkVerifyingKey,
    pub preprocess_polys: Vec<MultilinearPolynomial>,
    pub permutation_polys: Vec<(usize, MultilinearPolynomial)>,
}

impl View for HyperPlonkProvingKey {
    type V = ProvingKey;

    open spec fn view(&self) -> ProvingKey {
        ProvingKey {
            vk: self.vk@,
            preprocess_polys: self.preprocess_polys.model(),
            permutation_polys: self.permutation_polys.model(),
        }
    }
}

impl Clone for HyperPlonkProvingKey {
    fn clone(&self) -> (r: HyperPlonkProvingKey)
        ensures
            r@ == self@,
    {
        HyperPlonkProvingKey {
            vk: self.vk.clone(),
            preprocess_polys: copied_polys(&self.preprocess_polys),
            permutation_polys: copied_indexed_polys(&self.permutation_polys),
        }
    }
}

impl Wire for HyperPlonkProvingKey {
    type Model = ProvingKey;

    open spec fn model(&self) -> ProvingKey {
        self@
    }

    open spec fn encode(m: ProvingKey) -> Seq<u8> {
        m.encode()
    }

    open spec fn parse(d: Decoding, s: Seq<u8>) -> Parsed<ProvingKey> {
        match <ProvingKeyFields as Wire>::parse(d, s) {
            Err(e) => Err(e),
            Ok(((vk, polys), rest)) => Ok(
                (
                    ProvingKey { vk, preprocess_polys: polys.0, permutation_polys: polys.1 },
                    rest,
                ),
            ),
        }
    }

    open spec fn encodable(d: Decoding, m: ProvingKey) -> bool {
        <ProvingKeyFields as Wire>::encodable(d, m.fields())
    }

    proof fn law_read_back(d: Decoding, m: ProvingKey, rest: Seq<u8>) {
        lemma_proving_key_fields(m);
        <ProvingKeyFields as Wire>::law_read_back(d, m.fields(), rest);
    }

    proof fn law_canonical(s: Seq<u8>) {
        <ProvingKeyFields as Wire>::law_canonical(s);
        if let Ok((k, rest)) = Self::parse(wire::exact(), s) {
            lemma_proving_key_fields(k);
        }
    }

    proof fn law_rest(d: Decoding, s: Seq<u8>) {
        <ProvingKeyFields as Wire>::law_rest(d, s);
    }

    fn put(&self, writer: &mut Vec<u8>) {
        self.write(writer)
    }

    fn take<D: Fn(Vec<u8>) -> Option<Vec<u8>>>(reader: &mut ByteReader, decode: &D) -> (r: Result<
        HyperPlonkProvingKey,
        ReadError,
    >) {
        HyperPlonkProvingKey::read(reader, decode)
    }
}

impl HyperPlonkProvingKey {
    /// Appends the bytes of the key.
    pub fn write(&self, writer: &mut Vec<u8>)
        ensures
            final(writer)@ == old(writer)@ + self@.encode(),
    {
        let ghost before = writer@;
        self.vk.write(writer);
        self.preprocess_polys.put(writer);
        self.permutation_polys.put(writer);
        assert(writer@ =~= before + self@.encode());
    }

    /// Reads a key.
    pub fn read<D: Fn(Vec<u8>) -> Option<Vec<u8>>>(
        reader: &mut ByteReader,
        decode: &D,
    ) -> (r: Result<HyperPlonkProvingKey, ReadError>)
        requires
            wire::goes_by_bytes(*decode),
        ensures
                match <HyperPlonkProvingKey as Wire>::parse(wire::decoding(*decode), old(reader)@) {
                Ok((m, rest)) => r matches Ok(k) && k@ == m && final(reader)@ == rest,
                Err((e, rest)) => r matches Err(f) && f == e && final(reader)@ == rest,
            },
    {
        let fields: ProvingKeyFields = match Wire::take(reader, decode) {
            Err(e) => {
                return Err(e);
            },
            Ok(f) => f,
        };
        let (vk, (preprocess_polys, permutation_polys)) = fields;
        Ok(HyperPlonkProvingKey { vk, preprocess_polys, permutation_polys })
    }
}

/// What a prover's parameters hold, but for those of the commitment scheme.
#[verifier::ext_equal]
pub struct ProverParam {
    pub num_instances: Seq<int>,
    pub num_witness_polys: Seq<int>,
    pub num_challenges: Seq<int>,
    pub lookups: Seq<Seq<(Seq<u8>, Seq<u8>)>>,
    pub num_permutation_z_polys: int,
    pub num_vars: int,
    pub expression: Seq<u8>,
    pub preprocess_polys: Seq<Seq<int>>,
    pub preprocess_comms: Seq<(int, int)>,
    pub permutation_polys: Seq<(int, Seq<int>)>,
    pub permutation_comms: Seq<(int, int)>,
}

impl ProverParam {
    /// The proving key, in which each permutation commitment stands beside the index of
    /// its polynomial. What is left over of the longer of the two lists has no partner, and
    /// a commitment without one is dropped.
    pub open spec fn proving_key(self) -> ProvingKey {
        let (n, m) = (self.permutation_comms.len(), self.permutation_polys.len());
        ProvingKey {
            vk: VerifyingKey {
                num_vars: self.num_vars,
                preprocess_comms: self.preprocess_comms,
                permutation_comms: Seq::new(
                    if n <= m {
                        n
                    } else {
                        m
                    },
                    |i: int| (self.permutation_polys[i].0, self.permutation_comms[i]),
                ),
                num_instances: self.num_instances,
                num_witness_polys: self.num_witness_polys,
                num_challenges: self.num_challenges,
                num_permutation_z_polys: self.num_permutation_z_polys,
                expression: self.expression,
            },
            preprocess_polys: self.preprocess_polys,
            permutation_polys: self.permutation_polys,
        }
    }

    /// The parameters with the given key and lookups.
    pub open spec fn of(k: ProvingKey, lookups: Seq<Seq<(Seq<u8>, Seq<u8>)>>) -> ProverParam {
        ProverParam {
            num_instances: k.vk.num_instances,
            num_witness_polys: k.vk.num_witness_polys,
            num_challenges: k.vk.num_challenges,
            lookups,
            num_permutation_z_polys: k.vk.num_permutation_z_polys,
            num_vars: k.vk.num_vars,
            expression: k.vk.expression,
            preprocess_polys: k.preprocess_polys,
            preprocess_comms: k.vk.preprocess_comms,
            permutation_polys: k.permutation_polys,
            permutation_comms: Seq::new(
                k.vk.permutation_comms.len(),
                |i: int| k.vk.permutation_comms[i].1,
            ),
        }
    }

    /// The bytes of a prover's parameters.
    pub open spec fn encode(self) -> Seq<u8> {
        self.proving_key().encode() + <Vec<Vec<(Expression, Expression)>> as Wire>::encode(
            self.lookups,
        )
    }

    /// What is read from bytes.
    pub open spec fn parse(d: Decoding, s: Seq<u8>) -> Parsed<ProverParam> {
        match <HyperPlonkProvingKey as Wire>::parse(d, s) {
            Err(e) => Err(e),
            Ok((k, s1)) => match <Vec<Vec<(Expression, Expression)>> as Wire>::parse(d, s1) {
                Err(e) => Err(e),
                Ok((lookups, s2)) => Ok((ProverParam::of(k, lookups), s2)),
            },
        }
    }

    /// All numbers fit into their bytes, the expressions are those of values, and no
    /// permutation commitment is without its polynomial.
    pub open spec fn encodable(self, d: Decoding) -> bool {
        &&& <HyperPlonkProvingKey as Wire>::encodable(d, self.proving_key())
        &&& <Vec<Vec<(Expression, Expression)>> as Wire>::encodable(d, self.lookups)
        &&& self.permutation_comms.len() <= self.permutation_polys.len()
    }
}

/// The proving key of a prover's parameters, with the lookups, holds all of the parameters.
proof fn lemma_prover_param_of(m: ProverParam)
    requires
        m.permutation_comms.len() <= m.permutation_polys.len(),
    ensures
        ProverParam::of(m.proving_key(), m.lookups) == m,
{
    assert(ProverParam::of(m.proving_key(), m.lookups) =~= m);
}

/// In the proving key of a prover's parameters, the `i`-th permutation commitment stands with
/// the index of the `i`-th permutation polynomial, for as many as there are of both. All else
/// is as in the parameters.
pub proof fn law_prover_param_key(m: ProverParam, i: int)
    ensures
        m.proving_key().vk.num_vars == m.num_vars,
        m.proving_key().vk.preprocess_comms == m.preprocess_comms,
        m.proving_key().vk.permutation_comms.len() == (if m.permutation_comms.len()
            <= m.permutation_polys.len() {
            m.permutation_comms.len()
        } else {
            m.permutation_polys.len()
        }),
        0 <= i < m.permutation_comms.len() && i < m.permutation_polys.len() ==> {
            &&& m.proving_key().vk.permutation_comms[i].0 == m.permutation_polys[i].0
            &&& m.proving_key().vk.permutation_comms[i].1 == m.permutation_comms[i]
        },
        m.proving_key().vk.num_instances == m.num_instances,
        m.proving_key().vk.num_witness_polys == m.num_witness_polys,
        m.proving_key().vk.num_challenges == m.num_challenges,
        m.proving_key().vk.num_permutation_z_polys == m.num_permutation_z_polys,
        m.proving_key().vk.expression == m.expression,
        m.proving_key().preprocess_polys == m.preprocess_polys,
        m.proving_key().permutation_polys == m.permutation_polys,
{
}

/// Which prover's parameters can be written and read back: those whose numbers and lengths
/// are words, whose expressions are the bytes of values, whose points and polynomials are
/// such, and which have a polynomial for each permutation commitment.
pub proof fn law_prover_param_encodable(d: Decoding, m: ProverParam)
    requires
        0 <= m.num_vars < 0x1_0000_0000,
        0 <= m.num_permutation_z_polys < 0x1_0000_0000,
        m.expression.len() < 0x1_0000_0000,
        d(m.expression) == Some(m.expression),
        m.preprocess_comms.len() < 0x1_0000_0000,
        forall|i: int|
            0 <= i < m.preprocess_comms.len() ==> 0 <= (#[trigger] m.preprocess_comms[i]).0 < curve::base_modulus() && 0
                <= m.preprocess_comms[i].1 < curve::base_modulus(),
        m.permutation_comms.len() <= m.permutation_polys.len() < 0x1_0000_0000,
        forall|i: int|
            0 <= i < m.permutation_comms.len() ==> 0 <= (#[trigger] m.permutation_comms[i]).0 < curve::base_modulus() && 0
                <= m.permutation_comms[i].1 < curve::base_modulus(),
        forall|i: int|
            0 <= i < m.permutation_polys.len() ==> 0 <= (#[trigger] m.permutation_polys[i]).0
                < 0x1_0000_0000 && m.permutation_polys[i].1.len() < 0x1_0000_0000
                && multilinear::table_len(m.permutation_polys[i].1.len()),
        forall|i: int, j: int|
            0 <= i < m.permutation_polys.len() && 0 <= j < m.permutation_polys[i].1.len() ==> 0
                <= #[trigger] m.permutation_polys[i].1[j] < zp::modulus(),
        m.preprocess_polys.len() < 0x1_0000_0000,
        forall|i: int|
            0 <= i < m.preprocess_polys.len() ==> (#[trigger] m.preprocess_polys[i]).len()
                < 0x1_0000_0000 && multilinear::table_len(m.preprocess_polys[i].len()),
        forall|i: int, j: int|
            0 <= i < m.preprocess_polys.len() && 0 <= j < m.preprocess_polys[i].len() ==> 0
                <= #[trigger] m.preprocess_polys[i][j] < zp::modulus(),
        m.num_instances.len() < 0x1_0000_0000,
        forall|i: int|
            0 <= i < m.num_instances.len() ==> 0 <= #[trigger] m.num_instances[i] < 0x1_0000_0000,
        m.num_witness_polys.len() < 0x1_0000_0000,
        forall|i: int|
            0 <= i < m.num_witness_polys.len() ==> 0 <= #[trigger] m.num_witness_polys[i] < 0x1_0000_0000,
        m.num_challenges.len() < 0x1_0000_0000,
        forall|i: int|
            0 <= i < m.num_challenges.len() ==> 0 <= #[trigger] m.num_challenges[i] < 0x1_0000_0000,
        m.lookups.len() < 0x1_0000_0000,
        forall|i: int| 0 <= i < m.lookups.len() ==> (#[trigger] m.lookups[i]).len() < 0x1_0000_0000,
        forall|i: int, j: int|
            0 <= i < m.lookups.len() && 0 <= j < m.lookups[i].len() ==> {
                let (a, b) = #[trigger] m.lookups[i][j];
                &&& a.len() < 0x1_0000_0000 && d(a) == Some(a)
                &&& b.len() < 0x1_0000_0000 && d(b) == Some(b)
            },
    ensures
        m.encodable(d),
{
    let k = m.proving_key();
    let v = k.vk;
    assert forall|i: int| 0 <= i < v.permutation_comms.len() implies <(
        usize,
        G1Affine,
    ) as Wire>::encodable(d, #[trigger] v.permutation_comms[i]) by {
        let (c, p) = (m.permutation_comms[i], m.permutation_polys[i]);
    }
    assert(<Vec<(usize, G1Affine)> as Wire>::encodable(d, v.permutation_comms));
    assert(<Vec<G1Affine> as Wire>::encodable(d, v.preprocess_comms));
    assert(<Vec<usize> as Wire>::encodable(d, v.num_instances));
    assert(<Vec<usize> as Wire>::encodable(d, v.num_witness_polys));
    assert(<Vec<usize> as Wire>::encodable(d, v.num_challenges));
    assert(<HyperPlonkVerifyingKey as Wire>::encodable(d, v));
    assert forall|i: int| 0 <= i < k.preprocess_polys.len() implies <MultilinearPolynomial as Wire>::encodable(
        d,
        #[trigger] k.preprocess_polys[i],
    ) by {
        let p = m.preprocess_polys[i];
        assert forall|j: int| 0 <= j < p.len() implies <Scalar as Wire>::encodable(
            d,
            #[trigger] p[j],
        ) by {
            assert(0 <= m.preprocess_polys[i][j] < zp::modulus());
        }
    }
    assert(<Vec<MultilinearPolynomial> as Wire>::encodable(d, k.preprocess_polys));
    assert forall|i: int| 0 <= i < k.permutation_polys.len() implies <(
        usize,
        MultilinearPolynomial,
    ) as Wire>::encodable(d, #[trigger] k.permutation_polys[i]) by {
        let p = m.permutation_polys[i].1;
        assert forall|j: int| 0 <= j < p.len() implies <Scalar as Wire>::encodable(
            d,
            #[trigger] p[j],
        ) by {
            assert(0 <= m.permutation_polys[i].1[j] < zp::modulus());
        }
    }
    assert(<Vec<(usize, MultilinearPolynomial)> as Wire>::encodable(d, k.permutation_polys));
    assert forall|i: int| 0 <= i < m.lookups.len() implies <Vec<
        (Expression, Expression),
    > as Wire>::encodable(d, #[trigger] m.lookups[i]) by {
        assert(m.lookups[i].len() < 0x1_0000_0000);
        assert forall|j: int| 0 <= j < m.lookups[i].len() implies <(
            Expression,
            Expression,
        ) as Wire>::encodable(d, #[trigger] m.lookups[i][j]) by {
            let pair = m.lookups[i][j];
        }
    }
}

/// The order in which parameters and keys are written: of a prover, the proving key and then
/// the lookups; of a proving key, the verifying key and then the polynomials; and of a verifying
/// key, the number of variables, most significant byte first, the commitments, the lists of
/// numbers, the number of permutation polynomials and the expression.
pub proof fn law_layout(m: ProverParam, k: ProvingKey, v: VerifyingKey, e: Seq<u8>)
    ensures
        m.encode() == m.proving_key().encode() + <Vec<
            Vec<(Expression, Expression)>,
        > as Wire>::encode(m.lookups),
        k.encode() == k.vk.encode() + (<Vec<MultilinearPolynomial> as Wire>::encode(
            k.preprocess_polys,
        ) + <Vec<(usize, MultilinearPolynomial)> as Wire>::encode(k.permutation_polys)),
        v.encode() == bytes::le_bytes(v.num_vars, 4).reverse() + (<Vec<
            G1Affine,
        > as Wire>::encode(v.preprocess_comms) + (<Vec<(usize, G1Affine)> as Wire>::encode(
            v.permutation_comms,
        ) + (<Vec<usize> as Wire>::encode(v.num_instances) + (<Vec<usize> as Wire>::encode(
            v.num_witness_polys,
        ) + (<Vec<usize> as Wire>::encode(v.num_challenges) + (bytes::le_bytes(
            v.num_permutation_z_polys,
            4,
        ) + <Expression as Wire>::encode(v.expression))))))),
        <Expression as Wire>::encode(e) == bytes::le_bytes(e.len() as int, 4) + e,
{
    lemma_verifying_key_fields(v);
    lemma_proving_key_fields(k);
}

/// Of a prover's parameters that are read, the lookups are those that stand behind the key, each
/// permutation commitment is that of the key without its index, and all else is as in the key.
pub proof fn law_prover_param_sources(
    k: ProvingKey,
    lookups: Seq<Seq<(Seq<u8>, Seq<u8>)>>,
    i: int,
)
    ensures
        ProverParam::of(k, lookups).lookups == lookups,
        ProverParam::of(k, lookups).num_vars == k.vk.num_vars,
        ProverParam::of(k, lookups).num_instances == k.vk.num_instances,
        ProverParam::of(k, lookups).num_witness_polys == k.vk.num_witness_polys,
        ProverParam::of(k, lookups).num_challenges == k.vk.num_challenges,
        ProverParam::of(k, lookups).num_permutation_z_polys == k.vk.num_permutation_z_polys,
        ProverParam::of(k, lookups).expression == k.vk.expression,
        ProverParam::of(k, lookups).preprocess_polys == k.preprocess_polys,
        ProverParam::of(k, lookups).preprocess_comms == k.vk.preprocess_comms,
        ProverParam::of(k, lookups).permutation_polys == k.permutation_polys,
        ProverParam::of(k, lookups).permutation_comms.len() == k.vk.permutation_comms.len(),
        0 <= i < k.vk.permutation_comms.len() ==> ProverParam::of(k, lookups).permutation_comms[i]
            == k.vk.permutation_comms[i].1,
{
}

/// A prover's parameters that were written are read back.
#[verifier::spinoff_prover]
pub proof fn law_prover_param_read_back(d: Decoding, m: ProverParam, rest: Seq<u8>)
    requires
        m.encodable(d),
    ensures
        ProverParam::parse(d, m.encode() + rest) == Parsed::<ProverParam>::Ok((m, rest)),
{
    let (k, l) = (
        m.proving_key().encode(),
        <Vec<Vec<(Expression, Expression)>> as Wire>::encode(m.lookups),
    );
    assert(k + l + rest =~= k + (l + rest));
    <HyperPlonkProvingKey as Wire>::law_read_back(d, m.proving_key(), l + rest);
    <Vec<Vec<(Expression, Expression)>> as Wire>::law_read_back(d, m.lookups, rest);
    lemma_prover_param_of(m);
}

/// Reading a prover's parameters, failed or not, leaves the end of the bytes that were there.
pub proof fn law_prover_param_rest(d: Decoding, s: Seq<u8>)
    ensures
        wire::leaves_the_end(s, ProverParam::parse(d, s)),
{
    <HyperPlonkProvingKey as Wire>::law_rest(d, s);
    if let Ok((_, s1)) = <HyperPlonkProvingKey as Wire>::parse(d, s) {
        <Vec<Vec<(Expression, Expression)>> as Wire>::law_rest(d, s1);
        wire::lemma_ends_trans(
            s,
            s1,
            <Vec<Vec<(Expression, Expression)>> as Wire>::parse(d, s1),
        );
    }
}

/// What a prover needs of a circuit, with the parameters of the commitment scheme.
pub struct HyperPlonkProverParam<Pcs> {
    pub pcs: Pcs,
    pub num_instances: Vec<usize>,
    pub num_witness_polys: Vec<usize>,
    pub num_challenges: Vec<usize>,
    pub lookups: Vec<Vec<(Expression, Expression)>>,
    pub num_permutation_z_polys: usize,
    pub num_vars: usize,
    pub expression: Expression,
    pub preprocess_polys: Vec<MultilinearPolynomial>,
    pub preprocess_comms: Vec<G1Affine>,
    pub permutation_polys: Vec<(usize, MultilinearPolynomial)>,
    pub permutation_comms: Vec<G1Affine>,
}

impl<Pcs> View for HyperPlonkProverParam<Pcs> {
    type V = ProverParam;

    open spec fn view(&self) -> ProverParam {
        ProverParam {
            num_instances: self.num_instances.model(),
            num_witness_polys: self.num_witness_polys.model(),
            num_challenges: self.num_challenges.model(),
            lookups: self.lookups.model(),
            num_permutation_z_polys: self.num_permutation_z_polys as int,
            num_vars: self.num_vars as int,
            expression: self.expression@,
            preprocess_polys: self.preprocess_polys.model(),
            preprocess_comms: self.preprocess_comms.model(),
            permutation_polys: self.permutation_polys.model(),
            permutation_comms: self.permutation_comms.model(),
        }
    }
}

impl<Pcs> HyperPlonkProverParam<Pcs> {
    /// The proving key of the parameters.
    pub fn to_pk(&self) -> (r: HyperPlonkProvingKey)
        ensures
            r@ == self@.proving_key(),
            r.vk.num_vars == self.num_vars,
            r.vk.preprocess_comms@ == self.preprocess_comms@,
            r.vk.permutation_comms.len() <= self.permutation_comms.len(),
            r.vk.permutation_comms.len() <= self.permutation_polys.len(),
            r.vk.permutation_comms.len() == self.permutation_comms.len()
                || r.vk.permutation_comms.len() == self.permutation_polys.len(),
            forall|i: int|
                0 <= i < r.vk.permutation_comms.len() ==> (
                #[trigger] r.vk.permutation_comms@[i]).0 == self.permutation_polys@[i].0
                    && r.vk.permutation_comms@[i].1 == self.permutation_comms@[i],
            r.vk.num_instances@ == self.num_instances@,
            r.vk.num_witness_polys@ == self.num_witness_polys@,
            r.vk.num_challenges@ == self.num_challenges@,
            r.vk.num_permutation_z_polys == self.num_permutation_z_polys,
            r.vk.expression@ == self.expression@,
            r.preprocess_polys.len() == self.preprocess_polys.len(),
            forall|i: int|
                0 <= i < r.preprocess_polys.len() ==> (#[trigger] r.preprocess_polys@[i])@
                    == self.preprocess_polys@[i]@,
            r.permutation_polys.len() == self.permutation_polys.len(),
            forall|i: int|
                0 <= i < r.permutation_polys.len() ==> (#[trigger] r.permutation_polys@[i]).0
                    == self.permutation_polys@[i].0 && r.permutation_polys@[i].1@
                    == self.permutation_polys@[i].1@,
    {
        let mut permutation_comms: Vec<(usize, G1Affine)> = Vec::new();
        let (n, m): (usize, usize) = (self.permutation_comms.len(), self.permutation_polys.len());
        let len: usize = if n <= m {
            n
        } else {
            m
        };
        for i in 0..len
            invariant
                len <= self.permutation_comms.len(),
                len <= self.permutation_polys.len(),
                permutation_comms.len() == i,
                forall|j: int|
                    0 <= j < i ==> (#[trigger] permutation_comms@[j]).0
                        == self.permutation_polys@[j].0 && permutation_comms@[j].1
                        == self.permutation_comms@[j],
        {
            permutation_comms.push((self.permutation_polys[i].0, self.permutation_comms[i]));
        }
        let r = HyperPlonkProvingKey {
            vk: HyperPlonkVerifyingKey {
                num_vars: self.num_vars,
                preprocess_comms: copied_points(&self.preprocess_comms),
                permutation_comms,
                num_instances: copied_numbers(&self.num_instances),
                num_witness_polys: copied_numbers(&self.num_witness_polys),
                num_challenges: copied_numbers(&self.num_challenges),
                num_permutation_z_polys: self.num_permutation_z_polys,
                expression: self.expression.clone(),
            },
            preprocess_polys: copied_polys(&self.preprocess_polys),
            permutation_polys: copied_indexed_polys(&self.permutation_polys),
        };
        assert(r@.vk.permutation_comms =~= self@.proving_key().vk.permutation_comms);
        assert(r@ =~= self@.proving_key());
        r
    }

    /// Appends the bytes of the parameters, without those of the commitment scheme.
    pub fn write(&self, writer: &mut Vec<u8>)
        ensures
            final(writer)@ == old(writer)@ + self@.encode(),
    {
        let ghost before = writer@;
        self.to_pk().write(writer);
        self.lookups.put(writer);
        assert(writer@ =~= before + self@.encode());
    }

    /// Reads parameters; those of the commitment scheme are given, and matter neither to the
    /// answer nor to the bytes that are left.
    pub fn read<D: Fn(Vec<u8>) -> Option<Vec<u8>>>(
        reader: &mut ByteReader,
        decode: &D,
        pcs: Pcs,
    ) -> (r: Result<HyperPlonkProverParam<Pcs>, ReadError>)
        requires
            wire::goes_by_bytes(*decode),
        ensures
                match ProverParam::parse(wire::decoding(*decode), old(reader)@) {
                Ok((m, rest)) => {
                    &&& r matches Ok(p)
                    &&& p@ == m
                    &&& p.pcs == pcs
                    &&& final(reader)@ == rest
                },
                Err((e, rest)) => r matches Err(f) && f == e && final(reader)@ == rest,
            },
    {
        let pk = match HyperPlonkProvingKey::read(reader, decode) {
            Err(e) => {
                return Err(e);
            },
            Ok(k) => k,
        };
        let lookups: Vec<Vec<(Expression, Expression)>> = match Wire::take(reader, decode) {
            Err(e) => {
                return Err(e);
            },
            Ok(l) => l,
        };
        let mut permutation_comms: Vec<G1Affine> = Vec::new();
        for i in 0..pk.vk.permutation_comms.len()
            invariant
                permutation_comms.len() == i,
                forall|j: int|
                    0 <= j < i ==> #[trigger] permutation_comms@[j]
                        == pk.vk.permutation_comms@[j].1,
        {
            permutation_comms.push(pk.vk.permutation_comms[i].1);
        }
        let ghost m = ProverParam::of(pk@, lookups.model());
        let vk = pk.vk;
        let p = HyperPlonkProverParam {
            pcs,
            num_instances: vk.num_instances,
            num_witness_polys: vk.num_witness_polys,
            num_challenges: vk.num_challenges,
            lookups,
            num_permutation_z_polys: vk.num_permutation_z_polys,
            num_vars: vk.num_vars,
            expression: vk.expression,
            preprocess_polys: pk.preprocess_polys,
            preprocess_comms: vk.preprocess_comms,
            permutation_polys: pk.permutation_polys,
            permutation_comms,
        };
        assert(p@.permutation_comms =~= m.permutation_comms);
        assert(p@ =~= m);
        Ok(p)
    }

    /// The bytes of the parameters, without those of the commitment scheme.
    pub fn to_bytes(&self) -> (r: Vec<u8>)
        ensures
            r@ == self@.encode(),
    {
        let mut out: Vec<u8> = Vec::new();
        self.write(&mut out);
        assert(Seq::<u8>::empty() + self@.encode() =~= self@.encode());
        out
    }
}

/// What a circuit says of itself.
pub struct CircuitInfo {
    pub num_instances: Vec<usize>,
    pub num_witness_polys: Vec<usize>,
    pub num_challenges: Vec<usize>,
    pub lookups: Vec<Vec<(Expression, Expression)>>,
}

/// What the constraints of a circuit are composed to.
pub struct Composition {
    pub num_permutation_z_polys: usize,
    pub expression: Expression,
}

/// Why a verifier's parameters could not be read.
#[derive(Debug, PartialEq, Eq)]
pub enum VerifierParamError<E> {
    /// The verifying key could not be read.
    Key(ReadError),
    /// The circuit does not describe itself.
    Circuit(E),
}

/// What a verifier's parameters hold, but for those of the commitment scheme.
#[verifier::ext_equal]
pub struct VerifierParam {
    pub num_instances: Seq<int>,
    pub num_witness_polys: Seq<int>,
    pub num_challenges: Seq<int>,
    pub num_lookups: int,
    pub num_permutation_z_polys: int,
    pub num_vars: int,
    pub expression: Seq<u8>,
    pub preprocess_comms: Seq<(int, int)>,
    pub permutation_comms: Seq<(int, (int, int))>,
}

impl VerifierParam {
    /// The verifying key of the parameters.
    pub open spec fn verifying_key(self) -> VerifyingKey {
        VerifyingKey {
            num_vars: self.num_vars,
            preprocess_comms: self.preprocess_comms,
            permutation_comms: self.permutation_comms,
            num_instances: self.num_instances,
            num_witness_polys: self.num_witness_polys,
            num_challenges: self.num_challenges,
            num_permutation_z_polys: self.num_permutation_z_polys,
            expression: self.expression,
        }
    }

    /// The parameters for a key and a circuit. Of the key only the number of variables and
    /// the commitments matter; all else comes from the circuit.
    pub open spec fn of(k: VerifyingKey, info: CircuitInfo, composed: Composition) -> VerifierParam {
        VerifierParam {
            num_instances: info.num_instances.model(),
            num_witness_polys: info.num_witness_polys.model(),
            num_challenges: info.num_challenges.model(),
            num_lookups: info.lookups.len() as int,
            num_permutation_z_polys: composed.num_permutation_z_polys as int,
            num_vars: k.num_vars,
            expression: composed.expression@,
            preprocess_comms: k.preprocess_comms,
            permutation_comms: k.permutation_comms,
        }
    }

    /// The circuit is the one that the parameters are for.
    pub open spec fn describes(self, info: CircuitInfo, composed: Composition) -> bool {
        &&& self.num_instances == info.num_instances.model()
        &&& self.num_witness_polys == info.num_witness_polys.model()
        &&& self.num_challenges == info.num_challenges.model()
        &&& self.num_lookups == info.lookups.len()
        &&& self.num_permutation_z_polys == composed.num_permutation_z_polys
        &&& self.expression == composed.expression@
    }
}

/// A verifier's parameters that were written are read back with the circuit that they are
/// for. The stored numbers of instances, witness polynomials, challenges and permutation
/// polynomials may be too large for their bytes, and the stored expression need not be that
/// of its value: they are generated again.
pub proof fn law_verifier_param_read_back(
    d: Decoding,
    m: VerifierParam,
    info: CircuitInfo,
    composed: Composition,
    rest: Seq<u8>,
)
    requires
        0 <= m.num_vars < 0x1_0000_0000,
        <Vec<G1Affine> as Wire>::encodable(d, m.preprocess_comms),
        <Vec<(usize, G1Affine)> as Wire>::encodable(d, m.permutation_comms),
        m.num_instances.len() < 0x1_0000_0000,
        m.num_witness_polys.len() < 0x1_0000_0000,
        m.num_challenges.len() < 0x1_0000_0000,
        m.expression.len() < 0x1_0000_0000,
        d(m.expression) is Some,
        m.num_instances == info.num_instances.model(),
        m.num_witness_polys == info.num_witness_polys.model(),
        m.num_challenges == info.num_challenges.model(),
        m.num_lookups == info.lookups.len(),
        m.num_permutation_z_polys == composed.num_permutation_z_polys,
        m.expression == composed.expression@,
    ensures
        ({
            let k = m.verifying_key();
            &&& <HyperPlonkVerifyingKey as Wire>::parse(d, k.encode() + rest) == Parsed::<
                VerifyingKey,
            >::Ok((k.as_read(d), rest))
            &&& VerifierParam::of(k.as_read(d), info, composed) == m
            &&& m.describes(info, composed)
        }),
{
    law_verifying_key_as_read(d, m.verifying_key(), rest);
    assert(VerifierParam::of(m.verifying_key().as_read(d), info, composed) =~= m);
}

/// The verifying key of a verifier's parameters holds all that the parameters hold, but for
/// the number of lookups, and what is read of its bytes holds as much of it as they can.
pub proof fn law_verifier_param_key(d: Decoding, m: VerifierParam)
    ensures
        m.verifying_key().num_vars == m.num_vars,
        m.verifying_key().preprocess_comms == m.preprocess_comms,
        m.verifying_key().permutation_comms == m.permutation_comms,
        m.verifying_key().num_instances == m.num_instances,
        m.verifying_key().num_witness_polys == m.num_witness_polys,
        m.verifying_key().num_challenges == m.num_challenges,
        m.verifying_key().num_permutation_z_polys == m.num_permutation_z_polys,
        m.verifying_key().expression == m.expression,
        m.verifying_key().as_read(d).num_vars == m.num_vars,
        m.verifying_key().as_read(d).preprocess_comms == m.preprocess_comms,
        m.verifying_key().as_read(d).permutation_comms == m.permutation_comms,
        m.verifying_key().as_read(d).num_permutation_z_polys == m.num_permutation_z_polys
            % 0x1_0000_0000,
        d(m.expression) matches Some(e) ==> m.verifying_key().as_read(d).expression == e,
        ({
            let k = m.verifying_key().as_read(d);
            &&& k.num_instances == Seq::new(
                m.num_instances.len(),
                |i: int| m.num_instances[i] % 0x1_0000_0000,
            )
            &&& k.num_witness_polys == Seq::new(
                m.num_witness_polys.len(),
                |i: int| m.num_witness_polys[i] % 0x1_0000_0000,
            )
            &&& k.num_challenges == Seq::new(
                m.num_challenges.len(),
                |i: int| m.num_challenges[i] % 0x1_0000_0000,
            )
        }),
{
    let k = m.verifying_key().as_read(d);
    assert(k.num_instances =~= Seq::new(
        m.num_instances.len(),
        |i: int| m.num_instances[i] % 0x1_0000_0000,
    ));
    assert(k.num_witness_polys =~= Seq::new(
        m.num_witness_polys.len(),
        |i: int| m.num_witness_polys[i] % 0x1_0000_0000,
    ));
    assert(k.num_challenges =~= Seq::new(
        m.num_challenges.len(),
        |i: int| m.num_challenges[i] % 0x1_0000_0000,
    ));
}

/// Of a verifier's parameters, the number of variables and the commitments are those of the
/// key, and all else is that of the circuit.
pub proof fn law_verifier_param_sources(k: VerifyingKey, info: CircuitInfo, composed: Composition)
    ensures
        VerifierParam::of(k, info, composed).num_vars == k.num_vars,
        VerifierParam::of(k, info, composed).preprocess_comms == k.preprocess_comms,
        VerifierParam::of(k, info, composed).permutation_comms == k.permutation_comms,
        VerifierParam::of(k, info, composed).num_instances == info.num_instances.model(),
        VerifierParam::of(k, info, composed).num_witness_polys == info.num_witness_polys.model(),
        VerifierParam::of(k, info, composed).num_challenges == info.num_challenges.model(),
        VerifierParam::of(k, info, composed).num_lookups == info.lookups.len(),
        VerifierParam::of(k, info, composed).num_permutation_z_polys
            == composed.num_permutation_z_polys,
        VerifierParam::of(k, info, composed).expression == composed.expression@,
{
}

/// What a verifier needs of a circuit, with the parameters of the commitment scheme.
pub struct HyperPlonkVerifierParam<Pcs> {
    pub pcs: Pcs,
    pub num_instances: Vec<usize>,
    pub num_witness_polys: Vec<usize>,
    pub num_challenges: Vec<usize>,
    pub num_lookups: usize,
    pub num_permutation_z_polys: usize,
    pub num_vars: usize,
    pub expression: Expression,
    pub preprocess_comms: Vec<G1Affine>,
    pub permutation_comms: Vec<(usize, G1Affine)>,
}

impl<Pcs> View for HyperPlonkVerifierParam<Pcs> {
    type V = VerifierParam;

    open spec fn view(&self) -> VerifierParam {
        VerifierParam {
            num_instances: self.num_instances.model(),
            num_witness_polys: self.num_witness_polys.model(),
            num_challenges: self.num_challenges.model(),
            num_lookups: self.num_lookups as int,
            num_permutation_z_polys: self.num_permutation_z_polys as int,
            num_vars: self.num_vars as int,
            expression: self.expression@,
            preprocess_comms: self.preprocess_comms.model(),
            permutation_comms: self.permutation_comms.model(),
        }
    }
}

impl<Pcs> HyperPlonkVerifierParam<Pcs> {
    /// The verifying key of the parameters.
    pub fn to_vk(&self) -> (r: HyperPlonkVerifyingKey)
        ensures
            r@ == self@.verifying_key(),
            r.num_vars == self.num_vars,
            r.preprocess_comms@ == self.preprocess_comms@,
            r.permutation_comms@ == self.permutation_comms@,
            r.num_instances@ == self.num_instances@,
            r.num_witness_polys@ == self.num_witness_polys@,
            r.num_challenges@ == self.num_challenges@,
            r.num_permutation_z_polys == self.num_permutation_z_polys,
            r.expression@ == self.expression@,
    {
        HyperPlonkVerifyingKey {
            num_vars: self.num_vars,
            preprocess_comms: copied_points(&self.preprocess_comms),
            permutation_comms: copied_indexed_points(&self.permutation_comms),
            num_instances: copied_numbers(&self.num_instances),
            num_witness_polys: copied_numbers(&self.num_witness_polys),
            num_challenges: copied_numbers(&self.num_challenges),
            num_permutation_z_polys: self.num_permutation_z_polys,
            expression: self.expression.clone(),
        }
    }

    /// Appends the bytes of the verifying key.
    pub fn write(&self, writer: &mut Vec<u8>)
        ensures
            final(writer)@ == old(writer)@ + self@.verifying_key().encode(),
    {
        self.to_vk().write(writer)
    }

    /// The parameters for a key and a circuit. Of the key only the number of variables and
    /// the commitments are used.
    pub fn new(
        vk: HyperPlonkVerifyingKey,
        info: CircuitInfo,
        composed: Composition,
        pcs: Pcs,
    ) -> (r: HyperPlonkVerifierParam<Pcs>)
        ensures
            r@ == VerifierParam::of(vk@, info, composed),
            r.pcs == pcs,
            r.num_vars == vk.num_vars,
            r.preprocess_comms@ == vk.preprocess_comms@,
            r.permutation_comms@ == vk.permutation_comms@,
            r.num_instances@ == info.num_instances@,
            r.num_witness_polys@ == info.num_witness_polys@,
            r.num_challenges@ == info.num_challenges@,
            r.num_lookups == info.lookups.len(),
            r.num_permutation_z_polys == composed.num_permutation_z_polys,
            r.expression@ == composed.expression@,
    {
        HyperPlonkVerifierParam {
            pcs,
            num_instances: info.num_instances,
            num_witness_polys: info.num_witness_polys,
            num_challenges: info.num_challenges,
            num_lookups: info.lookups.len(),
            num_permutation_z_polys: composed.num_permutation_z_polys,
            num_vars: vk.num_vars,
            expression: composed.expression,
            preprocess_comms: vk.preprocess_comms,
            permutation_comms: vk.permutation_comms,
        }
    }

    /// Reads a verifying key and generates the rest again from the circuit, which is asked
    /// for what it says of itself with as many variables as the key has.
    pub fn read<
        E,
        Circuit: FnOnce(usize) -> Result<(CircuitInfo, Composition), E>,
        D: Fn(Vec<u8>) -> Option<Vec<u8>>,
    >(
        reader: &mut ByteReader,
        decode: &D,
        circuit: Circuit,
        pcs: Pcs,
    ) -> (r: Result<HyperPlonkVerifierParam<Pcs>, VerifierParamError<E>>)
        requires
            wire::goes_by_bytes(*decode),
            forall|n: usize| #[trigger] call_requires(circuit, (n,)),
        ensures
                match <HyperPlonkVerifyingKey as Wire>::parse(wire::decoding(*decode), old(reader)@) {
                Err((e, rest)) => {
                    &&& r == Err::<HyperPlonkVerifierParam<Pcs>, VerifierParamError<E>>(
                        VerifierParamError::Key(e),
                    )
                    &&& final(reader)@ == rest
                },
                Ok((k, rest)) => {
                    &&& final(reader)@ == rest
                    &&& exists|n: usize, answer: Result<(CircuitInfo, Composition), E>|
                        n == k.num_vars && #[trigger] call_ensures(circuit, (n,), answer)
                            && match answer {
                            Err(e) => r == Err::<
                                HyperPlonkVerifierParam<Pcs>,
                                VerifierParamError<E>,
                            >(VerifierParamError::Circuit(e)),
                            Ok((info, composed)) => {
                                &&& r matches Ok(p)
                                &&& p@ == VerifierParam::of(k, info, composed)
                                &&& p.pcs == pcs
                            },
                        }
                },
            },
    {
        let vk = match HyperPlonkVerifyingKey::read(reader, decode) {
            Err(e) => {
                return Err(VerifierParamError::Key(e));
            },
            Ok(k) => k,
        };
        let ghost n = vk.num_vars;
        match circuit(vk.num_vars) {
            Err(e) => Err(VerifierParamError::Circuit(e)),
            Ok((info, composed)) => Ok(HyperPlonkVerifierParam::new(vk, info, composed, pcs)),
        }
    }

    /// The bytes of the verifying key.
    pub fn to_bytes(&self) -> (r: Vec<u8>)
        ensures
            r@ == self@.verifying_key().encode(),
    {
        self.to_vk().to_bytes()
    }
}

} // verus!
