//! The Fiat-Shamir transcript: prover and verifier absorb the same messages and so draw
//! the same challenges.
use crate::error::Error;
#[allow(unused_imports)]
use crate::util::bytes;
#[allow(unused_imports)]
use crate::util::curve;
use crate::util::curve::{Coordinate, G1Affine};
use crate::util::field::Scalar;
#[allow(unused_imports)]
use crate::util::zp;
use sha3::{Digest, Keccak256};
use vstd::prelude::*;

verus! {

/// The Keccak-256 hash of a byte string.
pub uninterp spec fn keccak256_digest(data: Seq<u8>) -> Seq<u8>;

/// `Keccak256::digest` of `sha3`: a fixed function of the bytes.
#[verifier::external_body]
fn keccak256(data: &Vec<u8>) -> (r: [u8; 32])
    ensures
        r@ == keccak256_digest(data@),
{
    Keccak256::digest(data).into()
}

/// What a transcript holds: the bytes absorbed since the last challenge, and the proof,
/// which a prover has written so far or a verifier has still to read.
pub struct Transcript {
    pub absorbed: Seq<u8>,
    pub proof: Seq<u8>,
}

impl Transcript {
    /// The challenge that is drawn next.
    pub open spec fn challenge(self) -> int {
        zp::red(bytes::le_nat(keccak256_digest(self.absorbed)))
    }

    /// The transcript after drawing a challenge.
    pub open spec fn squeezed(self) -> Transcript {
        Transcript { absorbed: keccak256_digest(self.absorbed), proof: self.proof }
    }

    /// The transcript after writing a scalar.
    pub open spec fn with_scalar(self, v: int) -> Transcript {
        Transcript {
            absorbed: self.absorbed + bytes::le_bytes(v, 32),
            proof: self.proof + bytes::be_bytes(v, 32),
        }
    }

    /// The transcript after writing a point.
    pub open spec fn with_point(self, p: (int, int)) -> Transcript {
        Transcript {
            absorbed: self.absorbed + bytes::le_bytes(p.0, 32) + bytes::le_bytes(p.1, 32),
            proof: self.proof + bytes::be_bytes(p.0, 32) + bytes::be_bytes(p.1, 32),
        }
    }

    /// The proof so far is how the finished proof `all` starts.
    pub open spec fn written_in(self, all: Seq<u8>) -> bool {
        all == self.proof + all.skip(self.proof.len() as int)
    }

    /// Where a verifier of the finished proof `all` stands when a prover stood here.
    pub open spec fn reading(self, all: Seq<u8>) -> Transcript {
        Transcript { absorbed: self.absorbed, proof: all.skip(self.proof.len() as int) }
    }

    /// The number in the 32 bytes of the proof at `i`, most significant first.
    pub open spec fn number_at(self, i: int) -> int {
        bytes::le_nat(self.proof.subrange(i, i + 32).reverse())
    }

    /// The scalar that is read next, with the transcript after it, if there is one.
    pub open spec fn read_scalar(self) -> Result<(int, Transcript), Error> {
        if self.proof.len() < 32 {
            Err(Error::TruncatedProof)
        } else if self.number_at(0) >= zp::modulus() {
            Err(Error::InvalidFieldElement)
        } else {
            let v = self.number_at(0);
            Ok(
                (
                    v,
                    Transcript {
                        absorbed: self.absorbed + bytes::le_bytes(v, 32),
                        proof: self.proof.skip(32),
                    },
                ),
            )
        }
    }

    /// The point that is read next, with the transcript after it, if there is one.
    pub open spec fn read_point(self) -> Result<((int, int), Transcript), Error> {
        let p = (self.number_at(0), self.number_at(32));
        if self.proof.len() < 64 {
            Err(Error::TruncatedProof)
        } else if p.0 >= curve::base_modulus() || p.1 >= curve::base_modulus() {
            Err(Error::InvalidFieldElement)
        } else if !curve::on_curve(p) {
            Err(Error::InvalidPoint)
        } else {
            Ok(
                (
                    p,
                    Transcript {
                        absorbed: self.absorbed + bytes::le_bytes(p.0, 32) + bytes::le_bytes(
                            p.1,
                            32,
                        ),
                        proof: self.proof.skip(64),
                    },
                ),
            )
        }
    }
}

proof fn lemma_number_written(v: int, rest: Seq<u8>, a: Seq<u8>, before: Seq<u8>)
    requires
        0 <= v < zp::modulus() || 0 <= v < curve::base_modulus(),
    ensures
        (Transcript { absorbed: a, proof: before + bytes::be_bytes(v, 32) + rest }).number_at(
            before.len() as int,
        ) == v,
        bytes::be_bytes(v, 32).len() == 32,
{
    bytes::lemma_pow256_32();
    assert(v < vstd::arithmetic::power::pow(256, 32)) by {
        reveal(zp::modulus);
        reveal(curve::base_modulus);
    }
    bytes::lemma_le_nat_of_bytes(v, 32);
    let b = bytes::be_bytes(v, 32);
    let n = before.len() as int;
    assert((before + b + rest).subrange(n, n + 32) =~= b);
    assert(b.reverse() =~= bytes::le_bytes(v, 32));
}

/// A verifier who stands where a prover stood reads the scalar that the prover wrote
/// next, and then stands where the prover stood after it. `all` is the finished proof.
pub proof fn law_scalar_read_back(t: Transcript, v: int, all: Seq<u8>)
    requires
        0 <= v < zp::modulus(),
        t.with_scalar(v).written_in(all),
    ensures
        t.written_in(all),
        t.reading(all).read_scalar() == Ok::<(int, Transcript), Error>(
            (v, t.with_scalar(v).reading(all)),
        ),
{
    let b = bytes::be_bytes(v, 32);
    let (e, n) = (Seq::<u8>::empty(), t.proof.len() as int);
    lemma_number_written(v, all.skip(n + 32), t.absorbed, e);
    assert(all == t.proof + b + all.skip(n + 32));
    assert(all.skip(n) =~= e + b + all.skip(n + 32));
    assert(all.skip(n).skip(32) =~= all.skip(n + 32));
    assert(all == t.proof + all.skip(n));
}

/// A verifier who stands where a prover stood reads the point that the prover wrote next,
/// and then stands where the prover stood after it. `all` is the finished proof.
pub proof fn law_point_read_back(t: Transcript, p: (int, int), all: Seq<u8>)
    requires
        curve::valid(p),
        t.with_point(p).written_in(all),
    ensures
        t.written_in(all),
        t.reading(all).read_point() == Ok::<((int, int), Transcript), Error>(
            (p, t.with_point(p).reading(all)),
        ),
{
    let (x, y) = (bytes::be_bytes(p.0, 32), bytes::be_bytes(p.1, 32));
    let (e, n) = (Seq::<u8>::empty(), t.proof.len() as int);
    let rest = all.skip(n + 64);
    lemma_number_written(p.0, y + rest, t.absorbed, e);
    lemma_number_written(p.1, rest, t.absorbed, e + x);
    assert(all == t.proof + x + y + rest);
    assert(all.skip(n) =~= e + x + (y + rest));
    assert(all.skip(n) =~= e + x + y + rest);
    assert(all.skip(n).skip(64) =~= rest);
    assert(all == t.proof + all.skip(n));
}

proof fn lemma_word_bytes(v: int)
    requires
        0 <= v < zp::modulus() || 0 <= v < curve::base_modulus(),
    ensures
        bytes::le_bytes(v, 32).len() == 32,
        bytes::le_nat(bytes::le_bytes(v, 32)) == v,
{
    bytes::lemma_pow256_32();
    assert(v < vstd::arithmetic::power::pow(256, 32)) by {
        reveal(zp::modulus);
        reveal(curve::base_modulus);
    }
    bytes::lemma_le_nat_of_bytes(v, 32);
}

/// Challenges depend on scalars that were written: from one state, two scalars leave the same
/// bytes to be hashed only if they are the same. They are hashed behind all that was there.
pub proof fn law_scalar_absorbed(t: Transcript, v: int, w: int)
    requires
        0 <= v < zp::modulus(),
        0 <= w < zp::modulus(),
        t.with_scalar(v).absorbed == t.with_scalar(w).absorbed,
    ensures
        v == w,
        t.with_scalar(v).absorbed.len() == t.absorbed.len() + 32,
        t.with_scalar(v).absorbed.take(t.absorbed.len() as int) == t.absorbed,
{
    lemma_word_bytes(v);
    lemma_word_bytes(w);
    let n = t.absorbed.len() as int;
    assert(t.with_scalar(v).absorbed.skip(n) =~= bytes::le_bytes(v, 32));
    assert(t.with_scalar(w).absorbed.skip(n) =~= bytes::le_bytes(w, 32));
    assert(t.with_scalar(v).absorbed.take(n) =~= t.absorbed);
}

/// Challenges depend on points that were written: from one state, two points leave the same
/// bytes to be hashed only if they are the same. They are hashed behind all that was there.
pub proof fn law_point_absorbed(t: Transcript, p: (int, int), q: (int, int))
    requires
        curve::valid(p),
        curve::valid(q),
        t.with_point(p).absorbed == t.with_point(q).absorbed,
    ensures
        p == q,
        t.with_point(p).absorbed.len() == t.absorbed.len() + 64,
        t.with_point(p).absorbed.take(t.absorbed.len() as int) == t.absorbed,
{
    lemma_word_bytes(p.0);
    lemma_word_bytes(p.1);
    lemma_word_bytes(q.0);
    lemma_word_bytes(q.1);
    let n = t.absorbed.len() as int;
    let (a, b) = (t.with_point(p).absorbed, t.with_point(q).absorbed);
    assert(a.subrange(n, n + 32) =~= bytes::le_bytes(p.0, 32));
    assert(b.subrange(n, n + 32) =~= bytes::le_bytes(q.0, 32));
    assert(a.skip(n + 32) =~= bytes::le_bytes(p.1, 32));
    assert(b.skip(n + 32) =~= bytes::le_bytes(q.1, 32));
    assert(a.take(n) =~= t.absorbed);
}

/// What is read is hashed as what was written, from the same state.
pub proof fn law_read_absorbed(t: Transcript, w: Transcript)
    requires
        t.absorbed == w.absorbed,
    ensures
        t.read_scalar() matches Ok((v, after)) ==> after.absorbed == w.with_scalar(v).absorbed
            && 0 <= v < zp::modulus(),
        t.read_point() matches Ok((p, after)) ==> after.absorbed == w.with_point(p).absorbed
            && curve::valid(p),
{
    if t.proof.len() >= 32 {
        bytes::lemma_le_nat_bound(t.proof.subrange(0, 32).reverse());
    }
    if t.proof.len() >= 64 {
        bytes::lemma_le_nat_bound(t.proof.subrange(32, 64).reverse());
    }
}

/// A challenge is the hash of all bytes since the last one, which it starts from, as a number
/// modulo the field order.
pub proof fn law_challenge(t: Transcript)
    ensures
        t.challenge() == zp::red(bytes::le_nat(keccak256_digest(t.absorbed))),
        t.squeezed().absorbed == keccak256_digest(t.absorbed),
        t.squeezed().proof == t.proof,
{
}

/// A proof holds each scalar and point most significant byte first, in the order of writing.
pub proof fn law_proof_bytes(t: Transcript, v: int, p: (int, int))
    ensures
        t.with_scalar(v).proof == t.proof + bytes::le_bytes(v, 32).reverse(),
        t.with_point(p).proof == t.proof + bytes::le_bytes(p.0, 32).reverse() + bytes::le_bytes(
            p.1,
            32,
        ).reverse(),
{
}

/// The first 32 bytes at `from`, in reverse order.
fn reversed_word(data: &Vec<u8>, from: usize) -> (r: [u8; 32])
    requires
        from + 32 <= data.len(),
    ensures
        r@ == data@.subrange(from as int, from + 32).reverse(),
{
    let mut r: [u8; 32] = [0u8; 32];
    for i in 0..32
        invariant
            from + 32 <= data.len(),
            forall|j: int| 0 <= j < i ==> r@[j] == data@[from + 31 - j],
    {
        r[i] = data[from + 31 - i];
    }
    assert(r@ =~= data@.subrange(from as int, from + 32).reverse());
    r
}

fn append(out: &mut Vec<u8>, word: &[u8; 32])
    ensures
        final(out)@ == old(out)@ + word@,
{
    let ghost before = out@;
    for i in 0..32
        invariant
            out@ == before + word@.take(i as int),
    {
        out.push(word[i]);
        assert(before + word@.take(i + 1) =~= (before + word@.take(i as int)).push(
            word@[i as int],
        ));
    }
    assert(word@.take(32) =~= word@);
}

fn append_reversed(out: &mut Vec<u8>, word: &[u8; 32])
    ensures
        final(out)@ == old(out)@ + word@.reverse(),
{
    let ghost before = out@;
    let ghost back = word@.reverse();
    for i in 0..32
        invariant
            back == word@.reverse(),
            out@ == before + back.take(i as int),
    {
        out.push(word[31 - i]);
        assert(before + back.take(i + 1) =~= (before + back.take(i as int)).push(back[i as int]));
    }
    assert(back.take(32) =~= back);
}

/// Draws a challenge from the absorbed bytes.
fn squeeze(absorbed: &mut Vec<u8>) -> (c: Scalar)
    ensures
        c@ == zp::red(bytes::le_nat(keccak256_digest(old(absorbed)@))),
        final(absorbed)@ == keccak256_digest(old(absorbed)@),
{
    let hash = keccak256(absorbed);
    let mut wide: [u8; 64] = [0u8; 64];
    for i in 0..32
        invariant
            forall|j: int| 0 <= j < i ==> wide@[j] == hash@[j],
            forall|j: int| i <= j < 64 ==> wide@[j] == 0,
    {
        wide[i] = hash[i];
    }
    proof {
        assert(wide@ =~= hash@ + Seq::new(32, |i: int| 0u8));
        bytes::lemma_le_nat_padded(hash@, 32);
    }
    let mut next: Vec<u8> = Vec::new();
    append(&mut next, &hash);
    assert(next@ =~= hash@);
    *absorbed = next;
    Scalar::from_uniform_bytes(&wide)
}

/// The prover's side of a transcript, hashing with Keccak-256.
pub struct ProofWriter {
    absorbed: Vec<u8>,
    proof: Vec<u8>,
}

impl View for ProofWriter {
    type V = Transcript;

    closed spec fn view(&self) -> Transcript {
        Transcript { absorbed: self.absorbed@, proof: self.proof@ }
    }
}

impl ProofWriter {
    pub fn new() -> (r: ProofWriter)
        ensures
            r@ == (Transcript { absorbed: Seq::empty(), proof: Seq::empty() }),
    {
        ProofWriter { absorbed: Vec::new(), proof: Vec::new() }
    }

    pub fn squeeze_challenge(&mut self) -> (c: Scalar)
        ensures
            c@ == old(self)@.challenge(),
            final(self)@ == old(self)@.squeezed(),
    {
        squeeze(&mut self.absorbed)
    }

    pub fn write_field_element(&mut self, v: &Scalar)
        ensures
            final(self)@ == old(self)@.with_scalar(v@),
    {
        let repr = v.to_repr();
        append(&mut self.absorbed, &repr);
        append_reversed(&mut self.proof, &repr);
    }

    pub fn write_commitment(&mut self, p: &G1Affine)
        ensures
            final(self)@ == old(self)@.with_point(p@),
    {
        let x = p.x.to_repr();
        let y = p.y.to_repr();
        append(&mut self.absorbed, &x);
        append(&mut self.absorbed, &y);
        append_reversed(&mut self.proof, &x);
        append_reversed(&mut self.proof, &y);
    }

    pub fn into_proof(self) -> (r: Vec<u8>)
        ensures
            r@ == self@.proof,
    {
        self.proof
    }
}

/// The verifier's side of a transcript, hashing with Keccak-256.
pub struct ProofReader {
    absorbed: Vec<u8>,
    proof: Vec<u8>,
    pos: usize,
}

impl View for ProofReader {
    type V = Transcript;

    closed spec fn view(&self) -> Transcript {
        Transcript { absorbed: self.absorbed@, proof: self.proof@.skip(self.pos as int) }
    }
}

impl ProofReader {
    #[verifier::type_invariant]
    spec fn in_bounds(self) -> bool {
        self.pos <= self.proof@.len()
    }

    pub fn from_proof(proof: Vec<u8>) -> (r: ProofReader)
        ensures
            r@ == (Transcript { absorbed: Seq::empty(), proof: proof@ }),
    {
        assert(proof@.skip(0) =~= proof@);
        ProofReader { absorbed: Vec::new(), proof, pos: 0 }
    }

    pub fn squeeze_challenge(&mut self) -> (c: Scalar)
        ensures
            c@ == old(self)@.challenge(),
            final(self)@ == old(self)@.squeezed(),
    {
        proof {
            use_type_invariant(&*self);
        }
        let mut absorbed: Vec<u8> = Vec::new();
        std::mem::swap(&mut absorbed, &mut self.absorbed);
        let c = squeeze(&mut absorbed);
        self.absorbed = absorbed;
        c
    }

    pub fn read_field_element(&mut self) -> (r: Result<Scalar, Error>)
        ensures
            match old(self)@.read_scalar() {
                Ok((v, after)) => r matches Ok(s) && s@ == v && final(self)@ == after,
                Err(e) => r == Err::<Scalar, Error>(e) && final(self)@ == old(self)@,
            },
    {
        proof {
            use_type_invariant(&*self);
        }
        let ghost before = self@;
        if self.proof.len() - self.pos < 32 {
            return Err(Error::TruncatedProof);
        }
        let repr = reversed_word(&self.proof, self.pos);
        proof {
            assert(self.proof@.subrange(self.pos as int, self.pos + 32)
                =~= before.proof.subrange(0, 32));
        }
        match Scalar::from_repr(repr) {
            None => Err(Error::InvalidFieldElement),
            Some(v) => {
                proof {
                    bytes::lemma_le_bytes_of_nat(repr@);
                    assert(before.proof.skip(32) =~= self.proof@.skip(self.pos + 32));
                }
                let mut absorbed: Vec<u8> = Vec::new();
                std::mem::swap(&mut absorbed, &mut self.absorbed);
                append(&mut absorbed, &repr);
                self.absorbed = absorbed;
                self.pos = self.pos + 32;
                Ok(v)
            },
        }
    }

    pub fn read_commitment(&mut self) -> (r: Result<G1Affine, Error>)
        ensures
            match old(self)@.read_point() {
                Ok((p, after)) => r matches Ok(c) && c@ == p && final(self)@ == after,
                Err(e) => r == Err::<G1Affine, Error>(e) && final(self)@ == old(self)@,
            },
    {
        proof {
            use_type_invariant(&*self);
        }
        let ghost before = self@;
        if self.proof.len() - self.pos < 64 {
            return Err(Error::TruncatedProof);
        }
        let rx = reversed_word(&self.proof, self.pos);
        let ry = reversed_word(&self.proof, self.pos + 32);
        proof {
            assert(self.proof@.subrange(self.pos as int, self.pos + 32)
                =~= before.proof.subrange(0, 32));
            assert(self.proof@.subrange(self.pos + 32, self.pos + 64)
                =~= before.proof.subrange(32, 64));
        }
        match (Coordinate::from_repr(rx), Coordinate::from_repr(ry)) {
            (Some(x), Some(y)) => match G1Affine::from_xy(x, y) {
                None => Err(Error::InvalidPoint),
                Some(p) => {
                    proof {
                        bytes::lemma_le_bytes_of_nat(rx@);
                        bytes::lemma_le_bytes_of_nat(ry@);
                        assert(before.proof.skip(64) =~= self.proof@.skip(self.pos + 64));
                    }
                    let mut absorbed: Vec<u8> = Vec::new();
                    std::mem::swap(&mut absorbed, &mut self.absorbed);
                    append(&mut absorbed, &rx);
                    append(&mut absorbed, &ry);
                    self.absorbed = absorbed;
                    self.pos = self.pos + 64;
                    Ok(p)
                },
            },
            _ => Err(Error::InvalidFieldElement),
        }
    }
}

} // verus!
