//! The byte format of the parts that keys are made of.
#[allow(unused_imports)]
use crate::poly::multilinear;
use crate::poly::multilinear::MultilinearPolynomial;
#[allow(unused_imports)]
use crate::util::bytes;
#[allow(unused_imports)]
use crate::util::curve;
use crate::util::curve::G1Affine;
#[allow(unused_imports)]
use crate::util::field;
use crate::util::field::Scalar;
#[allow(unused_imports)]
use crate::util::zp;
#[allow(unused_imports)]
use vstd::arithmetic::power::*;
use vstd::prelude::*;

verus! {

/// Why bytes could not be read.
#[derive(Clone, Copy, Debug, PartialEq, Eq, Structural)]
pub enum ReadError {
    /// The bytes end too early.
    UnexpectedEof,
    /// The bytes are no encoding of what was asked for.
    InvalidData,
}

/// What becomes of the bytes of an expression: the bytes of its value, or nothing if they
/// are no expression.
pub type Decoding = spec_fn(Seq<u8>) -> Option<Seq<u8>>;

/// All bytes are expressions, and stand for themselves.
pub open spec fn exact() -> Decoding {
    |b: Seq<u8>| Some(b)
}

/// `decode` makes `e` of `v`, which holds `b`.
pub open spec fn gives<D: Fn(Vec<u8>) -> Option<Vec<u8>>>(
    decode: D,
    b: Seq<u8>,
    v: Vec<u8>,
    e: Vec<u8>,
) -> bool {
    v@ == b && call_ensures(decode, (v,), Some(e))
}

/// What `decode` makes of bytes.
pub open spec fn decoding<D: Fn(Vec<u8>) -> Option<Vec<u8>>>(decode: D) -> Decoding {
    |b: Seq<u8>|
        if exists|v: Vec<u8>, e: Vec<u8>| gives(decode, b, v, e) {
            let (_, e) = choose|v: Vec<u8>, e: Vec<u8>| gives(decode, b, v, e);
            Some(e@)
        } else {
            None
        }
}

/// Both are nothing, or hold the same bytes.
pub open spec fn same_answer(a: Option<Vec<u8>>, b: Option<Vec<u8>>) -> bool {
    match (a, b) {
        (Some(x), Some(y)) => x@ == y@,
        (None, None) => true,
        _ => false,
    }
}

/// `decode` may be asked about any bytes, and always answers the same about the same bytes.
pub open spec fn goes_by_bytes<D: Fn(Vec<u8>) -> Option<Vec<u8>>>(decode: D) -> bool {
    &&& forall|v: Vec<u8>| #[trigger] call_requires(decode, (v,))
    &&& forall|v: Vec<u8>, w: Vec<u8>, a: Option<Vec<u8>>, b: Option<Vec<u8>>|
        #![trigger call_ensures(decode, (v,), a), call_ensures(decode, (w,), b)]
        v@ == w@ && call_ensures(decode, (v,), a) && call_ensures(decode, (w,), b)
            ==> same_answer(a, b)
}

/// What `decode` makes of bytes.
pub(crate) fn decode_with<D: Fn(Vec<u8>) -> Option<Vec<u8>>>(decode: &D, bytes: Vec<u8>) -> (r:
    Option<Vec<u8>>)
    requires
        goes_by_bytes(*decode),
    ensures
        match decoding(*decode)(bytes@) {
            Some(e) => r matches Some(v) && v@ == e,
            None => r is None,
        },
{
    let ghost asked = bytes;
    let r = decode(bytes);
    proof {
        let b = asked@;
        if r is Some {
            assert(gives(*decode, b, asked, r->Some_0));
        }
        if exists|v: Vec<u8>, e: Vec<u8>| gives(*decode, b, v, e) {
            let (v, e) = choose|v: Vec<u8>, e: Vec<u8>| gives(*decode, b, v, e);
            assert(gives(*decode, b, v, e));
            assert(same_answer(r, Some(e)));
        }
    }
    r
}

/// Bytes that are read from the front. A read that runs out of bytes takes all that are
/// left.
pub struct ByteReader {
    data: Vec<u8>,
    pos: usize,
}

impl View for ByteReader {
    type V = Seq<u8>;

    /// The bytes that are still to be read.
    closed spec fn view(&self) -> Seq<u8> {
        self.data@.skip(self.pos as int)
    }
}

impl ByteReader {
    #[verifier::type_invariant]
    spec fn in_bounds(self) -> bool {
        self.pos <= self.data@.len()
    }

    pub fn new(data: Vec<u8>) -> (r: ByteReader)
        ensures
            r@ == data@,
    {
        assert(data@.skip(0) =~= data@);
        ByteReader { data, pos: 0 }
    }

    /// The next `n` bytes.
    pub fn read_exact(&mut self, n: usize) -> (r: Result<Vec<u8>, ReadError>)
        ensures
            match r {
                Ok(v) => {
                    &&& n <= old(self)@.len()
                    &&& v@ == old(self)@.take(n as int)
                    &&& final(self)@ == old(self)@.skip(n as int)
                },
                Err(e) => {
                    &&& old(self)@.len() < n
                    &&& e == ReadError::UnexpectedEof
                    &&& final(self)@ == Seq::<u8>::empty()
                },
            },
    {
        proof {
            use_type_invariant(&*self);
        }
        let ghost before = self@;
        let len: usize = self.data.len();
        if len - self.pos < n {
            self.pos = len;
            assert(self@ =~= Seq::<u8>::empty());
            return Err(ReadError::UnexpectedEof);
        }
        let from: usize = self.pos;
        let mut out: Vec<u8> = Vec::new();
        for i in 0..n
            invariant
                before == self.data@.skip(from as int),
                from + n <= self.data.len(),
                out@ == before.take(i as int),
        {
            out.push(self.data[from + i]);
            assert(before.take(i + 1) =~= before.take(i as int).push(before[i as int]));
        }
        self.pos = from + n;
        assert(self@ =~= before.skip(n as int));
        Ok(out)
    }

    /// A look at all bytes that are still to be read.
    pub fn rest(&self) -> (r: &[u8])
        ensures
            r@ == self@,
    {
        proof {
            use_type_invariant(self);
        }
        vstd::slice::slice_subrange(self.data.as_slice(), self.pos, self.data.len())
    }

    /// All bytes that are still to be read.
    pub fn into_rest(self) -> (r: Vec<u8>)
        ensures
            r@ == self@,
    {
        proof {
            use_type_invariant(&self);
        }
        let mut out: Vec<u8> = Vec::new();
        for i in self.pos..self.data.len()
            invariant
                self.pos <= i <= self.data@.len(),
                out@ == self.data@.subrange(self.pos as int, i as int),
        {
            out.push(self.data[i]);
            assert(self.data@.subrange(self.pos as int, i + 1) =~= self.data@.subrange(
                self.pos as int,
                i as int,
            ).push(self.data@[i as int]));
        }
        assert(out@ =~= self@);
        out
    }
}

/// What is read from bytes, or why nothing is, each with the bytes that are left.
pub type Parsed<M> = Result<(M, Seq<u8>), (ReadError, Seq<u8>)>;

/// `rest` is the end of `s`.
pub open spec fn ends_with(s: Seq<u8>, rest: Seq<u8>) -> bool {
    rest.len() <= s.len() && rest == s.skip(s.len() - rest.len())
}

/// What is left is the end of what was there, and is nothing if the bytes ran out.
pub open spec fn leaves_the_end<M>(s: Seq<u8>, p: Parsed<M>) -> bool {
    match p {
        Ok((_, rest)) => ends_with(s, rest),
        Err((ReadError::UnexpectedEof, rest)) => rest.len() == 0,
        Err((ReadError::InvalidData, rest)) => ends_with(s, rest),
    }
}

proof fn lemma_skip_ends(s: Seq<u8>, n: int)
    requires
        0 <= n <= s.len(),
    ensures
        ends_with(s, s.skip(n)),
{
}

pub proof fn lemma_ends_trans<M>(s: Seq<u8>, t: Seq<u8>, p: Parsed<M>)
    requires
        ends_with(s, t),
        leaves_the_end(t, p),
    ensures
        leaves_the_end(s, p),
{
    match p {
        Ok((_, rest)) => {
            assert(rest =~= s.skip(s.len() - rest.len()));
        },
        Err((_, rest)) => {
            assert(rest.len() <= t.len() ==> rest.len() <= s.len());
            if ends_with(t, rest) {
                assert(rest =~= s.skip(s.len() - rest.len()));
            }
        },
    }
}

/// A value with a byte format. The format is stated over the value's model, and depends on
/// how expressions are decoded.
pub trait Wire: Sized {
    type Model;

    spec fn model(&self) -> Self::Model;

    /// The bytes that are written.
    spec fn encode(m: Self::Model) -> Seq<u8>;

    /// What is read from bytes.
    spec fn parse(d: Decoding, s: Seq<u8>) -> Parsed<Self::Model>;

    /// The values that are read back as they were written.
    spec fn encodable(d: Decoding, m: Self::Model) -> bool;

    /// What was written is read back.
    proof fn law_read_back(d: Decoding, m: Self::Model, rest: Seq<u8>)
        requires
            Self::encodable(d, m),
        ensures
            Self::parse(d, Self::encode(m) + rest) == Parsed::<Self::Model>::Ok((m, rest)),
    ;

    /// But for what decoding makes of expressions, only what could have been written is read.
    proof fn law_canonical(s: Seq<u8>)
        ensures
            Self::parse(exact(), s) matches Ok((m, rest)) ==> Self::encodable(exact(), m) && s
                == Self::encode(m) + rest,
    ;

    /// A read, failed or not, leaves the end of the bytes that were there.
    proof fn law_rest(d: Decoding, s: Seq<u8>)
        ensures
            leaves_the_end(s, Self::parse(d, s)),
    ;

    fn put(&self, writer: &mut Vec<u8>)
        ensures
            final(writer)@ == old(writer)@ + Self::encode(self.model()),
    ;

    fn take<D: Fn(Vec<u8>) -> Option<Vec<u8>>>(reader: &mut ByteReader, decode: &D) -> (r: Result<
        Self,
        ReadError,
    >)
        requires
            goes_by_bytes(*decode),
        ensures
            match Self::parse(decoding(*decode), old(reader)@) {
                Ok((m, rest)) => r matches Ok(v) && v.model() == m && final(reader)@ == rest,
                Err((e, rest)) => r matches Err(f) && f == e && final(reader)@ == rest,
            },
    ;
}

/// The number in the first four bytes, least significant first.
pub open spec fn parse_u32(s: Seq<u8>) -> Parsed<int> {
    if s.len() < 4 {
        Err((ReadError::UnexpectedEof, Seq::empty()))
    } else {
        Ok((bytes::le_nat(s.take(4)), s.skip(4)))
    }
}

proof fn lemma_pow256_4()
    ensures
        pow(256, 4) == 0x1_0000_0000,
{
    reveal(pow);
    reveal_with_fuel(pow, 5);
}

proof fn lemma_u32_read_back(v: int, rest: Seq<u8>)
    requires
        0 <= v < 0x1_0000_0000,
    ensures
        parse_u32(bytes::le_bytes(v, 4) + rest) == Parsed::<int>::Ok((v, rest)),
{
    lemma_pow256_4();
    bytes::lemma_le_nat_of_bytes(v, 4);
    let b = bytes::le_bytes(v, 4);
    assert((b + rest).take(4) =~= b);
    assert((b + rest).skip(4) =~= rest);
}

proof fn lemma_u32_canonical(s: Seq<u8>)
    ensures
        parse_u32(s) matches Ok((v, rest)) ==> 0 <= v < 0x1_0000_0000 && s == bytes::le_bytes(v, 4)
            + rest,
{
    if s.len() >= 4 {
        lemma_pow256_4();
        bytes::lemma_le_nat_bound(s.take(4));
        bytes::lemma_le_bytes_of_nat(s.take(4));
        assert(s =~= s.take(4) + s.skip(4));
    }
}

/// Four bytes as digits.
pub proof fn lemma_four_bytes(v: int)
    ensures
        bytes::le_bytes(v, 4) == seq![
            (v % 256) as u8,
            (v / 256 % 256) as u8,
            (v / 65536 % 256) as u8,
            (v / 16777216 % 256) as u8,
        ],
{
    reveal_with_fuel(bytes::le_bytes, 5);
    let (v1, v2) = (v / 256, v / 256 / 256);
    assert(v2 == v / 65536 && v2 / 256 == v / 16777216);
    assert(bytes::le_bytes(v, 4) =~= seq![
        (v % 256) as u8,
        (v1 % 256) as u8,
        (v2 % 256) as u8,
        (v2 / 256 % 256) as u8,
    ]);
}

/// What four bytes hold of a number.
pub open spec fn low_word(v: int) -> int {
    v % 0x1_0000_0000
}

/// What four bytes hold of each number.
pub open spec fn low_words(m: Seq<int>) -> Seq<int> {
    Seq::new(m.len(), |i: int| low_word(m[i]))
}

/// A number has the bytes of its low word.
pub proof fn lemma_low_word(v: int)
    ensures
        0 <= low_word(v) < 0x1_0000_0000,
        bytes::le_bytes(low_word(v), 4) == bytes::le_bytes(v, 4),
{
    let (w, q) = (low_word(v), v / 0x1_0000_0000);
    lemma_pow256_4();
    bytes::lemma_le_bytes_low(w, q, 4);
    assert(v == w + 0x1_0000_0000 * q);
}

proof fn lemma_all_low_words(m: Seq<int>)
    ensures
        encode_all::<usize>(low_words(m)) == encode_all::<usize>(m),
    decreases m.len(),
{
    if m.len() > 0 {
        lemma_all_low_words(m.drop_last());
        lemma_low_word(m.last());
        assert(low_words(m).drop_last() =~= low_words(m.drop_last()));
    }
}

/// The low words of a list of numbers are read back.
pub proof fn lemma_low_words_read_back(d: Decoding, m: Seq<int>, rest: Seq<u8>)
    requires
        m.len() < 0x1_0000_0000,
    ensures
        <Vec<usize> as Wire>::parse(d, <Vec<usize> as Wire>::encode(m) + rest) == Parsed::<
            Seq<int>,
        >::Ok((low_words(m), rest)),
{
    lemma_all_low_words(m);
    assert forall|i: int| 0 <= i < m.len() implies <usize as Wire>::encodable(
        d,
        #[trigger] low_words(m)[i],
    ) by {
        lemma_low_word(m[i]);
    }
    <Vec<usize> as Wire>::law_read_back(d, low_words(m), rest);
}

/// The digits of a four-byte number.
pub proof fn lemma_four_digits(s: Seq<u8>)
    requires
        s.len() == 4,
    ensures
        bytes::le_nat(s) == s[0] + 256 * s[1] + 65536 * s[2] + 16777216 * s[3],
{
    reveal_with_fuel(bytes::le_nat, 5);
    let (s1, s2, s3) = (s.skip(1), s.skip(1).skip(1), s.skip(1).skip(1).skip(1));
    assert(s1[0] == s[1] && s2[0] == s[2] && s3[0] == s[3]);
    assert(s3.skip(1).len() == 0);
}

/// The low 32 bits of a length or an index, least significant byte first.
pub(crate) fn put_u32(v: usize, writer: &mut Vec<u8>)
    ensures
        final(writer)@ == old(writer)@ + bytes::le_bytes(v as int, 4),
{
    let ghost before = writer@;
    proof {
        lemma_four_bytes(v as int);
    }
    writer.push((v % 256) as u8);
    writer.push((v / 256 % 256) as u8);
    writer.push((v / 65536 % 256) as u8);
    writer.push((v / 16777216 % 256) as u8);
    assert(writer@ =~= before + bytes::le_bytes(v as int, 4));
}

/// The number in the next four bytes, least significant first.
pub(crate) fn take_u32(reader: &mut ByteReader) -> (r: Result<usize, ReadError>)
    ensures
        match parse_u32(old(reader)@) {
            Ok((v, rest)) => r matches Ok(n) && n == v && final(reader)@ == rest,
            Err((e, rest)) => r == Err::<usize, ReadError>(e) && final(reader)@ == rest,
        },
{
    let ghost before = reader@;
    let b = match reader.read_exact(4) {
        Err(e) => {
            return Err(e);
        },
        Ok(b) => b,
    };
    proof {
        lemma_four_digits(b@);
    }
    Ok(
        b[0] as usize + 256 * (b[1] as usize) + 65536 * (b[2] as usize) + 16777216 * (
        b[3] as usize),
    )
}

/// A length or an index takes four bytes; higher bits are dropped.
impl Wire for usize {
    type Model = int;

    open spec fn model(&self) -> int {
        *self as int
    }

    open spec fn encode(m: int) -> Seq<u8> {
        bytes::le_bytes(m, 4)
    }

    open spec fn parse(d: Decoding, s: Seq<u8>) -> Parsed<int> {
        parse_u32(s)
    }

    open spec fn encodable(d: Decoding, m: int) -> bool {
        0 <= m < 0x1_0000_0000
    }

    proof fn law_read_back(d: Decoding, m: int, rest: Seq<u8>) {
        lemma_u32_read_back(m, rest);
    }

    proof fn law_canonical(s: Seq<u8>) {
        lemma_u32_canonical(s);
    }

    proof fn law_rest(d: Decoding, s: Seq<u8>) {
        if s.len() >= 4 {
            lemma_skip_ends(s, 4);
        }
    }

    fn put(&self, writer: &mut Vec<u8>) {
        put_u32(*self, writer)
    }

    fn take<D: Fn(Vec<u8>) -> Option<Vec<u8>>>(reader: &mut ByteReader, decode: &D) -> (r: Result<
        usize,
        ReadError,
    >) {
        take_u32(reader)
    }
}

/// A pair is its two parts in order.
impl<A: Wire, B: Wire> Wire for (A, B) {
    type Model = (A::Model, B::Model);

    open spec fn model(&self) -> (A::Model, B::Model) {
        (self.0.model(), self.1.model())
    }

    open spec fn encode(m: (A::Model, B::Model)) -> Seq<u8> {
        A::encode(m.0) + B::encode(m.1)
    }

    open spec fn parse(d: Decoding, s: Seq<u8>) -> Parsed<(A::Model, B::Model)> {
        match A::parse(d, s) {
            Err(e) => Err(e),
            Ok((a, s1)) => match B::parse(d, s1) {
                Err(e) => Err(e),
                Ok((b, s2)) => Ok(((a, b), s2)),
            },
        }
    }

    open spec fn encodable(d: Decoding, m: (A::Model, B::Model)) -> bool {
        A::encodable(d, m.0) && B::encodable(d, m.1)
    }

    proof fn law_read_back(d: Decoding, m: (A::Model, B::Model), rest: Seq<u8>) {
        let (a, b) = (A::encode(m.0), B::encode(m.1));
        assert(a + b + rest =~= a + (b + rest));
        A::law_read_back(d, m.0, b + rest);
        B::law_read_back(d, m.1, rest);
    }

    proof fn law_canonical(s: Seq<u8>) {
        A::law_canonical(s);
        if let Ok((a, s1)) = A::parse(exact(), s) {
            B::law_canonical(s1);
            if let Ok((b, s2)) = B::parse(exact(), s1) {
                assert(s =~= A::encode(a) + B::encode(b) + s2);
            }
        }
    }

    proof fn law_rest(d: Decoding, s: Seq<u8>) {
        A::law_rest(d, s);
        if let Ok((_, s1)) = A::parse(d, s) {
            B::law_rest(d, s1);
            lemma_ends_trans(s, s1, B::parse(d, s1));
        }
    }

    fn put(&self, writer: &mut Vec<u8>) {
        let ghost before = writer@;
        self.0.put(writer);
        self.1.put(writer);
        assert(writer@ =~= before + Self::encode(self.model()));
    }

    fn take<D: Fn(Vec<u8>) -> Option<Vec<u8>>>(reader: &mut ByteReader, decode: &D) -> (r: Result<
        (A, B),
        ReadError,
    >) {
        match A::take(reader, decode) {
            Err(e) => Err(e),
            Ok(a) => match B::take(reader, decode) {
                Err(e) => Err(e),
                Ok(b) => Ok((a, b)),
            },
        }
    }
}

/// The models of several values.
pub open spec fn models<T: Wire>(s: Seq<T>) -> Seq<T::Model> {
    Seq::new(s.len(), |i: int| s[i].model())
}

/// The bytes of several values, one after the other.
pub open spec fn encode_all<T: Wire>(m: Seq<T::Model>) -> Seq<u8>
    decreases m.len(),
{
    if m.len() == 0 {
        Seq::empty()
    } else {
        encode_all::<T>(m.drop_last()) + T::encode(m.last())
    }
}

/// What is read as `n` values, one after the other.
pub open spec fn parse_all<T: Wire>(d: Decoding, n: nat, s: Seq<u8>) -> Parsed<Seq<T::Model>>
    decreases n,
{
    if n == 0 {
        Ok((Seq::empty(), s))
    } else {
        match parse_all::<T>(d, (n - 1) as nat, s) {
            Err(e) => Err(e),
            Ok((ms, s1)) => match T::parse(d, s1) {
                Err(e) => Err(e),
                Ok((m, s2)) => Ok((ms.push(m), s2)),
            },
        }
    }
}

proof fn lemma_all_read_back<T: Wire>(d: Decoding, m: Seq<T::Model>, rest: Seq<u8>)
    requires
        forall|i: int| 0 <= i < m.len() ==> T::encodable(d, #[trigger] m[i]),
    ensures
        parse_all::<T>(d, m.len(), encode_all::<T>(m) + rest) == Parsed::<Seq<T::Model>>::Ok(
            (m, rest),
        ),
    decreases m.len(),
{
    if m.len() == 0 {
        assert(encode_all::<T>(m) + rest =~= rest);
        assert(m =~= Seq::empty());
    } else {
        let (init, last) = (m.drop_last(), m.last());
        let (a, b) = (encode_all::<T>(init), T::encode(last));
        assert(a + b + rest =~= a + (b + rest));
        assert(T::encodable(d, m[m.len() - 1]));
        assert forall|i: int| 0 <= i < init.len() implies T::encodable(d, #[trigger] init[i]) by {
            assert(T::encodable(d, m[i]));
        }
        lemma_all_read_back::<T>(d, init, b + rest);
        T::law_read_back(d, last, rest);
        assert(init.push(last) =~= m);
    }
}

proof fn lemma_all_canonical<T: Wire>(n: nat, s: Seq<u8>)
    ensures
        parse_all::<T>(exact(), n, s) matches Ok((m, rest)) ==> {
            &&& m.len() == n
            &&& forall|i: int| 0 <= i < m.len() ==> T::encodable(exact(), #[trigger] m[i])
            &&& s == encode_all::<T>(m) + rest
        },
    decreases n,
{
    if n == 0 {
        assert(s =~= encode_all::<T>(Seq::empty()) + s);
    } else {
        lemma_all_canonical::<T>((n - 1) as nat, s);
        if let Ok((ms, s1)) = parse_all::<T>(exact(), (n - 1) as nat, s) {
            T::law_canonical(s1);
            if let Ok((m, s2)) = T::parse(exact(), s1) {
                let all = ms.push(m);
                assert(all.drop_last() =~= ms);
                assert(s =~= encode_all::<T>(ms) + T::encode(m) + s2);
                assert forall|i: int| 0 <= i < all.len() implies T::encodable(
                    exact(),
                    #[trigger] all[i],
                ) by {
                    if i < ms.len() {
                        assert(all[i] == ms[i]);
                    }
                }
            }
        }
    }
}

proof fn lemma_all_error<T: Wire>(d: Decoding, i: nat, n: nat, s: Seq<u8>)
    requires
        i <= n,
        parse_all::<T>(d, i, s) is Err,
    ensures
        parse_all::<T>(d, n, s) is Err,
        parse_all::<T>(d, n, s)->Err_0 == parse_all::<T>(d, i, s)->Err_0,
    decreases n - i,
{
    if i < n {
        lemma_all_error::<T>(d, i + 1, n, s);
    }
}

proof fn lemma_all_rest<T: Wire>(d: Decoding, n: nat, s: Seq<u8>)
    ensures
        leaves_the_end(s, parse_all::<T>(d, n, s)),
    decreases n,
{
    if n == 0 {
        assert(s.skip(0) =~= s);
    } else {
        lemma_all_rest::<T>(d, (n - 1) as nat, s);
        if let Ok((_, s1)) = parse_all::<T>(d, (n - 1) as nat, s) {
            T::law_rest(d, s1);
            lemma_ends_trans(s, s1, T::parse(d, s1));
        }
    }
}

/// A list is the number of its items, in four bytes, and the items.
proof fn lemma_all_bytes<T: Wire>(m: Seq<T::Model>, i: int, size: nat)
    requires
        0 <= i < m.len(),
        forall|j: int| 0 <= j < m.len() ==> T::encode(#[trigger] m[j]).len() == size,
    ensures
        encode_all::<T>(m).len() == m.len() * size,
        0 <= i * size,
        (i + 1) * size <= m.len() * size,
        encode_all::<T>(m).subrange(i * size, (i + 1) * size) == T::encode(m[i]),
    decreases m.len(),
{
    let n = m.len() - 1;
    let init = m.drop_last();
    let (a, b) = (encode_all::<T>(init), T::encode(m.last()));
    assert(T::encode(m[n]).len() == size);
    assert((n + 1) * size == n * size + size) by (nonlinear_arith);
    assert((i + 1) * size == i * size + size) by (nonlinear_arith);
    assert(0 <= i * size <= n * size) by (nonlinear_arith)
        requires
            0 <= i <= n,
            0 <= size,
    ;
    if n > 0 {
        assert forall|j: int| 0 <= j < init.len() implies T::encode(#[trigger] init[j]).len()
            == size by {
            assert(T::encode(m[j]).len() == size);
        }
        let k = if i < n {
            i
        } else {
            0
        };
        lemma_all_bytes::<T>(init, k, size);
        if i < n {
            assert((a + b).subrange(i * size, (i + 1) * size) =~= a.subrange(
                i * size,
                (i + 1) * size,
            ));
        } else {
            assert((a + b).subrange(n * size, (n + 1) * size) =~= b);
        }
    } else {
        assert(a.len() == 0);
        assert(0 * size == 0) by (nonlinear_arith);
        assert((a + b).subrange(0, size as int) =~= b);
    }
}

/// The bytes of a list are those of its length, least significant first, and then those of its
/// entries in order: where all entries have `size` bytes, those of entry `i` start behind the
/// first four and those of the entries before it.
pub proof fn law_list_bytes<T: Wire>(m: Seq<T::Model>, i: int, size: nat)
    requires
        0 <= i < m.len(),
        forall|j: int| 0 <= j < m.len() ==> T::encode(#[trigger] m[j]).len() == size,
    ensures
        <Vec<T> as Wire>::encode(m).len() == 4 + m.len() * size,
        <Vec<T> as Wire>::encode(m).take(4) == bytes::le_bytes(m.len() as int, 4),
        <Vec<T> as Wire>::encode(m).subrange(4 + i * size, 4 + (i + 1) * size) == T::encode(m[i]),
{
    let (a, b) = (bytes::le_bytes(m.len() as int, 4), encode_all::<T>(m));
    bytes::lemma_le_bytes_len(m.len() as int, 4);
    lemma_all_bytes::<T>(m, i, size);
    assert((a + b).take(4) =~= a);
    assert((i + 1) * size == i * size + size) by (nonlinear_arith);
    assert((a + b).subrange(4 + i * size, 4 + (i + 1) * size) =~= b.subrange(
        i * size,
        (i + 1) * size,
    ));
}

/// The bytes of single values: a number has four, least significant first; a field element and
/// the two coordinates of a point are stored as their products with `2^256` modulo the order of
/// their field, in 32 bytes each; of a pair, the first value is first; and a polynomial is the
/// list of its values on the cube.
pub proof fn law_value_bytes(n: int, p: (int, int), v: int, q: Seq<int>)
    ensures
        <usize as Wire>::encode(n) == bytes::le_bytes(n, 4),
        <Scalar as Wire>::encode(v) == bytes::le_bytes(field::montgomery(v), 32),
        <G1Affine as Wire>::encode(p) == bytes::le_bytes(curve::montgomery(p.0), 32)
            + bytes::le_bytes(curve::montgomery(p.1), 32),
        <(usize, G1Affine) as Wire>::encode((n, p)) == bytes::le_bytes(n, 4)
            + <G1Affine as Wire>::encode(p),
        <MultilinearPolynomial as Wire>::encode(q) == <Vec<Scalar> as Wire>::encode(q),
{
}

impl<T: Wire> Wire for Vec<T> {
    type Model = Seq<T::Model>;

    open spec fn model(&self) -> Seq<T::Model> {
        models(self@)
    }

    open spec fn encode(m: Seq<T::Model>) -> Seq<u8> {
        bytes::le_bytes(m.len() as int, 4) + encode_all::<T>(m)
    }

    open spec fn parse(d: Decoding, s: Seq<u8>) -> Parsed<Seq<T::Model>> {
        match parse_u32(s) {
            Err(e) => Err(e),
            Ok((n, rest)) => parse_all::<T>(d, n as nat, rest),
        }
    }

    open spec fn encodable(d: Decoding, m: Seq<T::Model>) -> bool {
        &&& m.len() < 0x1_0000_0000
        &&& forall|i: int| 0 <= i < m.len() ==> T::encodable(d, #[trigger] m[i])
    }

    proof fn law_read_back(d: Decoding, m: Seq<T::Model>, rest: Seq<u8>) {
        let (a, b) = (bytes::le_bytes(m.len() as int, 4), encode_all::<T>(m));
        assert(a + b + rest =~= a + (b + rest));
        lemma_u32_read_back(m.len() as int, b + rest);
        lemma_all_read_back::<T>(d, m, rest);
    }

    proof fn law_canonical(s: Seq<u8>) {
        lemma_u32_canonical(s);
        if let Ok((n, s1)) = parse_u32(s) {
            lemma_all_canonical::<T>(n as nat, s1);
            if let Ok((m, s2)) = parse_all::<T>(exact(), n as nat, s1) {
                assert(s =~= bytes::le_bytes(n, 4) + encode_all::<T>(m) + s2);
            }
        }
    }

    proof fn law_rest(d: Decoding, s: Seq<u8>) {
        if let Ok((n, s1)) = parse_u32(s) {
            lemma_skip_ends(s, 4);
            lemma_all_rest::<T>(d, n as nat, s1);
            lemma_ends_trans(s, s1, parse_all::<T>(d, n as nat, s1));
        }
    }

    fn put(&self, writer: &mut Vec<u8>) {
        let ghost before = writer@;
        let ghost m = self.model();
        put_u32(self.len(), writer);
        let ghost start = writer@;
        assert(m.take(0) =~= Seq::empty());
        assert(writer@ =~= start + encode_all::<T>(m.take(0)));
        for i in 0..self.len()
            invariant
                m == self.model(),
                writer@ == start + encode_all::<T>(m.take(i as int)),
        {
            self[i].put(writer);
            proof {
                assert(m.take(i + 1).drop_last() =~= m.take(i as int));
                assert(m.take(i + 1).last() == self@[i as int].model());
                assert(writer@ =~= start + encode_all::<T>(m.take(i + 1)));
            }
        }
        assert(m.take(self.len() as int) =~= m);
        assert(writer@ =~= before + Self::encode(m));
    }

    fn take<D: Fn(Vec<u8>) -> Option<Vec<u8>>>(reader: &mut ByteReader, decode: &D) -> (r: Result<
        Vec<T>,
        ReadError,
    >) {
        let ghost before = reader@;
        let ghost d = decoding(*decode);
        let n = match take_u32(reader) {
            Err(e) => {
                return Err(e);
            },
            Ok(n) => n,
        };
        let ghost s = reader@;
        let mut out: Vec<T> = Vec::new();
        assert(models(out@) =~= Seq::empty());
        for i in 0..n
            invariant
                parse_u32(before) == Parsed::<int>::Ok((n as int, s)),
                before == old(reader)@,
                d == decoding(*decode),
                goes_by_bytes(*decode),
                out.len() == i,
                parse_all::<T>(d, i as nat, s) == Parsed::<Seq<T::Model>>::Ok(
                    (models(out@), reader@),
                ),
        {
            let ghost done = models(out@);
            match T::take(reader, decode) {
                Err(e) => {
                    proof {
                        lemma_all_error::<T>(d, (i + 1) as nat, n as nat, s);
                    }
                    return Err(e);
                },
                Ok(v) => {
                    out.push(v);
                    assert(models(out@) =~= done.push(v.model()));
                },
            }
        }
        Ok(out)
    }
}

/// A scalar takes 32 bytes.
impl Wire for Scalar {
    type Model = int;

    open spec fn model(&self) -> int {
        self@
    }

    open spec fn encode(m: int) -> Seq<u8> {
        field::raw_scalar(m)
    }

    open spec fn parse(d: Decoding, s: Seq<u8>) -> Parsed<int> {
        if s.len() < 32 {
            Err((ReadError::UnexpectedEof, Seq::empty()))
        } else if bytes::le_nat(s.take(32)) >= zp::modulus() {
            Err((ReadError::InvalidData, s.skip(32)))
        } else {
            Ok((field::from_montgomery(bytes::le_nat(s.take(32))), s.skip(32)))
        }
    }

    open spec fn encodable(d: Decoding, m: int) -> bool {
        0 <= m < zp::modulus()
    }

    proof fn law_read_back(d: Decoding, m: int, rest: Seq<u8>) {
        let b = field::raw_scalar(m);
        field::lemma_montgomery(m);
        bytes::lemma_pow256_32();
        assert(field::montgomery(m) < pow(256, 32)) by {
            reveal(zp::modulus);
        }
        bytes::lemma_le_nat_of_bytes(field::montgomery(m), 32);
        assert((b + rest).take(32) =~= b);
        assert((b + rest).skip(32) =~= rest);
    }

    proof fn law_canonical(s: Seq<u8>) {
        if s.len() >= 32 {
            let v = bytes::le_nat(s.take(32));
            bytes::lemma_le_nat_bound(s.take(32));
            bytes::lemma_le_bytes_of_nat(s.take(32));
            if v < zp::modulus() {
                field::lemma_from_montgomery(v);
            }
            assert(s =~= s.take(32) + s.skip(32));
        }
    }

    proof fn law_rest(d: Decoding, s: Seq<u8>) {
        if s.len() >= 32 {
            lemma_skip_ends(s, 32);
        }
    }

    fn put(&self, writer: &mut Vec<u8>) {
        self.write_raw(writer)
    }

    fn take<D: Fn(Vec<u8>) -> Option<Vec<u8>>>(reader: &mut ByteReader, decode: &D) -> (r: Result<
        Scalar,
        ReadError,
    >) {
        let b = match reader.read_exact(32) {
            Err(e) => {
                return Err(e);
            },
            Ok(b) => b,
        };
        let mut raw: [u8; 32] = [0u8; 32];
        for i in 0..32
            invariant
                b.len() == 32,
                forall|j: int| 0 <= j < i ==> raw@[j] == b@[j],
        {
            raw[i] = b[i];
        }
        assert(raw@ =~= b@);
        match Scalar::read_raw(raw) {
            None => Err(ReadError::InvalidData),
            Some(v) => {
                proof {
                    field::lemma_scalar_range(v);
                    field::lemma_montgomery(v@);
                }
                Ok(v)
            },
        }
    }
}

/// A point takes 64 bytes. It need not be on the curve.
impl Wire for G1Affine {
    type Model = (int, int);

    open spec fn model(&self) -> (int, int) {
        self@
    }

    open spec fn encode(m: (int, int)) -> Seq<u8> {
        curve::raw_point(m)
    }

    open spec fn parse(d: Decoding, s: Seq<u8>) -> Parsed<(int, int)> {
        match curve::raw_point_error(s) {
            Some(e) => Err((e, curve::after_bad_point(s))),
            None => Ok(
                (
                    (
                        curve::from_montgomery(bytes::le_nat(s.take(32))),
                        curve::from_montgomery(bytes::le_nat(s.subrange(32, 64))),
                    ),
                    s.skip(64),
                ),
            ),
        }
    }

    open spec fn encodable(d: Decoding, m: (int, int)) -> bool {
        0 <= m.0 < curve::base_modulus() && 0 <= m.1 < curve::base_modulus()
    }

    proof fn law_read_back(d: Decoding, m: (int, int), rest: Seq<u8>) {
        let (mx, my) = (curve::montgomery(m.0), curve::montgomery(m.1));
        let (x, y) = (bytes::le_bytes(mx, 32), bytes::le_bytes(my, 32));
        curve::lemma_montgomery(m.0);
        curve::lemma_montgomery(m.1);
        bytes::lemma_pow256_32();
        assert(curve::base_modulus() < pow(256, 32)) by {
            reveal(curve::base_modulus);
        }
        bytes::lemma_le_nat_of_bytes(mx, 32);
        bytes::lemma_le_nat_of_bytes(my, 32);
        let s = x + y + rest;
        assert(s.take(32) =~= x);
        assert(s.subrange(32, 64) =~= y);
        assert(s.skip(64) =~= rest);
    }

    proof fn law_canonical(s: Seq<u8>) {
        if curve::raw_point_error(s) is None {
            let (x, y) = (s.take(32), s.subrange(32, 64));
            bytes::lemma_le_nat_bound(x);
            bytes::lemma_le_nat_bound(y);
            bytes::lemma_le_bytes_of_nat(x);
            bytes::lemma_le_bytes_of_nat(y);
            curve::lemma_from_montgomery(bytes::le_nat(x));
            curve::lemma_from_montgomery(bytes::le_nat(y));
            assert(s =~= x + y + s.skip(64));
        }
    }

    proof fn law_rest(d: Decoding, s: Seq<u8>) {
        if s.len() >= 32 {
            lemma_skip_ends(s, 32);
        }
        if s.len() >= 64 {
            lemma_skip_ends(s, 64);
        }
    }

    fn put(&self, writer: &mut Vec<u8>) {
        self.write_raw(writer)
    }

    fn take<D: Fn(Vec<u8>) -> Option<Vec<u8>>>(reader: &mut ByteReader, decode: &D) -> (r: Result<
        G1Affine,
        ReadError,
    >) {
        let len: usize = reader.rest().len();
        let (r, left) = G1Affine::read_raw(reader.rest());
        proof {
            if let Ok(p) = r {
                curve::lemma_coordinate_range(p.x);
                curve::lemma_coordinate_range(p.y);
                curve::lemma_montgomery(p@.0);
                curve::lemma_montgomery(p@.1);
            }
        }
        let taken: usize = match r {
            Err(ReadError::UnexpectedEof) => len,
            _ => len - left,
        };
        let ghost before = reader@;
        match reader.read_exact(taken) {
            Err(e) => Err(e),
            Ok(_) => {
                assert(before.skip(before.len() as int) =~= Seq::<u8>::empty());
                r
            },
        }
    }
}

/// A polynomial is the list of its values, whose number must be that of a table.
impl Wire for MultilinearPolynomial {
    type Model = Seq<int>;

    open spec fn model(&self) -> Seq<int> {
        self@
    }

    open spec fn encode(m: Seq<int>) -> Seq<u8> {
        <Vec<Scalar> as Wire>::encode(m)
    }

    open spec fn parse(d: Decoding, s: Seq<u8>) -> Parsed<Seq<int>> {
        match <Vec<Scalar> as Wire>::parse(d, s) {
            Err(e) => Err(e),
            Ok((m, rest)) => if multilinear::table_len(m.len()) {
                Ok((m, rest))
            } else {
                Err((ReadError::InvalidData, rest))
            },
        }
    }

    open spec fn encodable(d: Decoding, m: Seq<int>) -> bool {
        <Vec<Scalar> as Wire>::encodable(d, m) && multilinear::table_len(m.len())
    }

    proof fn law_read_back(d: Decoding, m: Seq<int>, rest: Seq<u8>) {
        <Vec<Scalar> as Wire>::law_read_back(d, m, rest);
    }

    proof fn law_canonical(s: Seq<u8>) {
        <Vec<Scalar> as Wire>::law_canonical(s);
    }

    proof fn law_rest(d: Decoding, s: Seq<u8>) {
        <Vec<Scalar> as Wire>::law_rest(d, s);
    }

    fn put(&self, writer: &mut Vec<u8>) {
        let evals = self.evals();
        assert(models(evals@) =~= field::values(evals@));
        evals.put(writer)
    }

    fn take<D: Fn(Vec<u8>) -> Option<Vec<u8>>>(reader: &mut ByteReader, decode: &D) -> (r: Result<
        MultilinearPolynomial,
        ReadError,
    >) {
        let evals: Vec<Scalar> = match Wire::take(reader, decode) {
            Err(e) => {
                return Err(e);
            },
            Ok(v) => v,
        };
        assert(models(evals@) =~= field::values(evals@));
        match MultilinearPolynomial::new(evals) {
            None => Err(ReadError::InvalidData),
            Some(p) => Ok(p),
        }
    }
}

} // verus!
