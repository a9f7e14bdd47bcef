//! Little-endian byte strings as numbers.
#[allow(unused_imports)]
use vstd::arithmetic::div_mod::*;
#[allow(unused_imports)]
use vstd::arithmetic::mul::*;
#[allow(unused_imports)]
use vstd::arithmetic::power::*;
use vstd::prelude::*;

verus! {

/// The number whose base-256 digits are `s`, least significant first.
pub open spec fn le_nat(s: Seq<u8>) -> int
    decreases s.len(),
{
    if s.len() == 0 {
        0
    } else {
        s[0] + 256 * le_nat(s.skip(1))
    }
}

/// The `n` lowest base-256 digits of `v`, least significant first.
pub open spec fn le_bytes(v: int, n: nat) -> Seq<u8>
    decreases n,
{
    if n == 0 {
        Seq::empty()
    } else {
        seq![(v % 256) as u8] + le_bytes(v / 256, (n - 1) as nat)
    }
}

/// The `n` lowest base-256 digits of `v`, most significant first.
pub open spec fn be_bytes(v: int, n: nat) -> Seq<u8> {
    le_bytes(v, n).reverse()
}

pub proof fn lemma_le_bytes_len(v: int, n: nat)
    ensures
        le_bytes(v, n).len() == n,
    decreases n,
{
    if n > 0 {
        lemma_le_bytes_len(v / 256, (n - 1) as nat);
    }
}

/// Digits determine the number they were taken from.
pub proof fn lemma_le_nat_of_bytes(v: int, n: nat)
    requires
        0 <= v < pow(256, n),
    ensures
        le_nat(le_bytes(v, n)) == v,
        le_bytes(v, n).len() == n,
    decreases n,
{
    reveal(pow);
    if n > 0 {
        let m = (n - 1) as nat;
        assert(v / 256 < pow(256, m)) by {
            assert(v < 256 * pow(256, m));
        }
        lemma_le_nat_of_bytes(v / 256, m);
        assert(le_bytes(v, n).skip(1) =~= le_bytes(v / 256, m));
    }
}

/// Higher digits do not matter to the lowest ones.
pub proof fn lemma_le_bytes_low(v: int, q: int, n: nat)
    ensures
        le_bytes(v + pow(256, n) * q, n) == le_bytes(v, n),
    decreases n,
{
    reveal(pow);
    if n > 0 {
        let m = (n - 1) as nat;
        let x = pow(256, m) * q;
        assert(pow(256, n) * q == 256 * x) by {
            lemma_mul_is_associative(256, pow(256, m), q);
        }
        assert((v + 256 * x) % 256 == v % 256);
        assert((v + 256 * x) / 256 == v / 256 + x);
        lemma_le_bytes_low(v / 256, q, m);
    }
}

pub proof fn lemma_le_nat_bound(s: Seq<u8>)
    ensures
        0 <= le_nat(s) < pow(256, s.len()),
    decreases s.len(),
{
    reveal(pow);
    if s.len() > 0 {
        lemma_le_nat_bound(s.skip(1));
    }
}

/// A digit string is the digits of its number.
pub proof fn lemma_le_bytes_of_nat(s: Seq<u8>)
    ensures
        le_bytes(le_nat(s), s.len()) == s,
    decreases s.len(),
{
    if s.len() > 0 {
        lemma_le_bytes_of_nat(s.skip(1));
        lemma_le_nat_bound(s.skip(1));
        let v = le_nat(s);
        assert(v % 256 == s[0] && v / 256 == le_nat(s.skip(1)));
        assert(le_bytes(v, s.len()) =~= s);
    } else {
        assert(le_bytes(le_nat(s), 0) =~= s);
    }
}

pub proof fn lemma_le_nat_zeros(n: nat)
    ensures
        le_nat(Seq::new(n, |i: int| 0u8)) == 0,
    decreases n,
{
    if n > 0 {
        lemma_le_nat_zeros((n - 1) as nat);
        assert(Seq::new(n, |i: int| 0u8).skip(1) =~= Seq::new((n - 1) as nat, |i: int| 0u8));
    }
}

/// Zero digits on top do not change the number.
pub proof fn lemma_le_nat_padded(s: Seq<u8>, n: nat)
    ensures
        le_nat(s + Seq::new(n, |i: int| 0u8)) == le_nat(s),
    decreases s.len(),
{
    let z = Seq::new(n, |i: int| 0u8);
    if s.len() == 0 {
        assert(s + z =~= z);
        lemma_le_nat_zeros(n);
    } else {
        lemma_le_nat_padded(s.skip(1), n);
        assert((s + z).skip(1) =~= s.skip(1) + z);
    }
}

pub proof fn lemma_pow256_32()
    ensures
        pow(256, 32)
            == 0x1_0000_0000_0000_0000_0000_0000_0000_0000_0000_0000_0000_0000_0000_0000_0000_0000int,
{
    reveal(pow);
    reveal_with_fuel(pow, 33);
}

} // verus!
