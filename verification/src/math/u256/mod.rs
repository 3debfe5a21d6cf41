//! 256-bit unsigned integers stored as 32 big-endian bytes.

use vstd::prelude::*;

pub mod arith;
pub mod bitlen;
pub mod bits;
pub mod conv;
pub mod order;
pub mod random;
pub mod shift;
pub mod text;
pub mod value;

use value::{
    be_value, lemma_be_value_bound, lemma_be_value_injective, lemma_be_value_ones,
    lemma_be_value_zero, lemma_nat_bytes, modulus, nat_bytes,
};

verus! {

/// A 256-bit unsigned integer; byte 0 is the most significant.
#[derive(Copy, Clone, Debug)]
pub struct U256(pub [u8; 32]);

impl View for U256 {
    type V = Seq<u8>;

    /// The thirty-two bytes, most significant first.
    open spec fn view(&self) -> Seq<u8> {
        self.0@
    }
}

/// An array whose first `n` bytes are those of `bytes`.
pub open spec fn array_of(bytes: Seq<u8>, n: nat) -> [u8; 32]
    decreases n,
{
    if n == 0 {
        arbitrary()
    } else {
        vstd::array::spec_array_update(array_of(bytes, (n - 1) as nat), n - 1, bytes[n - 1])
    }
}

/// `array_of` holds the first `n` bytes given.
pub proof fn lemma_array_of(bytes: Seq<u8>, n: nat)
    requires
        n <= 32,
    ensures
        forall|i: int| 0 <= i < n ==> array_of(bytes, n)@[i] == bytes[i],
    decreases n,
{
    if n > 0 {
        lemma_array_of(bytes, (n - 1) as nat);
    }
}

impl U256 {
    /// The value whose bytes are the thirty-two given.
    pub open spec fn of_bytes(bytes: Seq<u8>) -> U256 {
        U256(array_of(bytes, 32))
    }

    /// `of_bytes` is the inverse of the view.
    pub proof fn lemma_of_bytes(bytes: Seq<u8>)
        requires
            bytes.len() == 32,
        ensures
            U256::of_bytes(bytes)@ == bytes,
    {
        lemma_array_of(bytes, 32);
        assert(U256::of_bytes(bytes)@ =~= bytes);
    }

    /// Values with the same bytes are the same value.
    pub proof fn lemma_view_injective(a: U256, b: U256)
        requires
            a@ == b@,
        ensures
            a == b,
    {
        assert(a.0 =~= b.0);
    }

    /// The number this value stands for.
    pub open spec fn to_nat(self) -> nat {
        be_value(self@, 32)
    }

    /// The value that stands for `v` modulo 2^256.
    pub open spec fn of_nat(v: nat) -> U256 {
        U256::of_bytes(nat_bytes(v))
    }

    /// `of_nat` reduces modulo 2^256 and is the inverse of `to_nat`.
    pub proof fn lemma_of_nat(v: nat)
        ensures
            U256::of_nat(v).to_nat() == v % modulus(),
    {
        lemma_nat_bytes(v);
        U256::lemma_of_bytes(nat_bytes(v));
    }

    /// Every value stands for a number below 2^256.
    pub proof fn lemma_to_nat_bound(a: U256)
        ensures
            a.to_nat() < modulus(),
    {
        lemma_be_value_bound(a@, 32);
    }

    /// Values that stand for the same number are the same value.
    pub proof fn lemma_to_nat_injective(a: U256, b: U256)
        requires
            a.to_nat() == b.to_nat(),
        ensures
            a == b,
    {
        lemma_be_value_injective(a@, b@, 32);
        assert(a.0 =~= b.0);
    }

    /// Zero: every byte is 0.
    pub fn zero() -> (out: U256)
        ensures
            forall|i: int| 0 <= i < 32 ==> out@[i] == 0,
            out.to_nat() == 0,
    {
        let out = U256([0u8; 32]);
        proof {
            lemma_be_value_zero(out@, 32);
        }
        out
    }

    /// The largest value: every byte is 255.
    pub fn max_value() -> (out: U256)
        ensures
            forall|i: int| 0 <= i < 32 ==> out@[i] == 255,
            out.to_nat() == modulus() - 1,
    {
        let out = U256([255u8; 32]);
        proof {
            lemma_be_value_ones(out@, 32);
        }
        out
    }
}

impl Default for U256 {
    /// Zero.
    fn default() -> (out: U256)
        ensures
            out.to_nat() == 0,
    {
        U256::zero()
    }
}

} // verus!
