//! Bitwise operations on identifiers.

use super::U256;
use vstd::prelude::*;
use super::value::lemma_be_value_zero;
use vstd::std_specs::ops::{BitAndSpecImpl, BitOrSpecImpl, BitXorSpecImpl};

verus! {

/// Byte-wise exclusive or of two byte sequences of equal length.
pub open spec fn bytes_xor(a: Seq<u8>, b: Seq<u8>) -> Seq<u8> {
    Seq::new(a.len(), |i: int| a[i] ^ b[i])
}

/// Byte-wise conjunction of two byte sequences of equal length.
pub open spec fn bytes_and(a: Seq<u8>, b: Seq<u8>) -> Seq<u8> {
    Seq::new(a.len(), |i: int| a[i] & b[i])
}

/// Byte-wise disjunction of two byte sequences of equal length.
pub open spec fn bytes_or(a: Seq<u8>, b: Seq<u8>) -> Seq<u8> {
    Seq::new(a.len(), |i: int| a[i] | b[i])
}

impl U256 {
    /// Exclusive or as a value.
    pub open spec fn xor(self, rhs: U256) -> U256 {
        U256::of_bytes(bytes_xor(self@, rhs@))
    }

    /// Conjunction as a value.
    pub open spec fn and(self, rhs: U256) -> U256 {
        U256::of_bytes(bytes_and(self@, rhs@))
    }

    /// Disjunction as a value.
    pub open spec fn or(self, rhs: U256) -> U256 {
        U256::of_bytes(bytes_or(self@, rhs@))
    }
}

impl std::ops::BitXor<U256> for U256 {
    type Output = U256;

    /// Exclusive or, byte by byte: the Kademlia distance.
    fn bitxor(self, rhs: U256) -> (out: U256)
        ensures
            out@ == bytes_xor(self@, rhs@),
    {
        let mut out = [0u8; 32];
        let mut i: usize = 0;
        while i < 32
            invariant
                i <= 32,
                forall|j: int| 0 <= j < i ==> out[j] == self.0[j] ^ rhs.0[j],
            decreases 32 - i,
        {
            out[i] = self.0[i] ^ rhs.0[i];
            i += 1;
        }
        let out = U256(out);
        proof {
            assert(out@ =~= bytes_xor(self@, rhs@));
            U256::lemma_of_bytes(bytes_xor(self@, rhs@));
            U256::lemma_view_injective(out, U256::of_bytes(bytes_xor(self@, rhs@)));
        }
        out
    }
}

impl BitXorSpecImpl<U256> for U256 {
    open spec fn obeys_bitxor_spec() -> bool {
        true
    }

    open spec fn bitxor_req(self, rhs: U256) -> bool {
        true
    }

    open spec fn bitxor_spec(self, rhs: U256) -> U256 {
        self.xor(rhs)
    }
}

impl std::ops::BitAnd<U256> for U256 {
    type Output = U256;

    /// Conjunction, byte by byte.
    fn bitand(self, rhs: U256) -> (out: U256)
        ensures
            out@ == bytes_and(self@, rhs@),
    {
        let mut out = [0u8; 32];
        let mut i: usize = 0;
        while i < 32
            invariant
                i <= 32,
                forall|j: int| 0 <= j < i ==> out[j] == self.0[j] & rhs.0[j],
            decreases 32 - i,
        {
            out[i] = self.0[i] & rhs.0[i];
            i += 1;
        }
        let out = U256(out);
        proof {
            assert(out@ =~= bytes_and(self@, rhs@));
            U256::lemma_of_bytes(bytes_and(self@, rhs@));
            U256::lemma_view_injective(out, U256::of_bytes(bytes_and(self@, rhs@)));
        }
        out
    }
}

impl BitAndSpecImpl<U256> for U256 {
    open spec fn obeys_bitand_spec() -> bool {
        true
    }

    open spec fn bitand_req(self, rhs: U256) -> bool {
        true
    }

    open spec fn bitand_spec(self, rhs: U256) -> U256 {
        self.and(rhs)
    }
}

impl std::ops::BitOr<U256> for U256 {
    type Output = U256;

    /// Disjunction, byte by byte.
    fn bitor(self, rhs: U256) -> (out: U256)
        ensures
            out@ == bytes_or(self@, rhs@),
    {
        let mut out = [0u8; 32];
        let mut i: usize = 0;
        while i < 32
            invariant
                i <= 32,
                forall|j: int| 0 <= j < i ==> out[j] == self.0[j] | rhs.0[j],
            decreases 32 - i,
        {
            out[i] = self.0[i] | rhs.0[i];
            i += 1;
        }
        let out = U256(out);
        proof {
            assert(out@ =~= bytes_or(self@, rhs@));
            U256::lemma_of_bytes(bytes_or(self@, rhs@));
            U256::lemma_view_injective(out, U256::of_bytes(bytes_or(self@, rhs@)));
        }
        out
    }
}

impl BitOrSpecImpl<U256> for U256 {
    open spec fn obeys_bitor_spec() -> bool {
        true
    }

    open spec fn bitor_req(self, rhs: U256) -> bool {
        true
    }

    open spec fn bitor_spec(self, rhs: U256) -> U256 {
        self.or(rhs)
    }
}

/// Exclusive or does not depend on the order of its operands.
pub proof fn lemma_xor_commutes(a: U256, b: U256)
    ensures
        bytes_xor(a@, b@) == bytes_xor(b@, a@),
        a.xor(b) == b.xor(a),
{
    assert forall|i: int| 0 <= i < 32 implies a@[i] ^ b@[i] == b@[i] ^ a@[i] by {
        let x = a@[i];
        let y = b@[i];
        assert(x ^ y == y ^ x) by (bit_vector);
    }
    assert(bytes_xor(a@, b@) =~= bytes_xor(b@, a@));
}

/// A value is at distance zero from itself.
pub proof fn lemma_xor_self(a: U256)
    ensures
        forall|i: int| 0 <= i < 32 ==> bytes_xor(a@, a@)[i] == 0,
        a.xor(a).to_nat() == 0,
{
    assert forall|i: int| 0 <= i < 32 implies bytes_xor(a@, a@)[i] == 0 by {
        let x = a@[i];
        assert(x ^ x == 0) by (bit_vector);
    }
    U256::lemma_of_bytes(bytes_xor(a@, a@));
    lemma_be_value_zero(a.xor(a)@, 32);
}

/// Exclusive or with the same value twice gives the first operand back.
pub proof fn lemma_xor_cancels(a: U256, b: U256)
    ensures
        bytes_xor(bytes_xor(a@, b@), b@) == a@,
        a.xor(b).xor(b) == a,
{
    assert forall|i: int| 0 <= i < 32 implies (a@[i] ^ b@[i]) ^ b@[i] == a@[i] by {
        let x = a@[i];
        let y = b@[i];
        assert((x ^ y) ^ y == x) by (bit_vector);
    }
    assert(bytes_xor(bytes_xor(a@, b@), b@) =~= a@);
    U256::lemma_of_bytes(bytes_xor(a@, b@));
    U256::lemma_of_bytes(bytes_xor(bytes_xor(a@, b@), b@));
    U256::lemma_view_injective(a.xor(b).xor(b), a);
}

/// Two values are at distance zero exactly when they are the same value.
pub proof fn lemma_xor_zero_iff_equal(a: U256, b: U256)
    ensures
        a.xor(b).to_nat() == 0 <==> a == b,
{
    U256::lemma_of_bytes(bytes_xor(a@, b@));
    if a == b {
        lemma_xor_self(a);
    }
    if a.xor(b).to_nat() == 0 {
        let d = a.xor(b);
        let z = U256::of_bytes(Seq::new(32, |i: int| 0u8));
        U256::lemma_of_bytes(Seq::new(32, |i: int| 0u8));
        lemma_be_value_zero(z@, 32);
        U256::lemma_to_nat_injective(d, z);
        assert forall|i: int| 0 <= i < 32 implies a@[i] == b@[i] by {
            let x = a@[i];
            let y = b@[i];
            assert(d@[i] == x ^ y);
            assert(x ^ y == 0 ==> x == y) by (bit_vector);
        }
        assert(a@ =~= b@);
        U256::lemma_view_injective(a, b);
    }
}

} // verus!
