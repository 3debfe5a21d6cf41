//! Powers of two and the position of the highest set bit.

use super::value::{
    be_value, le_value, lemma_be_value_zero, lemma_le_value_bound, lemma_le_value_zero,
    lemma_pow256_positive, lemma_split, pow256,
};
use super::shift::lemma_pow256_is_pow2;
use super::U256;
use vstd::arithmetic::power2::{lemma2_to64, lemma_pow2_adds, lemma_pow2_pos, pow2};
use vstd::prelude::*;

verus! {

/// What `1 << r` is on a byte.
proof fn lemma_one_shl(r: u8)
    by (bit_vector)
    requires
        r < 8,
    ensures
        1u8 << r == (if r == 0 {
            1u8
        } else if r == 1 {
            2u8
        } else if r == 2 {
            4u8
        } else if r == 3 {
            8u8
        } else if r == 4 {
            16u8
        } else if r == 5 {
            32u8
        } else if r == 6 {
            64u8
        } else {
            128u8
        }),
{
}

/// The number of leading zero bits of a byte that is not zero.
fn byte_leading_zeros(b: u8) -> (k: u32)
    requires
        b != 0,
    ensures
        k < 8,
        pow2((7 - k) as nat) <= b < pow2((8 - k) as nat),
{
    let mut k: u32 = 0;
    let mut t: u16 = b as u16;
    proof {
        lemma2_to64();
    }
    while t < 128
        invariant
            k < 8,
            t == b * pow2(k as nat),
            0 < t < 256,
            b != 0,
        decreases 8 - k,
    {
        proof {
            lemma2_to64();
            lemma_pow2_adds(k as nat, 1);
            assert(b * (pow2(k as nat) * 2) == (b * pow2(k as nat)) * 2) by (nonlinear_arith);
            if k == 7 {
                assert(b * 128 >= 128);
            }
        }
        t = t * 2;
        k = k + 1;
    }
    proof {
        lemma2_to64();
        lemma_pow2_adds((7 - k) as nat, k as nat);
        lemma_pow2_adds((8 - k) as nat, k as nat);
        lemma_pow2_pos(k as nat);
        let p = pow2(k as nat);
        let lo = pow2((7 - k) as nat);
        let hi = pow2((8 - k) as nat);
        assert(lo <= b) by (nonlinear_arith)
            requires
                lo * p == 128,
                b * p >= 128,
                p > 0,
        ;
        assert(b < hi) by (nonlinear_arith)
            requires
                hi * p == 256,
                b * p < 256,
                p > 0,
        ;
    }
    k
}

impl U256 {
    /// The number of zero bits above the highest set bit; 256 for zero.
    pub fn leading_zeros(&self) -> (lz: u32)
        ensures
            lz <= 256,
            lz == 256 <==> self.to_nat() == 0,
            lz < 256 ==> pow2((255 - lz) as nat) <= self.to_nat() < pow2((256 - lz) as nat),
    {
        let mut i: usize = 0;
        while i < 32
            invariant
                i <= 32,
                forall|j: int| 0 <= j < i ==> self@[j] == 0,
            decreases 32 - i,
        {
            let b = self.0[i];
            if b != 0 {
                let k = byte_leading_zeros(b);
                proof {
                    let rest = (31 - i) as nat;
                    let p = pow256(rest);
                    let v = self.to_nat();
                    lemma_split(self@, (i + 1) as nat);
                    lemma_be_value_zero(self@, i as nat);
                    lemma_le_value_bound(self@, rest);
                    lemma_pow256_positive(rest);
                    lemma_pow256_is_pow2(rest);
                    lemma_pow2_adds((7 - k) as nat, 8 * rest);
                    lemma_pow2_adds((8 - k) as nat, 8 * rest);
                    let lo = pow2((7 - k) as nat);
                    let hi = pow2((8 - k) as nat);
                    let low = le_value(self@, rest);
                    assert(be_value(self@, (i + 1) as nat) == b);
                    assert(lo * p <= v < hi * p) by (nonlinear_arith)
                        requires
                            v == b * p + low,
                            low < p,
                            lo <= b < hi,
                    ;
                    lemma_pow2_pos((255 - (8 * i + k)) as nat);
                }
                return 8 * (i as u32) + k;
            }
            i += 1;
        }
        proof {
            lemma_be_value_zero(self@, 32);
        }
        256
    }

    /// Two to the power `k`.
    pub fn two_pow_k(k: u8) -> (out: U256)
        ensures
            out.to_nat() == pow2(k as nat),
    {
        let mut out = [0u8; 32];
        let byte_index = 31 - (k / 8);
        let bit_index = k % 8;
        out[byte_index as usize] = 1u8 << bit_index;
        let out = U256(out);
        proof {
            let rest = (k / 8) as nat;
            let idx = byte_index as nat;
            lemma_one_shl(bit_index);
            lemma2_to64();
            lemma_split(out@, idx + 1);
            lemma_be_value_zero(out@, idx);
            lemma_le_value_zero(out@, rest);
            lemma_pow256_is_pow2(rest);
            lemma_pow2_adds(bit_index as nat, 8 * rest);
            assert(be_value(out@, idx + 1) == pow2(bit_index as nat));
        }
        out
    }
}

} // verus!
