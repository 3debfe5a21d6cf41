//! Logical shifts of identifiers.

use super::value::{
    be_value, le_value, lemma_be_value_ext, lemma_be_value_zero, lemma_le_value_bound,
    lemma_le_value_ext, lemma_le_value_zero, lemma_pow256_positive, lemma_split, modulus, pow256,
};
use super::U256;
use vstd::arithmetic::div_mod::{
    lemma_basic_div, lemma_div_denominator, lemma_fundamental_div_mod,
    lemma_fundamental_div_mod_converse, lemma_mod_multiples_vanish, lemma_small_mod,
};
use vstd::arithmetic::power2::{lemma2_to64, lemma_pow2_adds, lemma_pow2_pos, pow2};
use vstd::prelude::*;
use vstd::std_specs::ops::{ShlSpecImpl, ShrSpecImpl};

verus! {

/// The shift that an operand asks for: its low sixteen bits.
pub open spec fn shift_amount(rhs: U256) -> nat {
    (rhs@[30] as nat) * 256 + rhs@[31] as nat
}

/// The shift that an operand asks for is its number modulo 2^16.
pub proof fn lemma_shift_amount(rhs: U256)
    ensures
        shift_amount(rhs) == rhs.to_nat() % 65536,
{
    let head = be_value(rhs@, 30);
    assert(be_value(rhs@, 31) == head * 256 + rhs@[30]);
    assert(be_value(rhs@, 32) == be_value(rhs@, 31) * 256 + rhs@[31]);
    lemma_fundamental_div_mod_converse(
        rhs.to_nat() as int,
        65536,
        head as int,
        shift_amount(rhs) as int,
    );
}

/// `256^n` is `2^(8n)`.
pub proof fn lemma_pow256_is_pow2(n: nat)
    ensures
        pow256(n) == pow2(8 * n),
    decreases n,
{
    lemma2_to64();
    if n > 0 {
        lemma_pow256_is_pow2((n - 1) as nat);
        lemma_pow2_adds(8, (8 * (n - 1)) as nat);
    }
}

/// A byte shifted right with the low bits of its more significant
/// neighbour moved in, in arithmetic terms.
proof fn lemma_shr_byte(cur: u8, prev: u8)
    by (bit_vector)
    ensures
        (cur >> 1u32) | (prev << 7u32) == cur / 2 + (prev % 2) * 128,
        (cur >> 2u32) | (prev << 6u32) == cur / 4 + (prev % 4) * 64,
        (cur >> 3u32) | (prev << 5u32) == cur / 8 + (prev % 8) * 32,
        (cur >> 4u32) | (prev << 4u32) == cur / 16 + (prev % 16) * 16,
        (cur >> 5u32) | (prev << 3u32) == cur / 32 + (prev % 32) * 8,
        (cur >> 6u32) | (prev << 2u32) == cur / 64 + (prev % 64) * 4,
        (cur >> 7u32) | (prev << 1u32) == cur / 128 + (prev % 128) * 2,
{
}

/// One step of long division by a divisor `d` of 256: appending the byte
/// `cur` to a prefix `pm` whose last byte is `prev`.
proof fn lemma_div_step(pm: nat, prev: nat, cur: nat, d: nat, s: nat)
    requires
        d > 0,
        d * s == 256,
        pm % 256 == prev,
    ensures
        (pm * 256 + cur) / d == (pm / d) * 256 + cur / d + (prev % d) * s,
{
    let k = pm / d;
    let t = pm % d;
    let c = cur / d;
    let e = cur % d;
    lemma_fundamental_div_mod(pm as int, d as int);
    lemma_fundamental_div_mod(cur as int, d as int);
    lemma_fundamental_div_mod(pm as int, 256);
    let h = pm / 256;
    assert(pm == d * (s * h) + prev) by (nonlinear_arith)
        requires
            pm == 256 * h + prev,
            d * s == 256,
    ;
    lemma_mod_multiples_vanish((s * h) as int, prev as int, d as int);
    assert(prev % d == t);
    let q = k * 256 + c + t * s;
    assert(pm * 256 + cur == q * d + e) by (nonlinear_arith)
        requires
            pm == d * k + t,
            cur == d * c + e,
            d * s == 256,
            q == k * 256 + c + t * s,
    ;
    lemma_fundamental_div_mod_converse((pm * 256 + cur) as int, d as int, q as int, e as int);
}

/// One step of long division by `2^r`: appending a byte to a prefix whose
/// last byte is `prev`.
proof fn lemma_shr_step(pm: nat, prev: nat, cur: nat, r: nat)
    requires
        1 <= r <= 7,
        pm % 256 == prev,
    ensures
        (pm * 256 + cur) / pow2(r) == (pm / pow2(r)) * 256 + cur / pow2(r) + (prev % pow2(r))
            * pow2((8 - r) as nat),
{
    lemma2_to64();
    lemma_pow2_adds(r, (8 - r) as nat);
    lemma_pow2_pos(r);
    lemma_div_step(pm, prev, cur, pow2(r), pow2((8 - r) as nat));
}

impl U256 {
    /// The logical right shift as a value: the quotient by `2^s`.
    pub open spec fn shr(self, rhs: U256) -> U256 {
        U256::of_nat(self.to_nat() / pow2(shift_amount(rhs)))
    }
}

impl std::ops::Shr<U256> for U256 {
    type Output = U256;

    /// Logical right shift by the low sixteen bits of `rhs`.
    fn shr(self, rhs: U256) -> (out: U256)
        ensures
            out.to_nat() == self.to_nat() / pow2(shift_amount(rhs)),
    {
        let shift: u32 = (rhs.0[30] as u32) * 256 + (rhs.0[31] as u32);
        proof {
            lemma2_to64();
            U256::lemma_to_nat_bound(self);
            lemma_pow256_is_pow2(32);
            lemma_pow2_pos(shift as nat);
        }
        if shift == 0 {
            proof {
                assert(shift_amount(rhs) == 0);
                assert(self.to_nat() / 1 == self.to_nat());
                U256::lemma_of_nat(self.to_nat());
                lemma_small_mod(self.to_nat(), modulus());
                U256::lemma_to_nat_injective(self, self.shr(rhs));
            }
            return self;
        }
        if shift >= 256 {
            let zero = U256::zero();
            proof {
                if shift > 256 {
                    vstd::arithmetic::power2::lemma_pow2_strictly_increases(256, shift as nat);
                }
                lemma_basic_div(self.to_nat() as int, pow2(shift as nat) as int);
                U256::lemma_of_nat(0);
                lemma_small_mod(0, modulus());
                U256::lemma_to_nat_injective(zero, self.shr(rhs));
            }
            return zero;
        }
        let q: usize = (shift / 8) as usize;
        let r: u32 = shift % 8;
        let mut out = [0u8; 32];
        let mut n: usize = q;
        proof {
            lemma_be_value_zero(out@, q as nat);
        }
        while n < 32
            invariant
                q <= n <= 32,
                q < 32,
                r < 8,
                be_value(out@, n as nat) == be_value(self@, (n - q) as nat) / pow2(r as nat),
            decreases 32 - n,
        {
            let m = n - q;
            let cur = self.0[m];
            let prev = if m > 0 {
                self.0[m - 1]
            } else {
                0
            };
            let byte = if r == 0 {
                cur
            } else {
                (cur >> r) | (prev << (8 - r))
            };
            let ghost before = out@;
            out[n] = byte;
            proof {
                lemma_be_value_ext(before, out@, n as nat);
                lemma2_to64();
                let pm = be_value(self@, m as nat);
                if r != 0 {
                    lemma_shr_byte(cur, prev);
                    lemma_shr_step(pm, prev as nat, cur as nat, r as nat);
                }
            }
            n += 1;
        }
        let out = U256(out);
        proof {
            let v = self.to_nat();
            let pq = pow256(q as nat);
            let hi = be_value(self@, (32 - q) as nat);
            lemma_split(self@, (32 - q) as nat);
            lemma_le_value_bound(self@, q as nat);
            lemma_pow256_positive(q as nat);
            lemma_fundamental_div_mod_converse(
                v as int,
                pq as int,
                hi as int,
                le_value(self@, q as nat) as int,
            );
            lemma_pow256_is_pow2(q as nat);
            lemma_pow2_adds((8 * q) as nat, r as nat);
            lemma_pow2_pos(r as nat);
            lemma_div_denominator(v as int, pq as int, pow2(r as nat) as int);
            assert(out.to_nat() == v / pow2(shift as nat));
            U256::lemma_to_nat_bound(out);
            U256::lemma_of_nat(out.to_nat());
            lemma_small_mod(out.to_nat(), modulus());
            U256::lemma_to_nat_injective(out, self.shr(rhs));
        }
        out
    }
}

impl ShrSpecImpl<U256> for U256 {
    open spec fn obeys_shr_spec() -> bool {
        true
    }

    open spec fn shr_req(self, rhs: U256) -> bool {
        true
    }

    open spec fn shr_spec(self, rhs: U256) -> U256 {
        self.shr(rhs)
    }
}

/// A byte shifted left with the high bits of its less significant
/// neighbour moved in, in arithmetic terms.
proof fn lemma_shl_byte(cur: u8, next: u8)
    by (bit_vector)
    ensures
        (cur << 1u32) | (next >> 7u32) == (cur % 128) * 2 + next / 128,
        (cur << 2u32) | (next >> 6u32) == (cur % 64) * 4 + next / 64,
        (cur << 3u32) | (next >> 5u32) == (cur % 32) * 8 + next / 32,
        (cur << 4u32) | (next >> 4u32) == (cur % 16) * 16 + next / 16,
        (cur << 5u32) | (next >> 3u32) == (cur % 8) * 32 + next / 8,
        (cur << 6u32) | (next >> 2u32) == (cur % 4) * 64 + next / 4,
        (cur << 7u32) | (next >> 1u32) == (cur % 2) * 128 + next / 2,
{
}

/// Moves every byte `q` places towards the most significant end, filling
/// with zeros.
fn shift_bytes_left(a: &U256, q: usize) -> (out: U256)
    requires
        q < 32,
    ensures
        out.to_nat() == le_value(a@, (32 - q) as nat) * pow256(q as nat),
        forall|i: int| 0 <= i < 32 - q ==> out@[i] == a@[i + q],
        forall|i: int| 32 - q <= i < 32 ==> out@[i] == 0,
{
    let mut out = [0u8; 32];
    let mut n: usize = q;
    proof {
        lemma_le_value_zero(out@, q as nat);
        assert(le_value(a@, 0) * pow256(q as nat) == 0) by (nonlinear_arith)
            requires
                le_value(a@, 0) == 0,
        ;
    }
    while n < 32
        invariant
            q <= n <= 32,
            le_value(out@, n as nat) == le_value(a@, (n - q) as nat) * pow256(q as nat),
            forall|i: int| 32 - n <= i < 32 - q ==> out@[i] == a@[i + q],
            forall|i: int| 32 - q <= i < 32 ==> out@[i] == 0,
            forall|i: int| 0 <= i < 32 - n ==> out@[i] == 0,
        decreases 32 - n,
    {
        let idx = 31 - n;
        let ghost before = out@;
        out[idx] = a.0[idx + q];
        proof {
            let m = (n - q) as nat;
            lemma_le_value_ext(before, out@, n as nat);
            lemma_pow256_is_pow2(m);
            lemma_pow256_is_pow2(q as nat);
            lemma_pow256_is_pow2(n as nat);
            lemma_pow2_adds(8 * m, (8 * q) as nat);
            let x = a@[idx + q] as nat;
            let pm = pow256(m);
            let pq = pow256(q as nat);
            let rest = le_value(a@, m);
            assert(le_value(a@, m + 1) == x * pm + rest);
            assert((x * pm + rest) * pq == x * (pm * pq) + rest * pq) by (nonlinear_arith);
        }
        n += 1;
    }
    let out = U256(out);
    proof {
        lemma_split(out@, 0);
        assert(be_value(out@, 0) * pow256(32) == 0) by (nonlinear_arith)
            requires
                be_value(out@, 0) == 0,
        ;
    }
    out
}

/// Multiplies by `2^r`, for `0 < r < 8`, dropping what leaves the top byte.
fn shift_bits_left(a: &U256, r: u32) -> (res: (U256, Ghost<nat>))
    requires
        0 < r < 8,
    ensures
        res.0.to_nat() + res.1@ * modulus() == a.to_nat() * pow2(r as nat),
{
    let mut out = [0u8; 32];
    let mut n: usize = 0;
    let ghost mut carry: nat = 0;
    proof {
        lemma2_to64();
        lemma_pow2_adds(r as nat, (8 - r) as nat);
        assert(le_value(a@, 0) * pow2(r as nat) == 0) by (nonlinear_arith)
            requires
                le_value(a@, 0) == 0,
        ;
        assert(carry * pow256(0) == 0) by (nonlinear_arith)
            requires
                carry == 0,
        ;
    }
    while n < 32
        invariant
            n <= 32,
            0 < r < 8,
            pow2(r as nat) * pow2((8 - r) as nat) == 256,
            carry == (if n == 0 {
                0nat
            } else {
                a@[32 - n] as nat / pow2((8 - r) as nat)
            }),
            le_value(out@, n as nat) + carry * pow256(n as nat) == le_value(a@, n as nat) * pow2(
                r as nat,
            ),
        decreases 32 - n,
    {
        let idx = 31 - n;
        let cur = a.0[idx];
        let next = if idx < 31 {
            a.0[idx + 1]
        } else {
            0
        };
        let ghost before = out@;
        out[idx] = (cur << r) | (next >> (8 - r));
        proof {
            lemma_le_value_ext(before, out@, n as nat);
            lemma_shl_byte(cur, next);
            lemma2_to64();
            let big = pow2(r as nat);
            let small = pow2((8 - r) as nat);
            let x = cur as nat;
            let b = out@[idx as int] as nat;
            assert(b == (x % small) * big + next as nat / small);
            assert(next as nat / small == carry);
            lemma_fundamental_div_mod(x as int, small as int);
            let hi = x / small;
            let lo = x % small;
            let p = pow256(n as nat);
            let rest_out = le_value(out@, n as nat);
            let rest_a = le_value(a@, n as nat);
            assert(pow256((n + 1) as nat) == 256 * p);
            assert(b * p + rest_out + hi * (256 * p) == (x * p + rest_a) * big) by (nonlinear_arith)
                requires
                    b == lo * big + carry,
                    x == small * hi + lo,
                    big * small == 256,
                    rest_out + carry * p == rest_a * big,
            ;
            carry = hi;
        }
        n += 1;
    }
    let out = U256(out);
    proof {
        lemma_split(out@, 0);
        lemma_split(a@, 0);
        assert(be_value(out@, 0) * pow256(32) == 0) by (nonlinear_arith)
            requires
                be_value(out@, 0) == 0,
        ;
        assert(be_value(a@, 0) * pow256(32) == 0) by (nonlinear_arith)
            requires
                be_value(a@, 0) == 0,
        ;
    }
    (out, Ghost(carry))
}

impl U256 {
    /// The logical left shift as a value: the product by `2^s`, modulo 2^256.
    pub open spec fn shl(self, rhs: U256) -> U256 {
        U256::of_nat(self.to_nat() * pow2(shift_amount(rhs)))
    }
}

impl std::ops::Shl<U256> for U256 {
    type Output = U256;

    /// Logical left shift by the low sixteen bits of `rhs`.
    fn shl(self, rhs: U256) -> (out: U256)
        ensures
            out.to_nat() == (self.to_nat() * pow2(shift_amount(rhs))) % modulus(),
    {
        let shift: u32 = (rhs.0[30] as u32) * 256 + (rhs.0[31] as u32);
        let ghost v = self.to_nat();
        proof {
            lemma2_to64();
            U256::lemma_to_nat_bound(self);
            lemma_pow256_is_pow2(32);
            lemma_pow2_pos(shift as nat);
            assert(shift_amount(rhs) == shift);
            U256::lemma_of_nat(v * pow2(shift as nat));
        }
        if shift == 0 {
            proof {
                assert(v * 1 == v);
                lemma_small_mod(v, modulus());
                U256::lemma_to_nat_injective(self, self.shl(rhs));
            }
            return self;
        }
        if shift >= 256 {
            let zero = U256::zero();
            proof {
                lemma_pow2_adds(256, (shift - 256) as nat);
                let k = pow2((shift - 256) as nat);
                assert(v * (modulus() * k) == modulus() * (v * k)) by (nonlinear_arith);
                lemma_mod_multiples_vanish((v * k) as int, 0, modulus() as int);
                U256::lemma_to_nat_injective(zero, self.shl(rhs));
            }
            return zero;
        }
        let q: usize = (shift / 8) as usize;
        let r: u32 = shift % 8;
        let moved = shift_bytes_left(&self, q);
        proof {
            lemma_split(self@, q as nat);
            lemma_pow256_is_pow2(q as nat);
            lemma_pow256_is_pow2((32 - q) as nat);
            lemma_pow2_adds((8 * (32 - q)) as nat, (8 * q) as nat);
            lemma_pow2_adds((8 * q) as nat, r as nat);
        }
        let ghost top = be_value(self@, q as nat);
        let ghost low = le_value(self@, (32 - q) as nat);
        let ghost pq = pow256(q as nat);
        let ghost ph = pow256((32 - q) as nat);
        if r == 0 {
            proof {
                assert(v * pq == top * modulus() + moved.to_nat()) by (nonlinear_arith)
                    requires
                        v == top * ph + low,
                        ph * pq == modulus(),
                        moved.to_nat() == low * pq,
                ;
                U256::lemma_to_nat_bound(moved);
                lemma_fundamental_div_mod_converse(
                    (v * pq) as int,
                    modulus() as int,
                    top as int,
                    moved.to_nat() as int,
                );
                assert(pq * 1 == pq);
                U256::lemma_to_nat_injective(moved, self.shl(rhs));
            }
            return moved;
        }
        let (out, Ghost(carry)) = shift_bits_left(&moved, r);
        proof {
            let big = pow2(r as nat);
            assert(v * (pq * big) == (top * big + carry) * modulus() + out.to_nat())
                by (nonlinear_arith)
                requires
                    v == top * ph + low,
                    ph * pq == modulus(),
                    moved.to_nat() == low * pq,
                    out.to_nat() + carry * modulus() == moved.to_nat() * big,
            ;
            U256::lemma_to_nat_bound(out);
            lemma_fundamental_div_mod_converse(
                (v * (pq * big)) as int,
                modulus() as int,
                (top * big + carry) as int,
                out.to_nat() as int,
            );
            U256::lemma_to_nat_injective(out, self.shl(rhs));
        }
        out
    }
}

impl ShlSpecImpl<U256> for U256 {
    open spec fn obeys_shl_spec() -> bool {
        true
    }

    open spec fn shl_req(self, rhs: U256) -> bool {
        true
    }

    open spec fn shl_spec(self, rhs: U256) -> U256 {
        self.shl(rhs)
    }
}

/// Shifting by zero, in either direction, changes nothing.
pub proof fn lemma_shift_by_zero(a: U256, s: U256)
    requires
        s.to_nat() == 0,
    ensures
        shift_amount(s) == 0,
        a.shl(s) == a,
        a.shr(s) == a,
{
    U256::lemma_of_nat(0);
    U256::lemma_to_nat_bound(a);
    lemma_small_mod(0, modulus());
    U256::lemma_to_nat_injective(s, U256::of_nat(0));
    U256::lemma_of_bytes(super::value::nat_bytes(0));
    lemma_pow256_positive(0);
    lemma_pow256_positive(1);
    lemma_basic_div(0, pow256(0) as int);
    lemma_basic_div(0, pow256(1) as int);
    assert(shift_amount(s) == 0);
    lemma2_to64();
    assert(a.to_nat() * 1 == a.to_nat());
    assert(a.to_nat() / 1 == a.to_nat());
    U256::lemma_of_nat(a.to_nat());
    lemma_small_mod(a.to_nat(), modulus());
    U256::lemma_to_nat_injective(a.shl(s), a);
    U256::lemma_to_nat_injective(a.shr(s), a);
}

/// Shifting by 256 bits or more, in either direction, leaves zero.
pub proof fn lemma_shift_beyond_width(a: U256, s: U256)
    requires
        shift_amount(s) >= 256,
    ensures
        a.shl(s).to_nat() == 0,
        a.shr(s).to_nat() == 0,
{
    let k = shift_amount(s);
    let v = a.to_nat();
    U256::lemma_to_nat_bound(a);
    lemma_pow256_is_pow2(32);
    lemma_pow2_pos(k);
    if k > 256 {
        vstd::arithmetic::power2::lemma_pow2_strictly_increases(256, k);
    }
    lemma_basic_div(v as int, pow2(k) as int);
    lemma_pow2_adds(256, (k - 256) as nat);
    let rest = pow2((k - 256) as nat);
    assert(v * (modulus() * rest) == modulus() * (v * rest)) by (nonlinear_arith);
    lemma_mod_multiples_vanish((v * rest) as int, 0, modulus() as int);
    lemma_small_mod(0, modulus());
    U256::lemma_of_nat(v * pow2(k));
    U256::lemma_of_nat(0);
}

} // verus!
