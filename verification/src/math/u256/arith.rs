//! Addition and subtraction of identifiers, limb by limb.

use super::value::{
    be_value, le_value, lemma_be_value_ext, lemma_le_value_ext, lemma_split, modulus, pow256,
};
use super::U256;
use crate::math::{ArithmeticError, OperationResult};
use vstd::arithmetic::div_mod::{
    lemma_fundamental_div_mod, lemma_fundamental_div_mod_converse, lemma_small_mod,
};
use vstd::prelude::*;
use vstd::std_specs::ops::{AddSpecImpl, SubSpecImpl};

verus! {

/// Ripple-carry addition from the least significant byte; the flag tells
/// whether a carry left the most significant byte.
fn add_carry(a: &U256, b: &U256) -> (r: (U256, bool))
    ensures
        r.0 == a.wrapping_add(*b),
        r.0.to_nat() == (a.to_nat() + b.to_nat()) % modulus(),
        r.1 == (a.to_nat() + b.to_nat() >= modulus()),
{
    let mut out = [0u8; 32];
    let mut carry: u16 = 0;
    let mut n: usize = 0;
    while n < 32
        invariant
            n <= 32,
            carry <= 1,
            le_value(out@, n as nat) + carry * pow256(n as nat) == le_value(a@, n as nat)
                + le_value(b@, n as nat),
        decreases 32 - n,
    {
        let idx = 31 - n;
        let sum: u16 = a.0[idx] as u16 + b.0[idx] as u16 + carry;
        let ghost prev = out@;
        let ghost c = carry as int;
        out[idx] = (sum % 256) as u8;
        carry = sum / 256;
        proof {
            lemma_le_value_ext(prev, out@, n as nat);
            let p = pow256(n as nat) as int;
            let x = a@[idx as int] as int;
            let y = b@[idx as int] as int;
            let lo = (sum % 256) as int;
            let hi = (sum / 256) as int;
            assert(pow256((n + 1) as nat) == 256 * p);
            assert(lo * p + hi * (256 * p) == x * p + y * p + c * p) by (nonlinear_arith)
                requires
                    lo + 256 * hi == x + y + c,
            ;
        }
        n += 1;
    }
    let out = U256(out);
    proof {
        lemma_split(out@, 0);
        lemma_split(a@, 0);
        lemma_split(b@, 0);
        assert(pow256(0) == 1);
        let s = a.to_nat() + b.to_nat();
        U256::lemma_to_nat_bound(out);
        U256::lemma_to_nat_bound(*a);
        U256::lemma_to_nat_bound(*b);
        if carry == 1 {
            lemma_fundamental_div_mod_converse(s as int, modulus() as int, 1, out.to_nat() as int);
        } else {
            lemma_small_mod(s, modulus());
        }
        U256::lemma_of_nat(s);
        U256::lemma_to_nat_injective(out, a.wrapping_add(*b));
    }
    (out, carry == 1)
}

/// Ripple-borrow subtraction from the least significant byte; the flag
/// tells whether a borrow left the most significant byte.
fn sub_borrow(a: &U256, b: &U256) -> (r: (U256, bool))
    ensures
        r.0 == a.wrapping_sub(*b),
        r.0.to_nat() == (modulus() + a.to_nat() - b.to_nat()) % (modulus() as int),
        r.1 == (a.to_nat() < b.to_nat()),
{
    let mut out = [0u8; 32];
    let mut borrow: u16 = 0;
    let mut n: usize = 0;
    while n < 32
        invariant
            n <= 32,
            borrow <= 1,
            le_value(out@, n as nat) + le_value(b@, n as nat) == le_value(a@, n as nat) + borrow
                * pow256(n as nat),
        decreases 32 - n,
    {
        let idx = 31 - n;
        let lhs: u16 = a.0[idx] as u16;
        let rhs: u16 = b.0[idx] as u16 + borrow;
        let ghost prev = out@;
        let ghost c = borrow as int;
        if lhs >= rhs {
            out[idx] = (lhs - rhs) as u8;
            borrow = 0;
        } else {
            out[idx] = ((lhs + 256) - rhs) as u8;
            borrow = 1;
        }
        proof {
            lemma_le_value_ext(prev, out@, n as nat);
            let p = pow256(n as nat) as int;
            let x = a@[idx as int] as int;
            let y = b@[idx as int] as int;
            let d = out@[idx as int] as int;
            let nb = borrow as int;
            assert(pow256((n + 1) as nat) == 256 * p);
            assert(d * p + y * p + c * p == x * p + nb * (256 * p)) by (nonlinear_arith)
                requires
                    d + y + c == x + 256 * nb,
            ;
        }
        n += 1;
    }
    let out = U256(out);
    proof {
        lemma_split(out@, 0);
        lemma_split(a@, 0);
        lemma_split(b@, 0);
        assert(pow256(0) == 1);
        let d = (modulus() + a.to_nat() - b.to_nat()) as nat;
        U256::lemma_to_nat_bound(out);
        U256::lemma_to_nat_bound(*a);
        U256::lemma_to_nat_bound(*b);
        if borrow == 1 {
            lemma_small_mod(d, modulus());
        } else {
            lemma_fundamental_div_mod_converse(d as int, modulus() as int, 1, out.to_nat() as int);
        }
        U256::lemma_of_nat(d);
        U256::lemma_to_nat_injective(out, a.wrapping_sub(*b));
    }
    (out, borrow == 1)
}

impl U256 {
    /// The product with a sixteen-bit factor, modulo 2^256.
    pub fn mul_u16(self, factor: u16) -> (out: U256)
        ensures
            out.to_nat() == (self.to_nat() * (factor as nat)) % modulus(),
            out == U256::of_nat(self.to_nat() * (factor as nat)),
    {
        let mut out = [0u8; 32];
        let mut carry: u32 = 0;
        let mut n: usize = 0;
        proof {
            assert(le_value(self@, 0) * factor == 0) by (nonlinear_arith)
                requires
                    le_value(self@, 0) == 0,
            ;
        }
        while n < 32
            invariant
                n <= 32,
                carry < 65536,
                le_value(out@, n as nat) + carry * pow256(n as nat) == le_value(self@, n as nat)
                    * factor,
            decreases 32 - n,
        {
            let idx = 31 - n;
            assert((self@[idx as int] as int) * (factor as int) <= 255 * 65535) by (nonlinear_arith)
                requires
                    self@[idx as int] <= 255,
                    factor <= 65535,
            ;
            let acc: u32 = (self.0[idx] as u32) * (factor as u32) + carry;
            let ghost prev = out@;
            let ghost c = carry as int;
            out[idx] = (acc % 256) as u8;
            carry = acc / 256;
            proof {
                lemma_le_value_ext(prev, out@, n as nat);
                let p = pow256(n as nat) as int;
                let x = self@[idx as int] as int;
                let f = factor as int;
                let lo = (acc % 256) as int;
                let hi = (acc / 256) as int;
                let rest_out = le_value(out@, n as nat) as int;
                let rest = le_value(self@, n as nat) as int;
                assert(pow256((n + 1) as nat) == 256 * p);
                assert(lo * p + rest_out + hi * (256 * p) == (x * p + rest) * f)
                    by (nonlinear_arith)
                    requires
                        lo + 256 * hi == x * f + c,
                        rest_out + c * p == rest * f,
                ;
            }
            n += 1;
        }
        let out = U256(out);
        proof {
            lemma_split(out@, 0);
            lemma_split(self@, 0);
            assert(pow256(0) == 1);
            let product = self.to_nat() * (factor as nat);
            U256::lemma_to_nat_bound(out);
            assert(product == carry * modulus() + out.to_nat());
            lemma_fundamental_div_mod_converse(
                product as int,
                modulus() as int,
                carry as int,
                out.to_nat() as int,
            );
            U256::lemma_of_nat(product);
            U256::lemma_to_nat_injective(out, U256::of_nat(product));
        }
        out
    }

    /// The quotient by a sixteen-bit divisor that is not zero.
    pub fn div_u16(self, divisor: u16) -> (out: U256)
        requires
            divisor != 0,
        ensures
            out.to_nat() == self.to_nat() / (divisor as nat),
            out == U256::of_nat(self.to_nat() / (divisor as nat)),
    {
        let mut out = [0u8; 32];
        let mut rem: u32 = 0;
        let mut n: usize = 0;
        proof {
            assert(be_value(out@, 0) * divisor == 0) by (nonlinear_arith)
                requires
                    be_value(out@, 0) == 0,
            ;
        }
        while n < 32
            invariant
                n <= 32,
                divisor != 0,
                rem < divisor,
                be_value(out@, n as nat) * divisor + rem == be_value(self@, n as nat),
            decreases 32 - n,
        {
            let cur: u32 = rem * 256 + self.0[n] as u32;
            let ghost prev = out@;
            let ghost r0 = rem as int;
            let quot = cur / (divisor as u32);
            proof {
                let d = divisor as int;
                lemma_fundamental_div_mod(cur as int, d);
                let m = (cur % (divisor as u32)) as int;
                let q = quot as int;
                let c = cur as int;
                assert(q < 256) by (nonlinear_arith)
                    requires
                        c == d * q + m,
                        0 <= m,
                        c < d * 256,
                        d > 0,
                ;
            }
            out[n] = quot as u8;
            rem = cur % (divisor as u32);
            proof {
                lemma_be_value_ext(prev, out@, n as nat);
                let d = divisor as int;
                let q = quot as int;
                let head = be_value(out@, n as nat) as int;
                let r1 = rem as int;
                assert((head * 256 + q) * d + r1 == (head * d + r0) * 256 + self@[n as int])
                    by (nonlinear_arith)
                    requires
                        r0 * 256 + self@[n as int] == d * q + r1,
                ;
            }
            n += 1;
        }
        let out = U256(out);
        proof {
            let v = self.to_nat();
            lemma_fundamental_div_mod_converse(
                v as int,
                divisor as int,
                out.to_nat() as int,
                rem as int,
            );
            U256::lemma_to_nat_bound(out);
            lemma_small_mod(out.to_nat(), modulus());
            U256::lemma_of_nat(out.to_nat());
            U256::lemma_to_nat_injective(out, U256::of_nat(v / (divisor as nat)));
        }
        out
    }

    /// The sum modulo 2^256, as a value.
    pub open spec fn wrapping_add(self, rhs: U256) -> U256 {
        U256::of_nat(self.to_nat() + rhs.to_nat())
    }

    /// The difference modulo 2^256, as a value.
    pub open spec fn wrapping_sub(self, rhs: U256) -> U256 {
        U256::of_nat((modulus() + self.to_nat() - rhs.to_nat()) as nat)
    }

    /// What `checked_add` returns: the wrapped sum, marked when a carry
    /// left the top byte.
    pub open spec fn checked_add_spec(self, rhs: U256) -> OperationResult<U256> {
        if self.to_nat() + rhs.to_nat() < modulus() {
            OperationResult::Exact(self.wrapping_add(rhs))
        } else {
            OperationResult::Bounds(ArithmeticError::Overflow(self.wrapping_add(rhs)))
        }
    }

    /// What `checked_sub` returns: the wrapped difference, marked when a
    /// borrow left the top byte.
    pub open spec fn checked_sub_spec(self, rhs: U256) -> OperationResult<U256> {
        if self.to_nat() >= rhs.to_nat() {
            OperationResult::Exact(self.wrapping_sub(rhs))
        } else {
            OperationResult::Bounds(ArithmeticError::UnderFlow(self.wrapping_sub(rhs)))
        }
    }

    /// Adds and reports a carry out of the top byte apart from the wrapped sum.
    pub fn checked_add(self, rhs: U256) -> (r: OperationResult<U256>)
        ensures
            r == self.checked_add_spec(rhs),
    {
        let (out, carry) = add_carry(&self, &rhs);
        if carry {
            OperationResult::Bounds(ArithmeticError::Overflow(out))
        } else {
            OperationResult::Exact(out)
        }
    }

    /// Subtracts and reports a borrow out of the top byte apart from the
    /// wrapped difference.
    pub fn checked_sub(self, rhs: U256) -> (r: OperationResult<U256>)
        ensures
            r == self.checked_sub_spec(rhs),
    {
        let (out, borrow) = sub_borrow(&self, &rhs);
        if borrow {
            OperationResult::Bounds(ArithmeticError::UnderFlow(out))
        } else {
            OperationResult::Exact(out)
        }
    }
}

impl std::ops::Add<U256> for U256 {
    type Output = U256;

    /// The sum modulo 2^256.
    fn add(self, rhs: U256) -> (out: U256)
        ensures
            out.to_nat() == (self.to_nat() + rhs.to_nat()) % modulus(),
    {
        add_carry(&self, &rhs).0
    }
}

impl AddSpecImpl<U256> for U256 {
    open spec fn obeys_add_spec() -> bool {
        true
    }

    open spec fn add_req(self, rhs: U256) -> bool {
        true
    }

    open spec fn add_spec(self, rhs: U256) -> U256 {
        self.wrapping_add(rhs)
    }
}

impl std::ops::Sub<U256> for U256 {
    type Output = U256;

    /// The difference modulo 2^256.
    fn sub(self, rhs: U256) -> (out: U256)
        ensures
            out.to_nat() == (modulus() + self.to_nat() - rhs.to_nat()) % (modulus() as int),
    {
        sub_borrow(&self, &rhs).0
    }
}

impl SubSpecImpl<U256> for U256 {
    open spec fn obeys_sub_spec() -> bool {
        true
    }

    open spec fn sub_req(self, rhs: U256) -> bool {
        true
    }

    open spec fn sub_spec(self, rhs: U256) -> U256 {
        self.wrapping_sub(rhs)
    }
}

/// Subtracting what was added gives the first operand back, as long as the
/// sum did not wrap.
pub proof fn lemma_add_sub_round_trip(a: U256, b: U256)
    requires
        a.to_nat() + b.to_nat() < modulus(),
    ensures
        a.checked_add_spec(b) == OperationResult::Exact(a.wrapping_add(b)),
        a.wrapping_add(b).checked_sub_spec(b) == OperationResult::Exact(a),
        a.wrapping_add(b).wrapping_sub(b) == a,
{
    let sum = a.wrapping_add(b);
    U256::lemma_of_nat(a.to_nat() + b.to_nat());
    lemma_small_mod(a.to_nat() + b.to_nat(), modulus());
    let back = (modulus() + sum.to_nat() - b.to_nat()) as nat;
    U256::lemma_of_nat(back);
    U256::lemma_to_nat_bound(a);
    lemma_fundamental_div_mod_converse(back as int, modulus() as int, 1, a.to_nat() as int);
    U256::lemma_to_nat_injective(sum.wrapping_sub(b), a);
}

} // verus!
