//! The number that thirty-two bytes stand for, and the facts about it that
//! the arithmetic rests on.

use vstd::arithmetic::div_mod::{lemma_div_denominator, lemma_mod_breakdown};
use vstd::prelude::*;

verus! {

/// 256 to the power `n`.
pub open spec fn pow256(n: nat) -> nat
    decreases n,
{
    if n == 0 {
        1
    } else {
        256 * pow256((n - 1) as nat)
    }
}

/// 2 to the power 256.
pub open spec fn modulus() -> nat {
    pow256(32)
}

/// The number that the first `n` bytes of `bytes` spell, read big-endian.
pub open spec fn be_value(bytes: Seq<u8>, n: nat) -> nat
    decreases n,
{
    if n == 0 {
        0
    } else {
        be_value(bytes, (n - 1) as nat) * 256 + bytes[n - 1] as nat
    }
}

/// The number that the last `n` of thirty-two bytes spell, read big-endian.
pub open spec fn le_value(bytes: Seq<u8>, n: nat) -> nat
    decreases n,
{
    if n == 0 {
        0
    } else {
        bytes[32 - n] as nat * pow256((n - 1) as nat) + le_value(bytes, (n - 1) as nat)
    }
}

pub proof fn lemma_pow256_positive(n: nat)
    ensures
        pow256(n) > 0,
    decreases n,
{
    if n > 0 {
        lemma_pow256_positive((n - 1) as nat);
    }
}

/// The first `n` bytes spell a number below `256^n`.
pub proof fn lemma_be_value_bound(bytes: Seq<u8>, n: nat)
    ensures
        be_value(bytes, n) < pow256(n),
    decreases n,
{
    if n > 0 {
        lemma_be_value_bound(bytes, (n - 1) as nat);
    }
}

/// The last `n` bytes spell a number below `256^n`.
pub proof fn lemma_le_value_bound(bytes: Seq<u8>, n: nat)
    ensures
        le_value(bytes, n) < pow256(n),
    decreases n,
{
    if n > 0 {
        lemma_le_value_bound(bytes, (n - 1) as nat);
        let p = pow256((n - 1) as nat);
        let b = bytes[32 - n] as nat;
        assert(b * p <= 255 * p) by (nonlinear_arith)
            requires
                b <= 255,
        ;
    }
}

/// A number of thirty-two bytes is its first `k` bytes, weighted, plus its
/// last `32 - k` bytes.
pub proof fn lemma_split(bytes: Seq<u8>, k: nat)
    requires
        bytes.len() == 32,
        k <= 32,
    ensures
        be_value(bytes, 32) == be_value(bytes, k) * pow256((32 - k) as nat) + le_value(
            bytes,
            (32 - k) as nat,
        ),
    decreases 32 - k,
{
    if k < 32 {
        lemma_split(bytes, k + 1);
        let hi = be_value(bytes, k);
        let b = bytes[k as int] as nat;
        let p = pow256((31 - k) as nat);
        assert(be_value(bytes, k + 1) == hi * 256 + b);
        assert(pow256((32 - k) as nat) == 256 * p);
        assert(le_value(bytes, (32 - k) as nat) == b * p + le_value(bytes, (31 - k) as nat));
        assert((hi * 256 + b) * p == hi * (256 * p) + b * p) by (nonlinear_arith);
        assert(be_value(bytes, 32) == be_value(bytes, k + 1) * p + le_value(bytes, (31 - k) as nat));
        assert(be_value(bytes, 32) == (hi * 256 + b) * p + le_value(bytes, (31 - k) as nat));
        assert(hi * pow256((32 - k) as nat) == hi * (256 * p));
    } else {
        assert(be_value(bytes, 32) * pow256(0) == be_value(bytes, 32)) by (nonlinear_arith)
            requires
                pow256(0) == 1,
        ;
        assert(pow256(0) == 1);
        assert(le_value(bytes, 0) == 0);
    }
}

/// Zero bytes spell zero.
pub proof fn lemma_be_value_zero(bytes: Seq<u8>, n: nat)
    requires
        forall|i: int| 0 <= i < n ==> bytes[i] == 0,
    ensures
        be_value(bytes, n) == 0,
    decreases n,
{
    if n > 0 {
        lemma_be_value_zero(bytes, (n - 1) as nat);
    }
}

/// Zero bytes at the end spell zero.
pub proof fn lemma_le_value_zero(bytes: Seq<u8>, n: nat)
    requires
        n <= 32,
        forall|i: int| 32 - n <= i < 32 ==> bytes[i] == 0,
    ensures
        le_value(bytes, n) == 0,
    decreases n,
{
    if n > 0 {
        lemma_le_value_zero(bytes, (n - 1) as nat);
        assert(0 * pow256((n - 1) as nat) == 0);
    }
}

/// Bytes that are all 255 spell the largest number of their length.
pub proof fn lemma_be_value_ones(bytes: Seq<u8>, n: nat)
    requires
        forall|i: int| 0 <= i < n ==> bytes[i] == 255,
    ensures
        be_value(bytes, n) == pow256(n) - 1,
    decreases n,
{
    if n > 0 {
        lemma_be_value_ones(bytes, (n - 1) as nat);
    }
}

/// Two byte sequences that agree on their first `n` bytes spell the same
/// number there.
pub proof fn lemma_be_value_ext(a: Seq<u8>, b: Seq<u8>, n: nat)
    requires
        forall|i: int| 0 <= i < n ==> a[i] == b[i],
    ensures
        be_value(a, n) == be_value(b, n),
    decreases n,
{
    if n > 0 {
        lemma_be_value_ext(a, b, (n - 1) as nat);
    }
}

/// Two byte sequences that agree on their last `n` of thirty-two bytes spell
/// the same number there.
pub proof fn lemma_le_value_ext(a: Seq<u8>, b: Seq<u8>, n: nat)
    requires
        n <= 32,
        forall|i: int| 32 - n <= i < 32 ==> a[i] == b[i],
    ensures
        le_value(a, n) == le_value(b, n),
    decreases n,
{
    if n > 0 {
        lemma_le_value_ext(a, b, (n - 1) as nat);
    }
}

/// Thirty-two-byte sequences that spell the same number are equal.
pub proof fn lemma_be_value_injective(a: Seq<u8>, b: Seq<u8>, n: nat)
    requires
        be_value(a, n) == be_value(b, n),
    ensures
        forall|i: int| 0 <= i < n ==> a[i] == b[i],
    decreases n,
{
    if n > 0 {
        lemma_be_value_injective(a, b, (n - 1) as nat);
    }
}

/// The thirty-two bytes of `v` modulo 2^256, most significant first.
pub open spec fn nat_bytes(v: nat) -> Seq<u8> {
    Seq::new(32, |i: int| ((v / pow256((31 - i) as nat)) % 256) as u8)
}

/// The first `n` bytes of `nat_bytes(v)` spell the matching digits of `v`.
pub proof fn lemma_nat_bytes_prefix(v: nat, n: nat)
    requires
        n <= 32,
    ensures
        be_value(nat_bytes(v), n) == (v / pow256((32 - n) as nat)) % pow256(n),
    decreases n,
{
    if n == 0 {
        assert(pow256(0) == 1);
    } else {
        lemma_nat_bytes_prefix(v, (n - 1) as nat);
        let p = pow256((32 - n) as nat);
        let q = pow256((n - 1) as nat);
        lemma_pow256_positive((32 - n) as nat);
        lemma_pow256_positive((n - 1) as nat);
        let w = v / p;
        assert(pow256((33 - n) as nat) == 256 * p);
        assert(pow256(n) == 256 * q);
        assert(v / (p * 256) == w / 256) by {
            lemma_div_denominator(v as int, p as int, 256);
        }
        assert(p * 256 == 256 * p) by (nonlinear_arith);
        assert(w % (256 * q) == 256 * ((w / 256) % q) + w % 256) by {
            lemma_mod_breakdown(w as int, 256, q as int);
        }
        assert(nat_bytes(v)[n - 1] == (w % 256) as u8);
        assert(be_value(nat_bytes(v), n) == ((w / 256) % q) * 256 + (w % 256));
    }
}

/// `nat_bytes(v)` spells `v` modulo 2^256.
pub proof fn lemma_nat_bytes(v: nat)
    ensures
        nat_bytes(v).len() == 32,
        be_value(nat_bytes(v), 32) == v % modulus(),
{
    lemma_nat_bytes_prefix(v, 32);
    assert(pow256(0) == 1);
    assert(v / 1 == v);
    assert(be_value(nat_bytes(v), 32) == (v / pow256(0)) % pow256(32));
}

/// Bytes that agree up to index `i` and are smaller there spell a smaller
/// number, whatever follows.
pub proof fn lemma_be_value_lex(a: Seq<u8>, b: Seq<u8>, i: nat, n: nat)
    requires
        i < n,
        forall|j: int| 0 <= j < i ==> a[j] == b[j],
        a[i as int] < b[i as int],
    ensures
        be_value(a, n) < be_value(b, n),
    decreases n,
{
    if n == i + 1 {
        lemma_be_value_ext(a, b, i);
    } else {
        lemma_be_value_lex(a, b, i, (n - 1) as nat);
    }
}

} // verus!
