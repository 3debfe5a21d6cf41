//! A peer record and the score that orders peers in a lookup.

use crate::math::u256::shift::{lemma_pow256_is_pow2, lemma_shift_amount};
use crate::math::u256::value::modulus;
use crate::math::u256::U256;
use vstd::arithmetic::div_mod::{lemma_fundamental_div_mod, lemma_small_mod};
use vstd::arithmetic::power2::{lemma2_to64, lemma_pow2_adds, pow2};
use vstd::prelude::*;
use vstd::std_specs::cmp::PartialEqSpecImpl;

verus! {

/// Where a peer listens: an IPv4 or IPv6 address and a port.
#[derive(Clone, Copy, Debug, PartialEq, Eq)]
pub enum Endpoint {
    /// Four address bytes and a port.
    V4([u8; 4], u16),
    /// Sixteen address bytes and a port.
    V6([u8; 16], u16),
}

/// A peer: its identifier, its endpoint, the latency last measured for it
/// in milliseconds (0 when none was), and two caches that `compute_score`
/// fills for a target.
#[derive(Clone, Copy, Debug)]
pub struct NodeEntry {
    pub id: U256,
    pub addr: Endpoint,
    pub score: U256,
    pub respond_time_ms: u128,
    pub distance: U256,
}

/// The latency that weighs on a score: the measured one, capped.
pub open spec fn capped_latency(respond_time_ms: u128) -> nat {
    if respond_time_ms < 800 {
        respond_time_ms as nat
    } else {
        800
    }
}

/// The penalty of a peer at distance `d`: a share of `d / 2^10` that grows
/// with the latency and reaches the whole of it at 800 ms.
pub open spec fn penalty_nat(d: nat, respond_time_ms: u128) -> nat {
    ((d / 1024) * capped_latency(respond_time_ms)) / 800
}

/// The score of a peer at distance `d`: distance plus penalty, on 256 bits.
pub open spec fn score_nat(d: nat, respond_time_ms: u128) -> nat {
    (d + penalty_nat(d, respond_time_ms)) % modulus()
}

/// The penalty never exceeds `d / 2^10`, and is zero for an unmeasured peer.
pub proof fn lemma_penalty_bound(d: nat, respond_time_ms: u128)
    ensures
        penalty_nat(d, respond_time_ms) <= d / 1024,
        respond_time_ms == 0 ==> penalty_nat(d, respond_time_ms) == 0,
        respond_time_ms >= 800 ==> penalty_nat(d, respond_time_ms) == d / 1024,
{
    let x = d / 1024;
    let t = capped_latency(respond_time_ms);
    assert(x * t <= x * 800) by (nonlinear_arith)
        requires
            t <= 800,
    ;
    assert((x * 800) / 800 == x) by (nonlinear_arith);
    assert((x * t) / 800 <= (x * 800) / 800) by (nonlinear_arith)
        requires
            x * t <= x * 800,
    ;
    if respond_time_ms == 0 {
        assert(x * 0 == 0);
    }
}

impl NodeEntry {
    /// The record with both caches filled for `target`.
    pub open spec fn scored(self, target: U256) -> NodeEntry {
        NodeEntry {
            id: self.id,
            addr: self.addr,
            score: U256::of_nat(score_nat(self.id.xor(target).to_nat(), self.respond_time_ms)),
            respond_time_ms: self.respond_time_ms,
            distance: self.id.xor(target),
        }
    }

    /// A record for a peer that answered a probe in `respond_time_ms`.
    pub fn new(id: U256, addr: Endpoint, respond_time_ms: u128) -> (entry: NodeEntry)
        ensures
            entry.id == id,
            entry.addr == addr,
            entry.respond_time_ms == respond_time_ms,
            entry.score.to_nat() == 0,
            entry.distance.to_nat() == 0,
    {
        NodeEntry { id, addr, score: U256::zero(), respond_time_ms, distance: U256::zero() }
    }

    /// The XOR distance from this peer to `target`.
    pub fn distance(&self, target: U256) -> (d: U256)
        ensures
            d == self.id.xor(target),
    {
        self.id ^ target
    }

    /// The penalty for the cached distance and the measured latency.
    fn time_penalty(&self) -> (penalty: U256)
        ensures
            penalty.to_nat() == penalty_nat(self.distance.to_nat(), self.respond_time_ms),
    {
        let by = U256::from(crate::DISTANCE_WEIGHT_SHIFT);
        proof {
            lemma_shift_amount(by);
            lemma2_to64();
        }
        let d_part = self.distance >> by;
        let t_max: u16 = crate::T_MAX_MS as u16;
        let t_norm: u16 = if self.respond_time_ms < t_max as u128 {
            self.respond_time_ms as u16
        } else {
            t_max
        };
        proof {
            let d = self.distance.to_nat();
            let x = d / 1024;
            U256::lemma_to_nat_bound(self.distance);
            lemma_pow256_is_pow2(32);
            lemma_pow2_adds(246, 10);
            lemma_fundamental_div_mod(d as int, 1024);
            let top = pow2(246);
            assert(x < top) by (nonlinear_arith)
                requires
                    d == 1024 * x + d % 1024,
                    d < top * 1024,
            ;
            assert(x * t_norm < modulus()) by (nonlinear_arith)
                requires
                    x < top,
                    t_norm <= 800,
                    modulus() == top * 1024,
            ;
            lemma_small_mod(x * (t_norm as nat), modulus());
        }
        d_part.mul_u16(t_norm).div_u16(t_max)
    }

    /// Fills the two caches for `target`: the distance, then the score.
    pub fn compute_score(&mut self, target: U256)
        ensures
            *final(self) == old(self).scored(target),
    {
        self.distance = self.distance(target);
        let penalty = self.time_penalty();
        self.score = self.distance + penalty;
        proof {
            let d = self.distance.to_nat();
            let raw = d + penalty_nat(d, self.respond_time_ms);
            U256::lemma_of_nat(score_nat(d, self.respond_time_ms));
            lemma_pow256_is_pow2(32);
            vstd::arithmetic::power2::lemma_pow2_pos(256);
            vstd::arithmetic::div_mod::lemma_mod_bound(raw as int, modulus() as int);
            lemma_small_mod(score_nat(d, self.respond_time_ms), modulus());
            U256::lemma_to_nat_injective(self.score, old(self).scored(target).score);
        }
    }
}

/// Scoring a record that was already scored for the same target changes nothing.
pub proof fn lemma_score_idempotent(entry: NodeEntry, target: U256)
    ensures
        entry.scored(target).scored(target) == entry.scored(target),
{
}

impl Default for NodeEntry {
    /// A record with every field at zero, at the unspecified IPv4 address.
    fn default() -> (entry: NodeEntry)
        ensures
            entry.id.to_nat() == 0,
            entry.addr == Endpoint::V4([0u8, 0u8, 0u8, 0u8], 0),
            entry.respond_time_ms == 0,
            entry.score.to_nat() == 0,
            entry.distance.to_nat() == 0,
    {
        NodeEntry::new(U256::zero(), Endpoint::V4([0, 0, 0, 0], 0), 0)
    }
}

impl PartialEq for NodeEntry {
    /// Two records are the same peer when their identifiers are equal.
    fn eq(&self, other: &NodeEntry) -> (r: bool) {
        self.id == other.id
    }
}

impl PartialEqSpecImpl for NodeEntry {
    open spec fn obeys_eq_spec() -> bool {
        true
    }

    open spec fn eq_spec(&self, other: &NodeEntry) -> bool {
        self.id == other.id
    }
}

impl Eq for NodeEntry {}

} // verus!
