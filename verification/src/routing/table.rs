//! The routing table: one bucket per bit of the distance to the local node.

use super::entry::NodeEntry;
use super::errors::RoutingError;
use super::kbucket::{
    contains_id, lemma_position, lemma_push_keeps_unique, lemma_refresh_keeps_unique,
    lemma_remove_keeps_unique, lemma_resolve_members, lemma_scored_all_ids,
    lemma_try_insert_members, position, resolve_entries, scored_all, try_insert_decision,
    try_insert_entries, unique_ids, InsertDecision, KBucket,
};
use super::prober::Prober;
use super::rank::{
    at_most, disjoint_ids, lemma_lowest, lemma_merge_lowest, lowest, merge_lowest, merge_ranked,
    sorted_by_score,
};
use crate::math::u256::bits::lemma_xor_zero_iff_equal;
use crate::math::u256::shift::lemma_pow256_is_pow2;
use crate::math::u256::U256;
use vstd::arithmetic::power2::{
    lemma2_to64, lemma_pow2_pos, lemma_pow2_strictly_increases, lemma_pow2_unfold, pow2,
};
use vstd::prelude::*;

verus! {

/// The distances that bucket `k` holds: those whose highest set bit is bit `k`.
pub open spec fn in_bucket(distance: nat, k: int) -> bool {
    0 <= k < 256 && pow2(k as nat) <= distance < pow2((k + 1) as nat)
}

/// A distance belongs to one bucket at most.
pub proof fn lemma_in_bucket_unique(distance: nat, k1: int, k2: int)
    requires
        in_bucket(distance, k1),
        in_bucket(distance, k2),
    ensures
        k1 == k2,
{
    if k1 < k2 {
        if k1 + 1 < k2 {
            lemma_pow2_strictly_increases((k1 + 1) as nat, k2 as nat);
        }
    } else if k2 < k1 {
        if k2 + 1 < k1 {
            lemma_pow2_strictly_increases((k2 + 1) as nat, k1 as nat);
        }
    }
}

/// Every number from one on lies between two consecutive powers of two.
pub proof fn lemma_between_powers(d: nat)
    requires
        d > 0,
    ensures
        exists|k: nat| pow2(k) <= d < #[trigger] pow2(k + 1),
    decreases d,
{
    lemma2_to64();
    if d == 1 {
        assert(pow2(0) <= d < pow2(0 + 1));
    } else {
        lemma_between_powers(d / 2);
        let k = choose|k: nat| pow2(k) <= d / 2 < #[trigger] pow2(k + 1);
        lemma_pow2_unfold(k + 1);
        lemma_pow2_unfold(k + 2);
        assert(pow2(k + 1) <= d < pow2(k + 1 + 1));
    }
}

/// Every distance but zero belongs to a bucket.
pub proof fn lemma_in_bucket_exists(distance: nat)
    requires
        0 < distance < pow2(256),
    ensures
        exists|k: int| in_bucket(distance, k),
{
    lemma_between_powers(distance);
    let k = choose|k: nat| pow2(k) <= distance < #[trigger] pow2(k + 1);
    if k > 256 {
        lemma_pow2_strictly_increases(256, k);
    }
    assert(in_bucket(distance, k as int));
}

/// The bucket of a peer other than the local node is the one its
/// distance belongs to.
pub proof fn lemma_bucket_index(local: U256, id: U256)
    requires
        id != local,
    ensures
        bucket_index(local, id) is Some,
        in_bucket(local.xor(id).to_nat(), bucket_index(local, id).unwrap()),
{
    let d = local.xor(id).to_nat();
    lemma_xor_zero_iff_equal(local, id);
    U256::lemma_to_nat_bound(local.xor(id));
    lemma_pow256_is_pow2(32);
    lemma_in_bucket_exists(d);
}

/// How many entries bucket `i` may hold.
pub open spec fn bucket_capacity(i: int) -> nat {
    if i == 0 {
        1
    } else if i == 1 {
        2
    } else if i == 2 {
        4
    } else if i == 3 {
        8
    } else {
        32
    }
}

/// The bucket for a peer: none for the local node itself, else the
/// position of the highest bit in which the two identifiers differ.
pub open spec fn bucket_index(local: U256, id: U256) -> Option<int> {
    if id == local {
        None
    } else {
        Some(choose|k: int| in_bucket(local.xor(id).to_nat(), k))
    }
}

/// The buckets after bucket `i` took note of `entry`.
pub open spec fn after_try_insert(buckets: Seq<Seq<NodeEntry>>, i: int, entry: NodeEntry) -> Seq<
    Seq<NodeEntry>,
> {
    buckets.update(i, try_insert_entries(buckets[i], bucket_capacity(i), entry))
}

/// The buckets after the probe of `oldest` in bucket `i` came back.
pub open spec fn after_resolve(
    buckets: Seq<Seq<NodeEntry>>,
    i: int,
    entry: NodeEntry,
    oldest: U256,
    alive: bool,
) -> Seq<Seq<NodeEntry>> {
    buckets.update(i, resolve_entries(buckets[i], bucket_capacity(i), entry, oldest, alive))
}

/// The buckets after a whole insertion into bucket `i`, given whether the
/// oldest entry answered its probe, should one have been needed.
pub open spec fn after_insert(
    buckets: Seq<Seq<NodeEntry>>,
    i: int,
    entry: NodeEntry,
    alive: bool,
) -> Seq<Seq<NodeEntry>> {
    match try_insert_decision(buckets[i], bucket_capacity(i), entry) {
        InsertDecision::PingOldest(oldest) => after_resolve(buckets, i, entry, oldest.id, alive),
        _ => after_try_insert(buckets, i, entry),
    }
}

/// The best `alpha` entries of one bucket for `target`.
pub open spec fn best_of(bucket: Seq<NodeEntry>, alpha: nat, target: U256) -> Seq<NodeEntry> {
    lowest(scored_all(bucket, target), alpha)
}

/// The running list of a lookup that started at bucket `start` and has
/// gone `d` buckets outwards: at each step the bucket below, then the
/// bucket above, are merged in, as long as the list is short of `alpha`.
pub open spec fn walk(
    buckets: Seq<Seq<NodeEntry>>,
    alpha: nat,
    target: U256,
    start: int,
    d: nat,
) -> Seq<NodeEntry>
    decreases d,
{
    if d == 0 {
        best_of(buckets[start], alpha, target)
    } else {
        let r0 = walk(buckets, alpha, target, start, (d - 1) as nat);
        if r0.len() >= alpha {
            r0
        } else {
            let r1 = if start - d >= 0 {
                merge_lowest(r0, best_of(buckets[start - d], alpha, target), alpha)
            } else {
                r0
            };
            if r1.len() >= alpha || start + d >= 256 {
                r1
            } else {
                merge_lowest(r1, best_of(buckets[start + d], alpha, target), alpha)
            }
        }
    }
}

/// What a lookup returns: the walk from the bucket of `target` (bucket 0
/// when the target is the local node) across the whole table.
pub open spec fn closest_spec(
    buckets: Seq<Seq<NodeEntry>>,
    local: U256,
    alpha: nat,
    target: U256,
) -> Seq<NodeEntry> {
    let start = match bucket_index(local, target) {
        Some(i) => i,
        None => 0,
    };
    walk(buckets, alpha, target, start, 255)
}

/// How many entries the buckets `lo..hi` hold together.
pub open spec fn range_len(buckets: Seq<Seq<NodeEntry>>, lo: int, hi: int) -> nat
    decreases hi - lo,
{
    if hi <= lo {
        0
    } else {
        range_len(buckets, lo, hi - 1) + buckets[hi - 1].len()
    }
}

/// How many entries the table holds.
pub open spec fn total_entries(buckets: Seq<Seq<NodeEntry>>) -> nat {
    range_len(buckets, 0, 256)
}

/// A range of buckets holds what its first bucket and the rest hold.
pub proof fn lemma_range_len_left(buckets: Seq<Seq<NodeEntry>>, lo: int, hi: int)
    requires
        lo < hi,
    ensures
        range_len(buckets, lo, hi) == buckets[lo].len() + range_len(buckets, lo + 1, hi),
    decreases hi - lo,
{
    if lo + 1 < hi {
        lemma_range_len_left(buckets, lo, hi - 1);
        assert(range_len(buckets, lo + 1, hi) == range_len(buckets, lo + 1, hi - 1) + buckets[hi
            - 1].len());
    } else {
        assert(range_len(buckets, lo, hi - 1) == 0);
        assert(range_len(buckets, lo + 1, hi) == 0);
    }
}

/// A wider range of buckets holds at least as much.
pub proof fn lemma_range_len_grows(buckets: Seq<Seq<NodeEntry>>, lo: int, hi: int, top: int)
    requires
        lo <= hi <= top,
    ensures
        range_len(buckets, lo, hi) <= range_len(buckets, lo, top),
    decreases top - hi,
{
    if hi < top {
        lemma_range_len_grows(buckets, lo, hi, top - 1);
    }
}

/// What `RoutingTable::inv` says, of the buckets alone.
pub open spec fn table_inv(buckets: Seq<Seq<NodeEntry>>, local: U256) -> bool {
    &&& buckets.len() == 256
    &&& forall|i: int|
        0 <= i < 256 ==> (#[trigger] buckets[i]).len() <= bucket_capacity(i) && unique_ids(
            buckets[i],
        )
    &&& forall|i: int, j: int|
        0 <= i < 256 && 0 <= j < buckets[i].len() ==> in_bucket(
            local.xor((#[trigger] buckets[i][j]).id).to_nat(),
            i,
        )
}

/// Every entry of `r` belongs, by its distance to the local node, to one
/// of the buckets `lo..=hi`.
pub open spec fn within(r: Seq<NodeEntry>, local: U256, lo: int, hi: int) -> bool {
    forall|k: int|
        0 <= k < r.len() ==> exists|b: int|
            lo <= b <= hi && in_bucket(local.xor((#[trigger] r[k]).id).to_nat(), b)
}

/// The best entries of one bucket: ranked, as many as asked for or as
/// the bucket holds, with distinct identifiers, all of that bucket.
pub proof fn lemma_best_of(
    buckets: Seq<Seq<NodeEntry>>,
    local: U256,
    alpha: nat,
    target: U256,
    b: int,
)
    requires
        table_inv(buckets, local),
        0 <= b < 256,
    ensures
        sorted_by_score(best_of(buckets[b], alpha, target)),
        unique_ids(best_of(buckets[b], alpha, target)),
        best_of(buckets[b], alpha, target).len() == at_most(alpha, buckets[b].len()),
        within(best_of(buckets[b], alpha, target), local, b, b),
{
    let all = scored_all(buckets[b], target);
    let r = best_of(buckets[b], alpha, target);
    lemma_scored_all_ids(buckets[b], target);
    lemma_lowest(all, alpha);
    assert forall|k: int| 0 <= k < r.len() implies exists|c: int|
        b <= c <= b && in_bucket(local.xor((#[trigger] r[k]).id).to_nat(), c) by {
        assert(all.contains(r[k]));
        let w = choose|w: int| 0 <= w < all.len() && all[w] == r[k];
        assert(all[w].id == buckets[b][w].id);
        assert(in_bucket(local.xor(buckets[b][w].id).to_nat(), b));
    }
}

/// Merging in the best of a bucket outside the range walked so far keeps
/// the list ranked and its identifiers distinct, and counts what it holds.
pub proof fn lemma_merge_bucket(
    buckets: Seq<Seq<NodeEntry>>,
    local: U256,
    alpha: nat,
    target: U256,
    r0: Seq<NodeEntry>,
    lo: int,
    hi: int,
    b: int,
)
    requires
        table_inv(buckets, local),
        0 <= lo <= hi < 256,
        0 <= b < 256,
        b == lo - 1 || b == hi + 1,
        sorted_by_score(r0),
        unique_ids(r0),
        within(r0, local, lo, hi),
    ensures
        sorted_by_score(merge_lowest(r0, best_of(buckets[b], alpha, target), alpha)),
        unique_ids(merge_lowest(r0, best_of(buckets[b], alpha, target), alpha)),
        merge_lowest(r0, best_of(buckets[b], alpha, target), alpha).len() == at_most(
            alpha,
            r0.len() + at_most(alpha, buckets[b].len()),
        ),
        within(
            merge_lowest(r0, best_of(buckets[b], alpha, target), alpha),
            local,
            if b < lo { b } else { lo },
            if b > hi { b } else { hi },
        ),
{
    let inc = best_of(buckets[b], alpha, target);
    let r = merge_lowest(r0, inc, alpha);
    let nlo = if b < lo { b } else { lo };
    let nhi = if b > hi { b } else { hi };
    lemma_best_of(buckets, local, alpha, target, b);
    assert(disjoint_ids(r0, inc)) by {
        assert forall|i: int, j: int| 0 <= i < r0.len() && 0 <= j < inc.len() implies r0[i].id
            != inc[j].id by {
            let c = choose|c: int| lo <= c <= hi && in_bucket(local.xor(r0[i].id).to_nat(), c);
            let e = choose|e: int| b <= e <= b && in_bucket(local.xor(inc[j].id).to_nat(), e);
            if r0[i].id == inc[j].id {
                lemma_in_bucket_unique(local.xor(r0[i].id).to_nat(), c, e);
            }
        }
    }
    lemma_merge_lowest(r0, inc, alpha);
    assert forall|k: int| 0 <= k < r.len() implies exists|c: int|
        nlo <= c <= nhi && in_bucket(local.xor((#[trigger] r[k]).id).to_nat(), c) by {
        assert((r0 + inc).contains(r[k]));
        let w = choose|w: int| 0 <= w < (r0 + inc).len() && (r0 + inc)[w] == r[k];
        if w < r0.len() {
            assert(r0[w] == r[k]);
            let c = choose|c: int| lo <= c <= hi && in_bucket(local.xor(r0[w].id).to_nat(), c);
            assert(nlo <= c <= nhi);
        } else {
            let x = inc[w - r0.len()];
            assert(x == r[k]);
            let e = choose|e: int| b <= e <= b && in_bucket(local.xor(x.id).to_nat(), e);
            assert(nlo <= e <= nhi);
        }
    }
}

/// The lowest bucket a walk of `d` steps from `start` has reached.
pub open spec fn walk_lo(start: int, d: nat) -> int {
    if start - d >= 0 {
        start - d
    } else {
        0
    }
}

/// The highest bucket a walk of `d` steps from `start` has reached.
pub open spec fn walk_hi(start: int, d: nat) -> int {
    if start + d <= 255 {
        start + d
    } else {
        255
    }
}

/// What holds of the running list of a lookup at every step: it is
/// ranked, its identifiers are distinct, its entries belong to the buckets
/// reached, and it holds `alpha` entries or all that those buckets hold.
pub proof fn lemma_walk(
    buckets: Seq<Seq<NodeEntry>>,
    local: U256,
    alpha: nat,
    target: U256,
    start: int,
    d: nat,
)
    requires
        table_inv(buckets, local),
        0 <= start < 256,
    ensures
        sorted_by_score(walk(buckets, alpha, target, start, d)),
        unique_ids(walk(buckets, alpha, target, start, d)),
        within(walk(buckets, alpha, target, start, d), local, walk_lo(start, d), walk_hi(start, d)),
        walk(buckets, alpha, target, start, d).len() == at_most(
            alpha,
            range_len(buckets, walk_lo(start, d), walk_hi(start, d) + 1),
        ),
    decreases d,
{
    if d == 0 {
        lemma_best_of(buckets, local, alpha, target, start);
        assert(range_len(buckets, start, start + 1) == buckets[start].len()) by {
            assert(range_len(buckets, start, start) == 0);
        }
    } else {
        let p = (d - 1) as nat;
        lemma_walk(buckets, local, alpha, target, start, p);
        let r0 = walk(buckets, alpha, target, start, p);
        let lo0 = walk_lo(start, p);
        let hi0 = walk_hi(start, p);
        let lo = walk_lo(start, d);
        let hi = walk_hi(start, d);
        // what the wider range holds, in terms of the narrower
        let t0 = range_len(buckets, lo0, hi0 + 1);
        let left = if start - d >= 0 { buckets[start - d].len() } else { 0 };
        let right = if start + d <= 255 { buckets[start + d].len() } else { 0 };
        assert(range_len(buckets, lo, hi0 + 1) == left + t0) by {
            if start - d >= 0 {
                lemma_range_len_left(buckets, lo, hi0 + 1);
            }
        }
        assert(range_len(buckets, lo, hi + 1) == left + t0 + right);
        if r0.len() >= alpha {
            assert(within(r0, local, lo, hi)) by {
                assert forall|k: int| 0 <= k < r0.len() implies exists|c: int|
                    lo <= c <= hi && in_bucket(local.xor((#[trigger] r0[k]).id).to_nat(), c) by {
                    let c = choose|c: int|
                        lo0 <= c <= hi0 && in_bucket(local.xor(r0[k].id).to_nat(), c);
                    assert(lo <= c <= hi);
                }
            }
        } else {
            let r1 = if start - d >= 0 {
                merge_lowest(r0, best_of(buckets[start - d], alpha, target), alpha)
            } else {
                r0
            };
            if start - d >= 0 {
                lemma_merge_bucket(buckets, local, alpha, target, r0, lo0, hi0, start - d);
            }
            assert(within(r1, local, lo, hi0));
            assert(r1.len() == at_most(alpha, left + t0));
            if r1.len() >= alpha || start + d >= 256 {
                assert(within(r1, local, lo, hi)) by {
                    assert forall|k: int| 0 <= k < r1.len() implies exists|c: int|
                        lo <= c <= hi && in_bucket(
                            local.xor((#[trigger] r1[k]).id).to_nat(),
                            c,
                        ) by {
                        let c = choose|c: int|
                            lo <= c <= hi0 && in_bucket(local.xor(r1[k].id).to_nat(), c);
                        assert(lo <= c <= hi);
                    }
                }
            } else {
                lemma_merge_bucket(buckets, local, alpha, target, r1, lo, hi0, start + d);
            }
        }
    }
}

/// Once the running list holds `alpha` entries, walking on changes nothing.
pub proof fn lemma_walk_stable(
    buckets: Seq<Seq<NodeEntry>>,
    alpha: nat,
    target: U256,
    start: int,
    d: nat,
    later: nat,
)
    requires
        d <= later,
        walk(buckets, alpha, target, start, d).len() >= alpha,
    ensures
        walk(buckets, alpha, target, start, later) == walk(buckets, alpha, target, start, d),
    decreases later,
{
    if d < later {
        lemma_walk_stable(buckets, alpha, target, start, d, (later - 1) as nat);
    }
}

/// An entry of the table is not the local node, and sits in the bucket of
/// its identifier.
pub proof fn lemma_stored_entry(buckets: Seq<Seq<NodeEntry>>, local: U256, i: int, j: int)
    requires
        table_inv(buckets, local),
        0 <= i < 256,
        0 <= j < buckets[i].len(),
    ensures
        buckets[i][j].id != local,
        bucket_index(local, buckets[i][j].id) == Some(i),
{
    let id = buckets[i][j].id;
    let d = local.xor(id).to_nat();
    assert(in_bucket(d, i));
    lemma_pow2_pos(i as nat);
    lemma_xor_zero_iff_equal(local, id);
    lemma_bucket_index(local, id);
    lemma_in_bucket_unique(d, i, bucket_index(local, id).unwrap());
}

/// No identifier is stored twice in the whole table.
pub proof fn lemma_stored_once(
    buckets: Seq<Seq<NodeEntry>>,
    local: U256,
    i1: int,
    j1: int,
    i2: int,
    j2: int,
)
    requires
        table_inv(buckets, local),
        0 <= i1 < 256,
        0 <= j1 < buckets[i1].len(),
        0 <= i2 < 256,
        0 <= j2 < buckets[i2].len(),
        buckets[i1][j1].id == buckets[i2][j2].id,
    ensures
        i1 == i2,
        j1 == j2,
{
    lemma_stored_entry(buckets, local, i1, j1);
    lemma_stored_entry(buckets, local, i2, j2);
}

/// After an insertion the peer is in the bucket of its identifier, unless
/// that bucket was full of other peers and its oldest entry answered the
/// probe, in which case the table is as it was.
pub proof fn lemma_insert_places_entry(
    buckets: Seq<Seq<NodeEntry>>,
    local: U256,
    entry: NodeEntry,
    alive: bool,
)
    requires
        table_inv(buckets, local),
        entry.id != local,
    ensures
        ({
            let i = bucket_index(local, entry.id).unwrap();
            let full = try_insert_decision(buckets[i], bucket_capacity(i), entry)
                is PingOldest;
            &&& bucket_index(local, entry.id) is Some
            &&& 0 <= i < 256
            &&& table_inv(after_insert(buckets, i, entry, alive), local)
            &&& full && alive ==> after_insert(buckets, i, entry, alive) == buckets
            &&& !(full && alive) ==> contains_id(after_insert(buckets, i, entry, alive)[i], entry.id)
        }),
{
    lemma_bucket_index(local, entry.id);
    let i = bucket_index(local, entry.id).unwrap();
    let s = buckets[i];
    let cap = bucket_capacity(i);
    let out = after_insert(buckets, i, entry, alive);
    lemma_position(s, entry.id);
    let p = position(s, entry.id);
    match try_insert_decision(s, cap, entry) {
        InsertDecision::PingOldest(oldest) => {
            lemma_resolve_members(s, cap, entry, oldest.id, alive);
            lemma_position(s, oldest.id);
            assert(contains_id(s, s[0].id));
            if alive {
                assert(out =~= buckets);
            } else {
                let q = position(s, oldest.id);
                let t = s.remove(q);
                lemma_remove_keeps_unique(s, q);
                assert(!contains_id(t, entry.id)) by {
                    if contains_id(t, entry.id) {
                        let w = choose|w: int| 0 <= w < t.len() && t[w].id == entry.id;
                        let sw = if w < q { w } else { w + 1 };
                        assert(s[sw].id == entry.id);
                    }
                }
                lemma_push_keeps_unique(t, entry);
                assert(out[i] == t.push(entry));
                assert(out[i][t.len() as int].id == entry.id);
            }
        },
        InsertDecision::Refreshed => {
            lemma_try_insert_members(s, cap, entry);
            lemma_refresh_keeps_unique(s, p);
            assert(out[i][s.len() - 1].id == entry.id);
        },
        InsertDecision::Inserted => {
            lemma_try_insert_members(s, cap, entry);
            lemma_push_keeps_unique(s, entry);
            assert(out[i][s.len() as int].id == entry.id);
        },
    }
    assert forall|b: int, j: int| 0 <= b < 256 && 0 <= j < out[b].len() implies in_bucket(
        local.xor((#[trigger] out[b][j]).id).to_nat(),
        b,
    ) by {
        if b == i {
            let e = out[b][j];
            if s.contains(e) {
                let w = choose|w: int| 0 <= w < s.len() && s[w] == e;
                assert(buckets[b][w].id == e.id);
            }
        } else {
            assert(out[b][j] == buckets[b][j]);
        }
    }
    assert forall|b: int| 0 <= b < 256 implies (#[trigger] out[b]).len() <= bucket_capacity(b)
        && unique_ids(out[b]) by {
        if b != i {
            assert(out[b] == buckets[b]);
        }
    }
}

/// 256 buckets, indexed by the position of the highest bit in which a
/// peer's identifier differs from the local one.
pub struct RoutingTable {
    local_id: U256,
    buckets: Vec<KBucket>,
}

impl View for RoutingTable {
    type V = Seq<Seq<NodeEntry>>;

    /// The entries of each bucket, least recently seen first.
    closed spec fn view(&self) -> Seq<Seq<NodeEntry>> {
        Seq::new(self.buckets@.len(), |i: int| self.buckets@[i]@)
    }
}

impl RoutingTable {
    /// The identifier of the local node.
    pub closed spec fn local_id(&self) -> U256 {
        self.local_id
    }

    /// What holds of the entries: each bucket holds no more than its
    /// capacity and no identifier twice, and every entry is in the bucket
    /// of its distance to the local node.
    pub open spec fn inv(&self) -> bool {
        table_inv(self@, self.local_id())
    }

    /// The table is made of 256 valid buckets of the right capacities, and
    /// `inv` holds.
    pub closed spec fn wf(&self) -> bool {
        &&& self.buckets@.len() == 256
        &&& forall|i: int|
            0 <= i < 256 ==> (#[trigger] self.buckets@[i]).wf() && self.buckets@[i].capacity()
                == bucket_capacity(i)
        &&& self.inv()
    }

    /// A valid table satisfies `inv`.
    pub proof fn lemma_wf_inv(&self)
        requires
            self.wf(),
        ensures
            self.inv(),
    {
    }

    /// An empty table for the node `id`.
    pub fn new_from_id(id: U256) -> (table: RoutingTable)
        ensures
            table.wf(),
            table.local_id() == id,
            forall|i: int| 0 <= i < 256 ==> (#[trigger] table@[i]).len() == 0,
    {
        let mut buckets: Vec<KBucket> = Vec::with_capacity(crate::N_BUCKETS);
        let mut i: usize = 0;
        while i < crate::N_BUCKETS
            invariant
                i <= 256,
                buckets@.len() == i,
                forall|k: int|
                    0 <= k < i ==> (#[trigger] buckets@[k]).wf() && buckets@[k].capacity()
                        == bucket_capacity(k) && buckets@[k]@.len() == 0,
            decreases 256 - i,
        {
            let size: usize = if i < crate::SMALL_BUCKET_COUNT {
                if i == 0 {
                    1
                } else if i == 1 {
                    2
                } else if i == 2 {
                    4
                } else {
                    8
                }
            } else {
                crate::KUSIZE
            };
            buckets.push(KBucket::new(size));
            i += 1;
        }
        RoutingTable { local_id: id, buckets }
    }

    /// The identifier of the local node.
    pub fn local(&self) -> (id: U256)
        ensures
            id == self.local_id(),
    {
        self.local_id
    }

    /// Bucket `i`, for `i` below 256.
    pub fn bucket(&self, i: usize) -> (found: Option<&KBucket>)
        requires
            self.wf(),
        ensures
            i >= 256 <==> found is None,
            found matches Some(b) ==> b.wf() && b@ == self@[i as int] && b.capacity()
                == bucket_capacity(i as int),
    {
        if i < self.buckets.len() {
            Some(&self.buckets[i])
        } else {
            None
        }
    }

    /// The bucket for `target`: none if it is the local node itself.
    pub fn find_corresponding_bucket(&self, target: U256) -> (found: Option<usize>)
        ensures
            match found {
                Some(i) => bucket_index(self.local_id(), target) == Some(i as int) && in_bucket(
                    self.local_id().xor(target).to_nat(),
                    i as int,
                ),
                None => target == self.local_id(),
            },
    {
        let distance = self.local_id ^ target;
        let zeros = distance.leading_zeros();
        proof {
            lemma_xor_zero_iff_equal(self.local_id, target);
        }
        if zeros == 256 {
            return None;
        }
        let i = (255 - zeros) as usize;
        proof {
            let d = distance.to_nat();
            assert(in_bucket(d, i as int));
            let k = choose|k: int| in_bucket(d, k);
            lemma_in_bucket_unique(d, i as int, k);
        }
        Some(i)
    }

    /// First half of an insertion: lets the bucket of `entry` take note of
    /// it. When the answer is `PingOldest`, nothing has changed and the
    /// caller probes the entry named, then calls `finish_insert`.
    pub fn begin_insert(&mut self, entry: NodeEntry) -> (r: Result<InsertDecision, RoutingError>)
        requires
            old(self).wf(),
        ensures
            final(self).wf(),
            final(self).local_id() == old(self).local_id(),
            match bucket_index(old(self).local_id(), entry.id) {
                None => r == Err::<InsertDecision, RoutingError>(RoutingError::SelfNode)
                    && final(self)@ == old(self)@,
                Some(i) => 0 <= i < 256 && r == Ok::<InsertDecision, RoutingError>(
                    try_insert_decision(old(self)@[i], bucket_capacity(i), entry),
                ) && final(self)@ == after_try_insert(old(self)@, i, entry),
            },
    {
        let i = match self.find_corresponding_bucket(entry.id) {
            Some(i) => i,
            None => {
                return Err(RoutingError::SelfNode);
            },
        };
        let ghost before = self@;
        let decision = self.buckets[i].try_insert(entry);
        proof {
            assert(self@ =~= after_try_insert(before, i as int, entry));
            lemma_try_insert_members(before[i as int], bucket_capacity(i as int), entry);
            assert forall|b: int, j: int| 0 <= b < 256 && 0 <= j < self@[b].len() implies in_bucket(
                self.local_id().xor((#[trigger] self@[b][j]).id).to_nat(),
                b,
            ) by {
                if b == i {
                    let e = self@[b][j];
                    if before[b].contains(e) {
                        let w = choose|w: int| 0 <= w < before[b].len() && before[b][w] == e;
                        assert(before[b][w].id == e.id);
                    }
                } else {
                    assert(self@[b][j] == before[b][j]);
                }
            }
        }
        Ok(decision)
    }

    /// Second half of an insertion, once the probe of `oldest` came back:
    /// a live oldest entry keeps its place and `entry` is dropped; a dead
    /// one leaves, and `entry` goes to the back if there is room and it is
    /// not there yet.
    pub fn finish_insert(&mut self, entry: NodeEntry, oldest: NodeEntry, alive: bool) -> (r: Result<
        (),
        RoutingError,
    >)
        requires
            old(self).wf(),
        ensures
            final(self).wf(),
            final(self).local_id() == old(self).local_id(),
            match bucket_index(old(self).local_id(), entry.id) {
                None => r == Err::<(), RoutingError>(RoutingError::SelfNode)
                    && final(self)@ == old(self)@,
                Some(i) => 0 <= i < 256 && r is Ok && final(self)@ == after_resolve(
                    old(self)@,
                    i,
                    entry,
                    oldest.id,
                    alive,
                ),
            },
    {
        let i = match self.find_corresponding_bucket(entry.id) {
            Some(i) => i,
            None => {
                return Err(RoutingError::SelfNode);
            },
        };
        let ghost before = self@;
        if !alive {
            let _ = self.buckets[i].remove(oldest.id);
            if !self.buckets[i].is_full() && !self.buckets[i].contains(&entry.id) {
                self.buckets[i].force_insert(entry);
            }
        }
        proof {
            assert(self@ =~= after_resolve(before, i as int, entry, oldest.id, alive));
            lemma_resolve_members(
                before[i as int],
                bucket_capacity(i as int),
                entry,
                oldest.id,
                alive,
            );
            assert forall|b: int, j: int| 0 <= b < 256 && 0 <= j < self@[b].len() implies in_bucket(
                self.local_id().xor((#[trigger] self@[b][j]).id).to_nat(),
                b,
            ) by {
                if b == i {
                    let e = self@[b][j];
                    if before[b].contains(e) {
                        let w = choose|w: int| 0 <= w < before[b].len() && before[b][w] == e;
                        assert(before[b][w].id == e.id);
                    }
                } else {
                    assert(self@[b][j] == before[b][j]);
                }
            }
        }
        Ok(())
    }

    /// Inserts `entry`, probing the oldest entry of its bucket when the
    /// bucket is full. Whatever the probe answers, the table ends in one of
    /// the two states that `after_insert` describes.
    pub fn insert<P: Prober>(&mut self, entry: NodeEntry, prober: &mut P) -> (r: Result<
        (),
        RoutingError,
    >)
        requires
            old(self).wf(),
        ensures
            final(self).wf(),
            final(self).local_id() == old(self).local_id(),
            match bucket_index(old(self).local_id(), entry.id) {
                None => r == Err::<(), RoutingError>(RoutingError::SelfNode)
                    && final(self)@ == old(self)@,
                Some(i) => 0 <= i < 256 && r is Ok && (final(self)@ == after_insert(
                    old(self)@,
                    i,
                    entry,
                    true,
                )
                    || final(self)@ == after_insert(old(self)@, i, entry, false)),
            },
    {
        let ghost before = self@;
        let decision = match self.begin_insert(entry) {
            Ok(decision) => decision,
            Err(e) => {
                return Err(e);
            },
        };
        match decision {
            InsertDecision::PingOldest(oldest) => {
                proof {
                    let i = bucket_index(self.local_id(), entry.id).unwrap();
                    assert(try_insert_entries(before[i], bucket_capacity(i), entry) == before[i]);
                    assert(self@ =~= before);
                }
                let alive = prober.probe(oldest.addr).is_ok();
                self.finish_insert(entry, oldest, alive)
            },
            _ => Ok(()),
        }
    }

    /// The `alpha` known peers closest to `target` by score, closest
    /// first: the best of the bucket of `target`, then of its neighbours
    /// below and above, ever further out, until `alpha` are found or the
    /// table is exhausted. The entries returned are copies scored for
    /// `target`.
    pub fn get_closests(&self, alpha: usize, target: U256) -> (out: Vec<NodeEntry>)
        requires
            self.wf(),
        ensures
            out@ == closest_spec(self@, self.local_id(), alpha as nat, target),
            sorted_by_score(out@),
            unique_ids(out@),
            out@.len() == at_most(alpha as nat, total_entries(self@)),
    {
        let start: usize = match self.find_corresponding_bucket(target) {
            Some(i) => i,
            None => 0,
        };
        let mut closests = self.buckets[start].select_n_closests(alpha, target);
        let mut d: usize = 1;
        while d < crate::N_BUCKETS && closests.len() < alpha
            invariant
                self.wf(),
                start < 256,
                1 <= d <= 256,
                closests@ == walk(self@, alpha as nat, target, start as int, (d - 1) as nat),
            decreases 256 - d,
        {
            if start >= d {
                let other = self.buckets[start - d].select_n_closests(alpha, target);
                closests = merge_ranked(&closests, &other, alpha);
            }
            if closests.len() < alpha && start + d < crate::N_BUCKETS {
                let other = self.buckets[start + d].select_n_closests(alpha, target);
                closests = merge_ranked(&closests, &other, alpha);
            }
            d += 1;
        }
        proof {
            let reached = (d - 1) as nat;
            if reached < 255 {
                lemma_walk_stable(self@, alpha as nat, target, start as int, reached, 255);
            }
            lemma_walk(self@, self.local_id(), alpha as nat, target, start as int, 255);
            let lo = walk_lo(start as int, 255);
            let hi = walk_hi(start as int, 255);
            assert(lo == 0 && hi == 255);
        }
        closests
    }
}

} // verus!
