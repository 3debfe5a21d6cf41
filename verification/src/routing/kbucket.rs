//! A k-bucket: a bounded list of peers, least recently seen first.

use super::entry::NodeEntry;
use super::errors::BucketError;
use super::rank::{
    at_most, drawn_from, insert_ranked, lemma_lowest, lowest, sorted_by_score,
};
use crate::math::u256::U256;
use std::collections::VecDeque;
use vstd::prelude::*;

verus! {

/// What `try_insert` decided.
#[derive(Clone, Copy, Debug)]
pub enum InsertDecision {
    /// The peer was new and there was room: it is now at the back.
    Inserted,
    /// The peer was new and the bucket full: nothing changed, and the
    /// oldest entry, handed back here, is to be probed.
    PingOldest(NodeEntry),
    /// The peer was known: its entry moved to the back.
    Refreshed,
}

/// A bounded list of peers with distinct identifiers; the front is the
/// least recently seen, the back the most recently seen.
pub struct KBucket {
    entries: VecDeque<NodeEntry>,
    capacity: usize,
}

/// No identifier occurs twice.
pub open spec fn unique_ids(s: Seq<NodeEntry>) -> bool {
    forall|i: int, j: int| 0 <= i < j < s.len() ==> s[i].id != s[j].id
}

/// Some entry has this identifier.
pub open spec fn contains_id(s: Seq<NodeEntry>, id: U256) -> bool {
    exists|i: int| 0 <= i < s.len() && s[i].id == id
}

/// The index of the first entry with this identifier, or the length.
pub open spec fn position(s: Seq<NodeEntry>, id: U256) -> int
    decreases s.len(),
{
    if s.len() == 0 {
        0
    } else if s[0].id == id {
        0
    } else {
        1 + position(s.drop_first(), id)
    }
}

/// `position` is the first index that holds the identifier.
pub proof fn lemma_position(s: Seq<NodeEntry>, id: U256)
    ensures
        0 <= position(s, id) <= s.len(),
        position(s, id) < s.len() ==> s[position(s, id)].id == id,
        forall|i: int| 0 <= i < position(s, id) ==> s[i].id != id,
        position(s, id) < s.len() <==> contains_id(s, id),
    decreases s.len(),
{
    if s.len() > 0 && s[0].id != id {
        let t = s.drop_first();
        lemma_position(t, id);
        assert forall|i: int| 0 <= i < position(s, id) implies s[i].id != id by {
            if i > 0 {
                assert(s[i] == t[i - 1]);
            }
        }
        if position(t, id) < t.len() {
            assert(s[position(s, id)] == t[position(t, id)]);
        }
        if contains_id(s, id) {
            let w = choose|i: int| 0 <= i < s.len() && s[i].id == id;
            assert(t[w - 1].id == id);
        }
    }
}

/// The list after `try_insert`.
pub open spec fn try_insert_entries(s: Seq<NodeEntry>, capacity: nat, entry: NodeEntry) -> Seq<
    NodeEntry,
> {
    let p = position(s, entry.id);
    if p < s.len() {
        s.remove(p).push(s[p])
    } else if s.len() < capacity {
        s.push(entry)
    } else {
        s
    }
}

/// The list after the probe of the oldest entry of a full bucket came
/// back: unchanged when it is alive; else without the entry named
/// `oldest`, and with `entry` at the back if there is room and it is new.
pub open spec fn resolve_entries(
    s: Seq<NodeEntry>,
    capacity: nat,
    entry: NodeEntry,
    oldest: U256,
    alive: bool,
) -> Seq<NodeEntry> {
    if alive {
        s
    } else {
        let t = if contains_id(s, oldest) {
            s.remove(position(s, oldest))
        } else {
            s
        };
        if t.len() < capacity && !contains_id(t, entry.id) {
            t.push(entry)
        } else {
            t
        }
    }
}

/// What `try_insert` answers.
pub open spec fn try_insert_decision(
    s: Seq<NodeEntry>,
    capacity: nat,
    entry: NodeEntry,
) -> InsertDecision {
    if position(s, entry.id) < s.len() {
        InsertDecision::Refreshed
    } else if s.len() < capacity {
        InsertDecision::Inserted
    } else {
        InsertDecision::PingOldest(s[0])
    }
}

/// The entries with both caches filled for `target`.
pub open spec fn scored_all(entries: Seq<NodeEntry>, target: U256) -> Seq<NodeEntry> {
    Seq::new(entries.len(), |i: int| entries[i].scored(target))
}

/// Scoring keeps the identifiers, hence their being distinct.
pub proof fn lemma_scored_all_ids(entries: Seq<NodeEntry>, target: U256)
    ensures
        scored_all(entries, target).len() == entries.len(),
        forall|i: int|
            0 <= i < entries.len() ==> (#[trigger] scored_all(entries, target)[i]).id
                == entries[i].id,
        unique_ids(entries) ==> unique_ids(scored_all(entries, target)),
{
}

impl View for KBucket {
    type V = Seq<NodeEntry>;

    /// The entries, least recently seen first.
    closed spec fn view(&self) -> Seq<NodeEntry> {
        self.entries@
    }
}

impl KBucket {
    /// How many entries the bucket may hold.
    pub closed spec fn capacity(&self) -> nat {
        self.capacity as nat
    }

    /// The bucket has room for at least one entry, holds no more than its
    /// capacity, and no identifier twice.
    pub open spec fn wf(&self) -> bool {
        &&& 1 <= self.capacity()
        &&& self@.len() <= self.capacity()
        &&& unique_ids(self@)
    }

    /// An empty bucket for up to `capacity` entries.
    pub fn new(capacity: usize) -> (bucket: KBucket)
        requires
            capacity >= 1,
        ensures
            bucket.wf(),
            bucket@.len() == 0,
            bucket.capacity() == capacity,
    {
        KBucket { entries: VecDeque::with_capacity(capacity), capacity }
    }

    /// How many entries the bucket holds.
    pub fn len(&self) -> (n: usize)
        ensures
            n == self@.len(),
    {
        self.entries.len()
    }

    /// How many entries the bucket may hold.
    pub fn limit(&self) -> (n: usize)
        ensures
            n == self.capacity(),
    {
        self.capacity
    }

    /// A copy of the entries, least recently seen first.
    pub fn entries(&self) -> (out: Vec<NodeEntry>)
        ensures
            out@ == self@,
    {
        let mut out: Vec<NodeEntry> = Vec::with_capacity(self.entries.len());
        let n = self.entries.len();
        let mut i: usize = 0;
        while i < n
            invariant
                i <= n == self@.len(),
                out@ == self@.take(i as int),
            decreases n - i,
        {
            out.push(self.entries[i]);
            proof {
                assert(out@ =~= self@.take(i + 1));
            }
            i += 1;
        }
        proof {
            assert(self@.take(n as int) =~= self@);
        }
        out
    }

    /// Whether the bucket holds as many entries as it may.
    pub fn is_full(&self) -> (full: bool)
        ensures
            full == (self@.len() == self.capacity()),
    {
        self.entries.len() == self.capacity
    }

    /// Whether some entry has this identifier.
    pub fn contains(&self, id: &U256) -> (found: bool)
        ensures
            found == contains_id(self@, *id),
    {
        proof {
            lemma_position(self@, *id);
        }
        self.find(id).is_some()
    }

    /// The index of the entry with this identifier, if there is one.
    fn find(&self, id: &U256) -> (found: Option<usize>)
        ensures
            match found {
                Some(p) => p == position(self@, *id) && p < self@.len(),
                None => position(self@, *id) == self@.len(),
            },
    {
        let n = self.entries.len();
        let mut i: usize = 0;
        proof {
            lemma_position(self@, *id);
        }
        while i < n
            invariant
                i <= n == self@.len(),
                i <= position(self@, *id) <= self@.len(),
                position(self@, *id) < self@.len() ==> self@[position(self@, *id)].id == *id,
                forall|j: int| 0 <= j < position(self@, *id) ==> self@[j].id != *id,
            decreases n - i,
        {
            if self.entries[i].id == *id {
                return Some(i);
            }
            i += 1;
        }
        None
    }

    /// Takes note of a peer: refreshes it if known, appends it if there is
    /// room, and otherwise leaves the bucket as it is and names the oldest
    /// entry.
    pub fn try_insert(&mut self, entry: NodeEntry) -> (decision: InsertDecision)
        requires
            old(self).wf(),
        ensures
            final(self).wf(),
            final(self).capacity() == old(self).capacity(),
            final(self)@ == try_insert_entries(old(self)@, old(self).capacity(), entry),
            decision == try_insert_decision(old(self)@, old(self).capacity(), entry),
    {
        let ghost before = self@;
        match self.find(&entry.id) {
            Some(p) => {
                let known = self.entries.remove(p).unwrap();
                self.entries.push_back(known);
                proof {
                    lemma_refresh_keeps_unique(before, p as int);
                }
                InsertDecision::Refreshed
            },
            None => {
                if !self.is_full() {
                    self.entries.push_back(entry);
                    proof {
                        lemma_position(before, entry.id);
                        lemma_push_keeps_unique(before, entry);
                    }
                    InsertDecision::Inserted
                } else {
                    InsertDecision::PingOldest(self.entries[0])
                }
            },
        }
    }

    /// The `n` entries closest to `target` by score, closest first; the
    /// entries returned are copies scored for `target`, and on equal scores
    /// the older entry comes first.
    pub fn select_n_closests(&self, n: usize, target: U256) -> (out: Vec<NodeEntry>)
        requires
            self.wf(),
        ensures
            out@ == lowest(scored_all(self@, target), n as nat),
            out@.len() == at_most(n as nat, self@.len()),
            sorted_by_score(out@),
            unique_ids(out@),
            drawn_from(out@, scored_all(self@, target)),
    {
        let mut out: Vec<NodeEntry> = Vec::with_capacity(n);
        let len = self.entries.len();
        let ghost all = scored_all(self@, target);
        let mut i: usize = 0;
        proof {
            assert(all.take(0) =~= Seq::<NodeEntry>::empty());
        }
        while i < len
            invariant
                i <= len == self@.len(),
                all == scored_all(self@, target),
                out@ == lowest(all.take(i as int), n as nat),
                out@.len() <= n,
            decreases len - i,
        {
            let mut computed = self.entries[i];
            computed.compute_score(target);
            proof {
                let next = all.take(i + 1);
                assert(next.drop_last() =~= all.take(i as int));
                assert(next.last() == computed);
                lemma_lowest(next, n as nat);
            }
            insert_ranked(&mut out, computed, n);
            i += 1;
        }
        proof {
            assert(all.take(len as int) =~= all);
            lemma_scored_all_ids(self@, target);
            lemma_lowest(all, n as nat);
        }
        out
    }

    /// Removes the entry with this identifier.
    pub fn remove(&mut self, id: U256) -> (r: Result<(), BucketError>)
        requires
            old(self).wf(),
        ensures
            final(self).wf(),
            final(self).capacity() == old(self).capacity(),
            contains_id(old(self)@, id) ==> r is Ok && final(self)@ == old(self)@.remove(
                position(old(self)@, id),
            ),
            !contains_id(old(self)@, id) ==> r == Err::<(), BucketError>(BucketError::NodeNotFound)
                && final(self)@ == old(self)@,
    {
        let ghost before = self@;
        proof {
            lemma_position(before, id);
        }
        match self.find(&id) {
            Some(p) => {
                let _ = self.entries.remove(p);
                proof {
                    lemma_remove_keeps_unique(before, p as int);
                }
                Ok(())
            },
            None => Err(BucketError::NodeNotFound),
        }
    }

    /// Appends an entry for which the caller has made room.
    pub fn force_insert(&mut self, entry: NodeEntry)
        requires
            old(self).wf(),
            old(self)@.len() < old(self).capacity(),
            !contains_id(old(self)@, entry.id),
        ensures
            final(self).wf(),
            final(self).capacity() == old(self).capacity(),
            final(self)@ == old(self)@.push(entry),
    {
        proof {
            lemma_push_keeps_unique(self@, entry);
        }
        self.entries.push_back(entry);
    }
}

/// Removing an entry keeps the identifiers distinct.
pub proof fn lemma_remove_keeps_unique(s: Seq<NodeEntry>, p: int)
    requires
        unique_ids(s),
        0 <= p < s.len(),
    ensures
        unique_ids(s.remove(p)),
        !contains_id(s.remove(p), s[p].id),
{
    let t = s.remove(p);
    assert forall|i: int, j: int| 0 <= i < j < t.len() implies t[i].id != t[j].id by {
        let si = if i < p { i } else { i + 1 };
        let sj = if j < p { j } else { j + 1 };
        assert(t[i] == s[si] && t[j] == s[sj]);
    }
    assert forall|i: int| 0 <= i < t.len() implies t[i].id != s[p].id by {
        let si = if i < p { i } else { i + 1 };
        assert(t[i] == s[si]);
    }
}

/// Appending an entry with a new identifier keeps the identifiers distinct.
pub proof fn lemma_push_keeps_unique(s: Seq<NodeEntry>, entry: NodeEntry)
    requires
        unique_ids(s),
        !contains_id(s, entry.id),
    ensures
        unique_ids(s.push(entry)),
{
}

/// Moving an entry to the back keeps the identifiers distinct.
pub proof fn lemma_refresh_keeps_unique(s: Seq<NodeEntry>, p: int)
    requires
        unique_ids(s),
        0 <= p < s.len(),
    ensures
        unique_ids(s.remove(p).push(s[p])),
        s.remove(p).push(s[p]).len() == s.len(),
{
    lemma_remove_keeps_unique(s, p);
    lemma_push_keeps_unique(s.remove(p), s[p]);
}

/// Every entry of the list after `try_insert` was there before or is the
/// entry offered.
pub proof fn lemma_try_insert_members(s: Seq<NodeEntry>, capacity: nat, entry: NodeEntry)
    ensures
        forall|j: int|
            0 <= j < try_insert_entries(s, capacity, entry).len() ==> s.contains(
                #[trigger] try_insert_entries(s, capacity, entry)[j],
            ) || try_insert_entries(s, capacity, entry)[j] == entry,
{
    lemma_position(s, entry.id);
    let p = position(s, entry.id);
    let t = try_insert_entries(s, capacity, entry);
    assert forall|j: int| 0 <= j < t.len() implies s.contains(#[trigger] t[j]) || t[j]
        == entry by {
        if p < s.len() {
            let sj = if j < p { j } else if j < s.len() - 1 { j + 1 } else { p };
            assert(t[j] == s[sj]);
        } else if s.len() < capacity {
            if j < s.len() {
                assert(t[j] == s[j]);
            }
        } else {
            assert(t[j] == s[j]);
        }
    }
}

/// Every entry of the list after a probe came back was there before or is
/// the entry offered.
pub proof fn lemma_resolve_members(
    s: Seq<NodeEntry>,
    capacity: nat,
    entry: NodeEntry,
    oldest: U256,
    alive: bool,
)
    ensures
        forall|j: int|
            0 <= j < resolve_entries(s, capacity, entry, oldest, alive).len() ==> s.contains(
                #[trigger] resolve_entries(s, capacity, entry, oldest, alive)[j],
            ) || resolve_entries(s, capacity, entry, oldest, alive)[j] == entry,
{
    lemma_position(s, oldest);
    let r = resolve_entries(s, capacity, entry, oldest, alive);
    let p = position(s, oldest);
    let t = if contains_id(s, oldest) { s.remove(p) } else { s };
    assert forall|j: int| 0 <= j < r.len() implies s.contains(#[trigger] r[j]) || r[j]
        == entry by {
        if alive {
            assert(r[j] == s[j]);
        } else if j < t.len() {
            let sj = if contains_id(s, oldest) && j >= p { j + 1 } else { j };
            assert(r[j] == s[sj]);
        }
    }
}

/// Offering the same peer a second time changes neither the length of the
/// list nor, when the first offer found it or found room, its place: it is
/// at the back, and the second answer is `Refreshed`.
pub proof fn lemma_insert_twice(s: Seq<NodeEntry>, capacity: nat, entry: NodeEntry)
    requires
        unique_ids(s),
        contains_id(s, entry.id) || s.len() < capacity,
    ensures
        ({
            let once = try_insert_entries(s, capacity, entry);
            let twice = try_insert_entries(once, capacity, entry);
            &&& twice.len() == once.len()
            &&& twice == once
            &&& once.last().id == entry.id
            &&& try_insert_decision(once, capacity, entry) == InsertDecision::Refreshed
        }),
{
    lemma_position(s, entry.id);
    let once = try_insert_entries(s, capacity, entry);
    let back = once.len() - 1;
    let p = position(s, entry.id);
    if p < s.len() {
        lemma_refresh_keeps_unique(s, p);
    } else {
        lemma_push_keeps_unique(s, entry);
    }
    assert(once[back].id == entry.id);
    lemma_position(once, entry.id);
    assert(position(once, entry.id) == back) by {
        if position(once, entry.id) < back {
            assert(once[position(once, entry.id)].id != once[back].id);
        }
    }
    assert(once.remove(back).push(once[back]) =~= once);
}

/// A full bucket that is offered a new peer names its oldest entry and
/// stays as it is. If that entry answers its probe the bucket is left
/// untouched; if not, the entry is gone and the new peer is at the back.
pub proof fn lemma_eviction_rule(s: Seq<NodeEntry>, capacity: nat, entry: NodeEntry)
    requires
        unique_ids(s),
        1 <= capacity == s.len(),
        !contains_id(s, entry.id),
    ensures
        try_insert_decision(s, capacity, entry) == InsertDecision::PingOldest(s[0]),
        try_insert_entries(s, capacity, entry) == s,
        resolve_entries(s, capacity, entry, s[0].id, true) == s,
        resolve_entries(s, capacity, entry, s[0].id, false) == s.drop_first().push(entry),
        !contains_id(resolve_entries(s, capacity, entry, s[0].id, false), s[0].id),
        resolve_entries(s, capacity, entry, s[0].id, false).last() == entry,
{
    lemma_position(s, entry.id);
    lemma_position(s, s[0].id);
    assert(contains_id(s, s[0].id));
    assert(position(s, s[0].id) == 0);
    lemma_remove_keeps_unique(s, 0);
    let t = s.remove(0);
    assert(t =~= s.drop_first());
    assert(!contains_id(t, entry.id)) by {
        if contains_id(t, entry.id) {
            let w = choose|w: int| 0 <= w < t.len() && t[w].id == entry.id;
            assert(s[w + 1].id == entry.id);
        }
    }
    let r = t.push(entry);
    assert(!contains_id(r, s[0].id)) by {
        if contains_id(r, s[0].id) {
            let w = choose|w: int| 0 <= w < r.len() && r[w].id == s[0].id;
            if w < t.len() {
                assert(t[w].id == s[0].id);
            }
        }
    }
}

} // verus!
