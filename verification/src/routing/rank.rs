//! Ranking peers by score: the insertion that keeps the best few of a
//! bucket and the merge that keeps the best few of two ranked lists.

use super::entry::NodeEntry;
use super::kbucket::{contains_id, unique_ids};
use vstd::prelude::*;

verus! {

/// Scores do not decrease along the list.
pub open spec fn sorted_by_score(s: Seq<NodeEntry>) -> bool {
    forall|i: int, j: int| 0 <= i <= j < s.len() ==> s[i].score.to_nat() <= s[j].score.to_nat()
}

/// Every entry of `part` is an entry of `whole`.
pub open spec fn drawn_from(part: Seq<NodeEntry>, whole: Seq<NodeEntry>) -> bool {
    forall|k: int| 0 <= k < part.len() ==> whole.contains(#[trigger] part[k])
}

/// The smaller of two lengths.
pub open spec fn at_most(n: nat, len: nat) -> nat {
    if len < n {
        len
    } else {
        n
    }
}

/// Where `entry` goes in a ranked list: before the first entry with a
/// strictly greater score, so that it comes after its equals.
pub open spec fn upper_position(buf: Seq<NodeEntry>, entry: NodeEntry) -> int
    decreases buf.len(),
{
    if buf.len() == 0 {
        0
    } else if entry.score.to_nat() < buf[0].score.to_nat() {
        0
    } else {
        1 + upper_position(buf.drop_first(), entry)
    }
}

/// `upper_position` is the first index with a strictly greater score.
pub proof fn lemma_upper_position(buf: Seq<NodeEntry>, entry: NodeEntry)
    ensures
        0 <= upper_position(buf, entry) <= buf.len(),
        forall|j: int|
            0 <= j < upper_position(buf, entry) ==> buf[j].score.to_nat()
                <= entry.score.to_nat(),
        upper_position(buf, entry) < buf.len() ==> entry.score.to_nat() < buf[upper_position(
            buf,
            entry,
        )].score.to_nat(),
    decreases buf.len(),
{
    if buf.len() > 0 && !(entry.score.to_nat() < buf[0].score.to_nat()) {
        let t = buf.drop_first();
        lemma_upper_position(t, entry);
        assert forall|j: int| 0 <= j < upper_position(buf, entry) implies buf[j].score.to_nat()
            <= entry.score.to_nat() by {
            if j > 0 {
                assert(buf[j] == t[j - 1]);
            }
        }
        if upper_position(t, entry) < t.len() {
            assert(buf[upper_position(buf, entry)] == t[upper_position(t, entry)]);
        }
    }
}

/// A ranked list of at most `n` entries after `entry` was offered to it:
/// the entry takes its place if that place is among the first `n`, and the
/// last entry leaves if the list was full.
pub open spec fn rank_insert(buf: Seq<NodeEntry>, entry: NodeEntry, n: nat) -> Seq<NodeEntry> {
    let pos = upper_position(buf, entry);
    if pos < n {
        let kept = if buf.len() == n {
            buf.drop_last()
        } else {
            buf
        };
        kept.insert(pos, entry)
    } else {
        buf
    }
}

/// The `n` entries with the lowest scores, in ascending order; among equal
/// scores the entry that comes first in `entries` wins and comes first.
pub open spec fn lowest(entries: Seq<NodeEntry>, n: nat) -> Seq<NodeEntry>
    decreases entries.len(),
{
    if entries.len() == 0 {
        Seq::empty()
    } else {
        rank_insert(lowest(entries.drop_last(), n), entries.last(), n)
    }
}

/// What `rank_insert` keeps: order, length, origin and distinct identifiers.
pub proof fn lemma_rank_insert(buf: Seq<NodeEntry>, entry: NodeEntry, n: nat)
    requires
        sorted_by_score(buf),
        buf.len() <= n,
    ensures
        sorted_by_score(rank_insert(buf, entry, n)),
        rank_insert(buf, entry, n).len() == at_most(n, buf.len() + 1),
        drawn_from(rank_insert(buf, entry, n), buf.push(entry)),
        unique_ids(buf) && !contains_id(buf, entry.id) ==> unique_ids(rank_insert(buf, entry, n)),
{
    lemma_upper_position(buf, entry);
    let pos = upper_position(buf, entry);
    let out = rank_insert(buf, entry, n);
    let whole = buf.push(entry);
    if pos < n {
        let kept = if buf.len() == n {
            buf.drop_last()
        } else {
            buf
        };
        assert forall|i: int, j: int| 0 <= i <= j < out.len() implies out[i].score.to_nat()
            <= out[j].score.to_nat() by {
            if i < pos && j > pos {
                assert(out[i] == buf[i] && out[j] == buf[j - 1]);
            } else if i < pos && j == pos {
                assert(out[i] == buf[i]);
            } else if i == pos && j > pos {
                assert(out[j] == buf[j - 1]);
                assert(buf[pos].score.to_nat() <= buf[j - 1].score.to_nat());
            } else if i > pos {
                assert(out[i] == buf[i - 1] && out[j] == buf[j - 1]);
            }
        }
        assert forall|k: int| 0 <= k < out.len() implies whole.contains(#[trigger] out[k]) by {
            if k < pos {
                assert(whole[k] == out[k]);
            } else if k == pos {
                assert(whole[buf.len() as int] == out[k]);
            } else {
                assert(whole[k - 1] == out[k]);
            }
        }
        if unique_ids(buf) && !contains_id(buf, entry.id) {
            assert forall|i: int, j: int| 0 <= i < j < out.len() implies out[i].id
                != out[j].id by {
                let bi = if i < pos { i } else { i - 1 };
                let bj = if j < pos { j } else { j - 1 };
                if i != pos {
                    assert(out[i] == buf[bi]);
                }
                if j != pos {
                    assert(out[j] == buf[bj]);
                }
            }
        }
    } else {
        assert forall|k: int| 0 <= k < out.len() implies whole.contains(#[trigger] out[k]) by {
            assert(whole[k] == out[k]);
        }
    }
}

/// What `lowest` returns: a ranked list of the right length, drawn from
/// the entries, with distinct identifiers when the entries have them.
pub proof fn lemma_lowest(entries: Seq<NodeEntry>, n: nat)
    ensures
        sorted_by_score(lowest(entries, n)),
        lowest(entries, n).len() == at_most(n, entries.len()),
        drawn_from(lowest(entries, n), entries),
        unique_ids(entries) ==> unique_ids(lowest(entries, n)),
    decreases entries.len(),
{
    if entries.len() > 0 {
        let head = entries.drop_last();
        let last = entries.last();
        let buf = lowest(head, n);
        lemma_lowest(head, n);
        lemma_rank_insert(buf, last, n);
        let out = lowest(entries, n);
        assert forall|k: int| 0 <= k < out.len() implies entries.contains(#[trigger] out[k]) by {
            assert(buf.push(last).contains(out[k]));
            let w = choose|w: int| 0 <= w < buf.push(last).len() && buf.push(last)[w] == out[k];
            if w < buf.len() {
                assert(head.contains(buf[w]));
                let v = choose|v: int| 0 <= v < head.len() && head[v] == buf[w];
                assert(entries[v] == out[k]);
            } else {
                assert(entries[entries.len() - 1] == out[k]);
            }
        }
        if unique_ids(entries) {
            assert(unique_ids(head)) by {
                assert forall|i: int, j: int| 0 <= i < j < head.len() implies head[i].id
                    != head[j].id by {
                    assert(head[i] == entries[i] && head[j] == entries[j]);
                }
            }
            if contains_id(buf, last.id) {
                let w = choose|w: int| 0 <= w < buf.len() && buf[w].id == last.id;
                assert(head.contains(buf[w]));
                let v = choose|v: int| 0 <= v < head.len() && head[v] == buf[w];
                assert(entries[v].id == entries[entries.len() - 1].id);
            }
        }
    }
}

/// Offers `entry` to a ranked list of at most `n` entries.
pub fn insert_ranked(out: &mut Vec<NodeEntry>, entry: NodeEntry, n: usize)
    requires
        old(out)@.len() <= n,
    ensures
        final(out)@ == rank_insert(old(out)@, entry, n as nat),
{
    let len = out.len();
    let mut pos: usize = 0;
    proof {
        lemma_upper_position(out@, entry);
    }
    while pos < len && !(entry.score < out[pos].score)
        invariant
            pos <= len == out@.len(),
            forall|j: int| 0 <= j < pos ==> out@[j].score.to_nat() <= entry.score.to_nat(),
        decreases len - pos,
    {
        pos += 1;
    }
    assert(pos == upper_position(out@, entry));
    if pos < n {
        if len == n {
            out.pop();
        }
        out.insert(pos, entry);
    }
}

/// The first `n` entries of the two-way merge of two ranked lists; on
/// equal scores the entry of `running` comes first.
pub open spec fn merge_lowest(running: Seq<NodeEntry>, incoming: Seq<NodeEntry>, n: nat) -> Seq<
    NodeEntry,
>
    decreases running.len() + incoming.len(),
{
    if n == 0 || (running.len() == 0 && incoming.len() == 0) {
        Seq::empty()
    } else if running.len() > 0 && (incoming.len() == 0 || running[0].score.to_nat()
        <= incoming[0].score.to_nat()) {
        seq![running[0]] + merge_lowest(running.drop_first(), incoming, (n - 1) as nat)
    } else {
        seq![incoming[0]] + merge_lowest(running, incoming.drop_first(), (n - 1) as nat)
    }
}

/// No identifier occurs in both lists.
pub open spec fn disjoint_ids(a: Seq<NodeEntry>, b: Seq<NodeEntry>) -> bool {
    forall|i: int, j: int| 0 <= i < a.len() && 0 <= j < b.len() ==> a[i].id != b[j].id
}

/// What `merge_lowest` returns: a ranked list of the right length, drawn
/// from the two lists, with distinct identifiers when they share none.
pub proof fn lemma_merge_lowest(a: Seq<NodeEntry>, b: Seq<NodeEntry>, n: nat)
    requires
        sorted_by_score(a),
        sorted_by_score(b),
    ensures
        sorted_by_score(merge_lowest(a, b, n)),
        merge_lowest(a, b, n).len() == at_most(n, a.len() + b.len()),
        drawn_from(merge_lowest(a, b, n), a + b),
        unique_ids(a) && unique_ids(b) && disjoint_ids(a, b) ==> unique_ids(merge_lowest(a, b, n)),
    decreases a.len() + b.len(),
{
    let out = merge_lowest(a, b, n);
    if n == 0 || (a.len() == 0 && b.len() == 0) {
    } else {
        let take_a = a.len() > 0 && (b.len() == 0 || a[0].score.to_nat() <= b[0].score.to_nat());
        let ra = if take_a { a.drop_first() } else { a };
        let rb = if take_a { b } else { b.drop_first() };
        let head = if take_a { a[0] } else { b[0] };
        let rest = merge_lowest(ra, rb, (n - 1) as nat);
        assert(sorted_by_score(ra)) by {
            assert forall|i: int, j: int| 0 <= i <= j < ra.len() implies ra[i].score.to_nat()
                <= ra[j].score.to_nat() by {
                if take_a {
                    assert(ra[i] == a[i + 1] && ra[j] == a[j + 1]);
                }
            }
        }
        assert(sorted_by_score(rb)) by {
            assert forall|i: int, j: int| 0 <= i <= j < rb.len() implies rb[i].score.to_nat()
                <= rb[j].score.to_nat() by {
                if !take_a {
                    assert(rb[i] == b[i + 1] && rb[j] == b[j + 1]);
                }
            }
        }
        lemma_merge_lowest(ra, rb, (n - 1) as nat);
        assert(out == seq![head] + rest);
        // every entry of the rest comes from `ra` or `rb`
        assert forall|k: int| 0 <= k < rest.len() implies head.score.to_nat()
            <= rest[k].score.to_nat() && (a + b).contains(rest[k]) && (unique_ids(a)
            && unique_ids(b) && disjoint_ids(a, b) ==> rest[k].id != head.id) by {
            assert((ra + rb).contains(rest[k]));
            let w = choose|w: int| 0 <= w < (ra + rb).len() && (ra + rb)[w] == rest[k];
            if w < ra.len() {
                let ia = if take_a { w + 1 } else { w };
                assert(ra[w] == a[ia]);
                assert((a + b)[ia] == rest[k]);
                if !take_a && b.len() > 0 {
                    assert(a[0].score.to_nat() <= a[ia].score.to_nat());
                }
            } else {
                let v = w - ra.len();
                let ib = if take_a { v } else { v + 1 };
                assert(rb[v] == b[ib]);
                assert((a + b)[a.len() + ib] == rest[k]);
                assert(b[0].score.to_nat() <= b[ib].score.to_nat());
            }
        }
        assert forall|i: int, j: int| 0 <= i <= j < out.len() implies out[i].score.to_nat()
            <= out[j].score.to_nat() by {
            if i == 0 && j > 0 {
                assert(out[j] == rest[j - 1]);
            } else if i > 0 {
                assert(out[i] == rest[i - 1] && out[j] == rest[j - 1]);
            }
        }
        assert forall|k: int| 0 <= k < out.len() implies (a + b).contains(#[trigger] out[k]) by {
            if k == 0 {
                if take_a {
                    assert((a + b)[0] == head);
                } else {
                    assert((a + b)[a.len() as int] == head);
                }
            } else {
                assert(out[k] == rest[k - 1]);
            }
        }
        if unique_ids(a) && unique_ids(b) && disjoint_ids(a, b) {
            assert(unique_ids(ra)) by {
                assert forall|i: int, j: int| 0 <= i < j < ra.len() implies ra[i].id
                    != ra[j].id by {
                    if take_a {
                        assert(ra[i] == a[i + 1] && ra[j] == a[j + 1]);
                    }
                }
            }
            assert(unique_ids(rb)) by {
                assert forall|i: int, j: int| 0 <= i < j < rb.len() implies rb[i].id
                    != rb[j].id by {
                    if !take_a {
                        assert(rb[i] == b[i + 1] && rb[j] == b[j + 1]);
                    }
                }
            }
            assert(disjoint_ids(ra, rb)) by {
                assert forall|i: int, j: int|
                    0 <= i < ra.len() && 0 <= j < rb.len() implies ra[i].id != rb[j].id by {
                    let ia = if take_a { i + 1 } else { i };
                    let jb = if take_a { j } else { j + 1 };
                    assert(ra[i] == a[ia] && rb[j] == b[jb]);
                }
            }
            assert forall|i: int, j: int| 0 <= i < j < out.len() implies out[i].id
                != out[j].id by {
                assert(out[j] == rest[j - 1]);
                if i > 0 {
                    assert(out[i] == rest[i - 1]);
                }
            }
        }
    }
}

/// Merges two ranked lists and keeps the first `n` entries.
pub fn merge_ranked(running: &Vec<NodeEntry>, incoming: &Vec<NodeEntry>, n: usize) -> (out: Vec<
    NodeEntry,
>)
    ensures
        out@ == merge_lowest(running@, incoming@, n as nat),
{
    let mut out: Vec<NodeEntry> = Vec::new();
    let mut i: usize = 0;
    let mut j: usize = 0;
    let la = running.len();
    let lb = incoming.len();
    proof {
        assert(running@.skip(0) =~= running@);
        assert(incoming@.skip(0) =~= incoming@);
    }
    while out.len() < n && (i < la || j < lb)
        invariant
            i <= la == running@.len(),
            j <= lb == incoming@.len(),
            out@.len() <= n,
            out@.len() == i + j,
            merge_lowest(running@, incoming@, n as nat) == out@ + merge_lowest(
                running@.skip(i as int),
                incoming@.skip(j as int),
                (n - out@.len()) as nat,
            ),
        decreases (la - i) + (lb - j),
    {
        let ghost ra = running@.skip(i as int);
        let ghost rb = incoming@.skip(j as int);
        let ghost before = out@;
        let take_running = i < la && (j >= lb || !(incoming[j].score < running[i].score));
        proof {
            if i < la {
                assert(ra[0] == running@[i as int]);
                assert(ra.drop_first() =~= running@.skip(i + 1));
            }
            if j < lb {
                assert(rb[0] == incoming@[j as int]);
                assert(rb.drop_first() =~= incoming@.skip(j + 1));
            }
        }
        if take_running {
            out.push(running[i]);
            i += 1;
        } else {
            out.push(incoming[j]);
            j += 1;
        }
        proof {
            let rest = merge_lowest(
                running@.skip(i as int),
                incoming@.skip(j as int),
                (n - out@.len()) as nat,
            );
            assert(before + (seq![out@[out@.len() - 1]] + rest) =~= out@ + rest);
        }
    }
    proof {
        let rest = merge_lowest(
            running@.skip(i as int),
            incoming@.skip(j as int),
            (n - out@.len()) as nat,
        );
        assert(rest.len() == 0);
        assert(out@ + rest =~= out@);
    }
    out
}

} // verus!
