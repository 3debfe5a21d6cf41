//! Keeping the first few items of a queue under a caller's comparison.

use super::array::{add_one, index, prefix};
use super::vecdeque::{SizedVecDeque, SizedVecDequeError};
use std::cmp::Ordering;
use vstd::prelude::*;

verus! {

/// Where `item` goes in `buf`: below every item at the end of `buf` that
/// it is less than.
pub open spec fn back_position<T>(buf: Seq<T>, item: T, lt: spec_fn(T, T) -> bool) -> int
    decreases buf.len(),
{
    if buf.len() == 0 {
        0
    } else if lt(item, buf.last()) {
        back_position(buf.drop_last(), item, lt)
    } else {
        buf.len() as int
    }
}

/// A list of at most `n` items after `item` was offered to it: the item
/// takes its place if that place is among the first `n`, and the last
/// item leaves if the list was full.
pub open spec fn place_by<T>(buf: Seq<T>, item: T, n: nat, lt: spec_fn(T, T) -> bool) -> Seq<T> {
    let pos = back_position(buf, item, lt);
    if pos < n {
        let kept = if buf.len() >= n {
            buf.take(n - 1)
        } else {
            buf
        };
        kept.insert(pos, item)
    } else {
        buf
    }
}

/// What is kept of `items` when each in turn is offered to a list of at
/// most `n`.
pub open spec fn select_by<T>(items: Seq<T>, n: nat, lt: spec_fn(T, T) -> bool) -> Seq<T>
    decreases items.len(),
{
    if items.len() == 0 {
        Seq::empty()
    } else {
        place_by(select_by(items.drop_last(), n, lt), items.last(), n, lt)
    }
}

/// `select_by` on the first `i` items, each replaced by `g` of it, with
/// bounds given as machine integers.
pub open spec fn select_upto<T>(
    items: Seq<T>,
    i: usize,
    g: spec_fn(T) -> T,
    n: usize,
    lt: spec_fn(T, T) -> bool,
) -> Seq<T> {
    select_by(items.take(i as int).map_values(g), n as nat, lt)
}

/// The smaller of two machine integers.
pub open spec fn smaller(a: usize, b: usize) -> usize {
    if a < b {
        a
    } else {
        b
    }
}

/// The comparison answers "less" exactly where `lt` holds.
pub open spec fn less_by<T, F: Fn(&T, &T) -> Ordering>(
    compare: F,
    lt: spec_fn(T, T) -> bool,
) -> bool {
    forall|x: T, y: T, r: Ordering|
        call_ensures(compare, (&x, &y), r) ==> ((r is Less) <==> lt(x, y))
}

/// `back_position` is the index below the run of greater items at the end.
proof fn lemma_back_position<T>(buf: Seq<T>, item: T, lt: spec_fn(T, T) -> bool, pos: usize)
    requires
        pos <= buf.len(),
        forall|j: int| pos <= j < buf.len() ==> lt(item, buf[j]),
        pos == 0 || !lt(item, buf[pos - 1]),
    ensures
        back_position(buf, item, lt) == pos,
    decreases buf.len(),
{
    if buf.len() > pos {
        let head = buf.drop_last();
        assert forall|j: int| pos <= j < head.len() implies lt(item, head[j]) by {
            assert(head[j] == buf[j]);
        }
        if pos > 0 {
            assert(head[pos - 1] == buf[pos - 1]);
        }
        lemma_back_position(head, item, lt, pos);
    }
}

/// One more item has been offered.
proof fn lemma_select_step<T>(
    items: Seq<T>,
    i: usize,
    g: spec_fn(T) -> T,
    n: usize,
    lt: spec_fn(T, T) -> bool,
)
    requires
        i < items.len() <= usize::MAX,
    ensures
        select_upto(items, add_one(i), g, n, lt) == place_by(
            select_upto(items, i, g, n, lt),
            g(items[i as int]),
            n as nat,
            lt,
        ),
{
    let next = items.take(i + 1).map_values(g);
    assert(next.drop_last() =~= items.take(i as int).map_values(g));
    assert(next.last() == g(items[i as int]));
}

/// Makes room at `pos` among the first `filled` items of `out` and puts
/// `item` there; the last item leaves when the array was full.
fn shift_in<T: Copy, const N: usize>(out: &mut [T; N], filled: usize, pos: usize, item: T) -> (now:
    usize)
    requires
        pos <= filled <= N,
        pos < N,
    ensures
        now == (if filled < N {
            add_one(filled)
        } else {
            N
        }),
        prefix(final(out)@, now) == (if filled >= N {
            prefix(old(out)@, filled).take(N - 1)
        } else {
            prefix(old(out)@, filled)
        }).insert(pos as int, item),
        forall|i: int| now <= i < N ==> final(out)@[i] == old(out)@[i],
{
    let end = if filled < N - 1 {
        filled
    } else {
        N - 1
    };
    let mut i: usize = end;
    while i > pos
        invariant
            pos <= i <= end < N,
            forall|j: int| 0 <= j <= i ==> out@[j] == old(out)@[j],
            forall|j: int| i < j <= end ==> out@[j] == old(out)@[j - 1],
            forall|j: int| end < j < N ==> out@[j] == old(out)@[j],
        decreases i,
    {
        out[i] = out[i - 1];
        i -= 1;
    }
    out[pos] = item;
    let now = if filled < N {
        filled + 1
    } else {
        N
    };
    proof {
        let kept = if filled >= N {
            prefix(old(out)@, filled).take(N - 1)
        } else {
            prefix(old(out)@, filled)
        };
        assert(prefix(out@, now) =~= kept.insert(pos as int, item));
    }
    now
}

impl<T> SizedVecDeque<T> {
    /// Lets `compute` update a copy of each item, front to back, and keeps
    /// the `N` least of the copies under `compare`, in ascending order;
    /// among copies that compare equal, the one that came first comes
    /// first. The count tells how many places of the array are taken; the
    /// others hold the front item as it is in the queue.
    pub fn compute_and_select_n_first_by<const N: usize>(
        &self,
        compute: impl Fn(&mut T),
        compare: impl Fn(&T, &T) -> Ordering,
    ) -> (r: Result<([T; N], usize), SizedVecDequeError>) where T: Copy
        requires
            forall|r: &mut T| call_requires(compute, (r,)),
            forall|x: T, y: T| call_requires(compare, (&x, &y)),
        ensures
            match r {
                Err(e) => self@.len() == 0 && e == SizedVecDequeError::IsEmpty,
                Ok(pair) => {
                    &&& self@.len() > 0
                    &&& pair.1 == smaller(self.spec_len(), N)
                    &&& forall|i: int| pair.1 <= i < N ==> pair.0@[i] == self@[0]
                    &&& forall|g: spec_fn(T) -> T, lt: spec_fn(T, T) -> bool|
                        (forall|r: &mut T| #[trigger]
                            call_ensures(compute, (r,), ()) ==> *final(r) == g(*r)) && less_by(
                            compare,
                            lt,
                        ) ==> prefix(pair.0@, pair.1) == #[trigger] select_upto(
                            self@,
                            self.spec_len(),
                            g,
                            N,
                            lt,
                        )
                },
            },
    {
        let len = self.len();
        if len == 0 {
            return Err(SizedVecDequeError::IsEmpty);
        }
        let first = *self.front_item();
        let mut out: [T; N] = [first; N];
        let mut filled: usize = 0;
        let mut i: usize = 0;
        proof {
            assert forall|g: spec_fn(T) -> T, lt: spec_fn(T, T) -> bool| true implies prefix(
                out@,
                0,
            ) == #[trigger] select_upto(self@, 0, g, N, lt) by {
                assert(prefix(out@, 0) =~= select_upto(self@, 0, g, N, lt));
            }
        }
        while i < len
            invariant
                i <= len == self.spec_len(),
                len == self@.len(),
                filled == smaller(i, N),
                first == self@[0],
                forall|r: &mut T| call_requires(compute, (r,)),
                forall|x: T, y: T| call_requires(compare, (&x, &y)),
                forall|j: int| filled <= j < N ==> out@[j] == first,
                forall|g: spec_fn(T) -> T, lt: spec_fn(T, T) -> bool|
                    (forall|r: &mut T| #[trigger]
                        call_ensures(compute, (r,), ()) ==> *final(r) == g(*r)) && less_by(
                        compare,
                        lt,
                    ) ==> prefix(out@, filled) == #[trigger] select_upto(self@, i, g, N, lt),
            decreases len - i,
        {
            let mut computed = *self.item(i);
            compute(&mut computed);
            let mut pos: usize = filled;
            let mut stop = false;
            while pos > 0 && !stop
                invariant
                    pos <= filled <= N,
                    forall|x: T, y: T| call_requires(compare, (&x, &y)),
                    forall|lt: spec_fn(T, T) -> bool|
                        less_by(compare, lt) ==> forall|j: int|
                            pos <= j < filled ==> #[trigger] lt(computed, out@[j]),
                    stop ==> pos > 0 && forall|lt: spec_fn(T, T) -> bool|
                        less_by(compare, lt) ==> !#[trigger] lt(computed, out@[pos - 1]),
                decreases pos + (if stop { 0int } else { 1int }),
            {
                match compare(&computed, &out[pos - 1]) {
                    Ordering::Less => {
                        pos -= 1;
                    },
                    _ => {
                        stop = true;
                    },
                }
            }
            let ghost before = out@;
            let ghost was = filled;
            if pos < N {
                filled = shift_in(&mut out, filled, pos, computed);
            }
            let ghost at = i;
            i += 1;
            proof {
                assert(add_one(at) == i);
                assert forall|g: spec_fn(T) -> T, lt: spec_fn(T, T) -> bool|
                    (forall|r: &mut T| #[trigger]
                        call_ensures(compute, (r,), ()) ==> *final(r) == g(*r)) && less_by(
                        compare,
                        lt,
                    ) implies prefix(out@, filled) == #[trigger] select_upto(self@, i, g, N, lt) by {
                    let buf = prefix(before, was);
                    lemma_back_position(buf, computed, lt, pos);
                    lemma_select_step(self@, at, g, N, lt);
                    assert(buf == select_upto(self@, at, g, N, lt));
                    assert(computed == g(self@[index(at)]));
                }
            }
        }
        Ok((out, filled))
    }
}

} // verus!
