//! Merging two ranked sequences into a fixed-size array.

use std::cmp::Ordering;
use vstd::prelude::*;

verus! {

/// The first `n` items of a sequence.
pub open spec fn prefix<T>(s: Seq<T>, n: usize) -> Seq<T> {
    s.take(n as int)
}

/// The smaller of `n` and `a + b`.
pub open spec fn capped_sum(n: usize, a: usize, b: usize) -> int {
    if a + b < n {
        a + b
    } else {
        n as int
    }
}

/// The first `n` items of the two-way merge of `a` and `b` under the
/// relation `le`; where `le(x, y)` holds for the heads, the head of `a`
/// comes first.
pub open spec fn merge_by<T>(a: Seq<T>, b: Seq<T>, n: nat, le: spec_fn(T, T) -> bool) -> Seq<T>
    decreases a.len() + b.len(),
{
    if n == 0 || (a.len() == 0 && b.len() == 0) {
        Seq::empty()
    } else if a.len() > 0 && (b.len() == 0 || le(a[0], b[0])) {
        seq![a[0]] + merge_by(a.drop_first(), b, (n - 1) as nat, le)
    } else {
        seq![b[0]] + merge_by(a, b.drop_first(), (n - 1) as nat, le)
    }
}

/// `merge_by` with a bound given as a machine integer.
pub open spec fn merge_upto<T>(a: Seq<T>, b: Seq<T>, n: usize, le: spec_fn(T, T) -> bool) -> Seq<T> {
    merge_by(a, b, n as nat, le)
}

/// What is left to merge once `i1` items of `a` and `i2` items of `b`
/// have been taken, `k` in all.
pub open spec fn merge_rest<T>(
    a: Seq<T>,
    b: Seq<T>,
    i1: usize,
    i2: usize,
    n: usize,
    k: usize,
    le: spec_fn(T, T) -> bool,
) -> Seq<T> {
    merge_by(a.skip(i1 as int), b.skip(i2 as int), (n - k) as nat, le)
}

/// The comparison answers "not greater" exactly where `le` holds.
pub open spec fn orders_by<T, F: Fn(&T, &T) -> Ordering>(
    compare: F,
    le: spec_fn(T, T) -> bool,
) -> bool {
    forall|x: T, y: T, r: Ordering|
        call_ensures(compare, (&x, &y), r) ==> (!(r is Greater) <==> le(x, y))
}

/// Nothing has been merged yet.
proof fn lemma_merge_start<T>(a: Seq<T>, b: Seq<T>, out: Seq<T>, n: usize, le: spec_fn(T, T) -> bool)
    ensures
        merge_upto(a, b, n, le) == prefix(out, 0) + merge_rest(a, b, 0, 0, n, 0, le),
{
    assert(a.skip(0) =~= a);
    assert(b.skip(0) =~= b);
    assert(prefix(out, 0) + merge_upto(a, b, n, le) =~= merge_upto(a, b, n, le));
}

/// One step of the merge: the item written at index `k` is the head of
/// what was left to merge.
proof fn lemma_merge_step<T>(
    a: Seq<T>,
    b: Seq<T>,
    before: Seq<T>,
    after: Seq<T>,
    i1: usize,
    i2: usize,
    n: usize,
    k: usize,
    take_a: bool,
    le: spec_fn(T, T) -> bool,
)
    requires
        k < n,
        k < before.len() == after.len(),
        i1 <= a.len() <= usize::MAX,
        i2 <= b.len() <= usize::MAX,
        i1 < a.len() || i2 < b.len(),
        take_a <==> i1 < a.len() && (i2 >= b.len() || le(a[i1 as int], b[i2 as int])),
        forall|j: int| 0 <= j < k ==> after[j] == before[j],
        after[k as int] == (if take_a {
            a[i1 as int]
        } else {
            b[i2 as int]
        }),
    ensures
        prefix(before, k) + merge_rest(a, b, i1, i2, n, k, le) == prefix(after, (k + 1) as usize)
            + merge_rest(
            a,
            b,
            if take_a {
                (i1 + 1) as usize
            } else {
                i1
            },
            if take_a {
                i2
            } else {
                (i2 + 1) as usize
            },
            n,
            (k + 1) as usize,
            le,
        ),
{
    let ra = a.skip(i1 as int);
    let rb = b.skip(i2 as int);
    if i1 < a.len() {
        assert(ra[0] == a[i1 as int]);
        assert(ra.drop_first() =~= a.skip(i1 + 1));
    }
    if i2 < b.len() {
        assert(rb[0] == b[i2 as int]);
        assert(rb.drop_first() =~= b.skip(i2 + 1));
    }
    let head = after[k as int];
    let rest = merge_rest(
        a,
        b,
        if take_a { (i1 + 1) as usize } else { i1 },
        if take_a { i2 } else { (i2 + 1) as usize },
        n,
        (k + 1) as usize,
        le,
    );
    assert(merge_rest(a, b, i1, i2, n, k, le) == seq![head] + rest);
    assert(prefix(before, k) + (seq![head] + rest) =~= prefix(after, (k + 1) as usize) + rest);
}

/// The merge is over: nothing is left.
proof fn lemma_merge_end<T>(
    a: Seq<T>,
    b: Seq<T>,
    out: Seq<T>,
    i1: usize,
    i2: usize,
    n: usize,
    k: usize,
    le: spec_fn(T, T) -> bool,
)
    requires
        k <= n,
        i1 <= a.len(),
        i2 <= b.len(),
        k == n || (i1 == a.len() && i2 == b.len()),
    ensures
        prefix(out, k) + merge_rest(a, b, i1, i2, n, k, le) == prefix(out, k),
{
    assert(merge_rest(a, b, i1, i2, n, k, le).len() == 0);
    assert(prefix(out, k) + merge_rest(a, b, i1, i2, n, k, le) =~= prefix(out, k));
}

/// Merges the first `s1_size` items of `s1` with the first `s2_size` items
/// of `s2` into `s1`, keeping as many of the merged items as `s1` has
/// room for, and returns how many were kept. On a tie the item of `s1`
/// comes first.
pub fn keep_lowest_array_by<T: Copy, const N: usize, F>(
    s1: &mut [T; N],
    s1_size: usize,
    s2: &[T],
    s2_size: usize,
    compare: F,
) -> (k: usize) where F: Fn(&T, &T) -> Ordering
    requires
        s1_size <= N,
        s2_size <= s2@.len(),
        forall|x: T, y: T| call_requires(compare, (&x, &y)),
    ensures
        k == capped_sum(N, s1_size, s2_size),
        forall|le: spec_fn(T, T) -> bool|
            orders_by(compare, le) ==> prefix(final(s1)@, k) == #[trigger] merge_upto(
                prefix(old(s1)@, s1_size),
                prefix(s2@, s2_size),
                N,
                le,
            ),
        forall|i: int| k <= i < N ==> final(s1)@[i] == old(s1)@[i],
{
    let a = *s1;
    let mut i1: usize = 0;
    let mut i2: usize = 0;
    let mut k: usize = 0;
    let ghost left = prefix(a@, s1_size);
    let ghost right = prefix(s2@, s2_size);
    proof {
        assert forall|le: spec_fn(T, T) -> bool| true implies #[trigger] merge_upto(
            left,
            right,
            N,
            le,
        ) == prefix(s1@, 0) + merge_rest(left, right, 0, 0, N, 0, le) by {
            lemma_merge_start(left, right, s1@, N, le);
        }
    }
    while k < N && (i1 < s1_size || i2 < s2_size)
        invariant
            i1 <= s1_size <= N,
            i2 <= s2_size <= s2@.len(),
            k <= N,
            k == i1 + i2,
            a == *old(s1),
            left == prefix(a@, s1_size),
            right == prefix(s2@, s2_size),
            forall|x: T, y: T| call_requires(compare, (&x, &y)),
            forall|i: int| k <= i < N ==> s1@[i] == a@[i],
            forall|le: spec_fn(T, T) -> bool|
                orders_by(compare, le) ==> #[trigger] merge_upto(left, right, N, le) == prefix(
                    s1@,
                    k,
                ) + merge_rest(left, right, i1, i2, N, k, le),
        decreases N - k,
    {
        let ghost before = s1@;
        let ghost j1 = i1;
        let ghost j2 = i2;
        let mut decided = Ghost(Ordering::Equal);
        let take_s1 = i1 < s1_size && (i2 >= s2_size || {
            let r = compare(&a[i1], &s2[i2]);
            proof {
                decided@ = r;
            }
            match r {
                Ordering::Greater => false,
                _ => true,
            }
        });
        let v = if take_s1 {
            let v = a[i1];
            i1 += 1;
            v
        } else {
            let v = s2[i2];
            i2 += 1;
            v
        };
        s1[k] = v;
        proof {
            assert forall|le: spec_fn(T, T) -> bool| orders_by(compare, le) implies prefix(
                before,
                k,
            ) + merge_rest(left, right, j1, j2, N, k, le) == prefix(s1@, add_one(k))
                + merge_rest(left, right, i1, i2, N, add_one(k), le) by {
                if j1 < s1_size && j2 < s2_size {
                    assert(call_ensures(compare, (&left[index(j1)], &right[index(j2)]), decided@));
                }
                lemma_merge_step(left, right, before, s1@, j1, j2, N, k, take_s1, le);
            }
        }
        k += 1;
    }
    proof {
        assert forall|le: spec_fn(T, T) -> bool| orders_by(compare, le) implies prefix(s1@, k)
            == #[trigger] merge_upto(left, right, N, le) by {
            lemma_merge_end(left, right, s1@, i1, i2, N, k, le);
        }
    }
    k
}

/// The index after `k`.
pub open spec fn add_one(k: usize) -> usize {
    (k + 1) as usize
}

/// A machine index as a mathematical one.
pub open spec fn index(k: usize) -> int {
    k as int
}

} // verus!
