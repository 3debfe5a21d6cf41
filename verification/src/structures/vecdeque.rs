//! A double-ended queue that refuses to grow past a fixed size.

use std::collections::VecDeque;
use vstd::prelude::*;

verus! {

/// Why a bounded queue refused an operation.
#[derive(Debug, Clone, Copy, PartialEq, Eq, Structural)]
pub enum SizedVecDequeError {
    /// The queue holds as many items as it may.
    IsFull,
    /// The index is not below the length.
    IndexOutOfRange,
    /// The queue holds nothing.
    IsEmpty,
}

/// A queue of at most `size` items; new items enter at the front.
pub struct SizedVecDeque<T> {
    inner: VecDeque<T>,
    size: usize,
}

impl<T> View for SizedVecDeque<T> {
    type V = Seq<T>;

    /// The items, front first.
    closed spec fn view(&self) -> Seq<T> {
        self.inner@
    }
}

impl<T> SizedVecDeque<T> {
    /// How many items the queue may hold.
    pub closed spec fn capacity(&self) -> nat {
        self.size as nat
    }

    /// The queue holds no more than it may.
    pub open spec fn wf(&self) -> bool {
        self@.len() <= self.capacity()
    }

    /// An empty queue for up to `size` items.
    pub fn new(size: usize) -> (queue: Self)
        ensures
            queue.wf(),
            queue@.len() == 0,
            queue.capacity() == size,
    {
        SizedVecDeque { inner: VecDeque::with_capacity(size), size }
    }

    /// How many items the queue holds, as a machine integer.
    pub closed spec fn spec_len(&self) -> usize {
        self.inner.len()
    }

    /// The front item of a queue that is not empty.
    pub fn front_item(&self) -> (item: &T)
        requires
            self@.len() > 0,
        ensures
            *item == self@[0],
    {
        &self.inner[0]
    }

    /// The item at an index below the length.
    pub fn item(&self, index: usize) -> (item: &T)
        requires
            index < self@.len(),
        ensures
            *item == self@[index as int],
    {
        &self.inner[index]
    }

    /// How many items the queue holds.
    pub fn len(&self) -> (n: usize)
        ensures
            n == self@.len(),
            n == self.spec_len(),
    {
        self.inner.len()
    }

    /// Whether the queue holds as many items as it may.
    pub fn is_full(&self) -> (full: bool)
        ensures
            full == (self@.len() == self.capacity()),
    {
        self.len() == self.size
    }

    /// Whether the queue holds nothing.
    pub fn is_empty(&self) -> (empty: bool)
        ensures
            empty == (self@.len() == 0),
    {
        self.inner.len() == 0
    }

    /// Tells whether `index` names an item.
    pub fn check_bounds(&self, index: usize) -> (r: Result<(), SizedVecDequeError>)
        ensures
            index < self@.len() ==> r is Ok,
            index >= self@.len() ==> r == Err::<(), SizedVecDequeError>(
                SizedVecDequeError::IndexOutOfRange,
            ),
    {
        if index >= self.len() {
            return Err(SizedVecDequeError::IndexOutOfRange);
        }
        Ok(())
    }

    /// Puts `value` at the front, unless the queue is full.
    pub fn insert(&mut self, value: T) -> (r: Result<(), SizedVecDequeError>)
        requires
            old(self).wf(),
        ensures
            final(self).wf(),
            final(self).capacity() == old(self).capacity(),
            old(self)@.len() < old(self).capacity() ==> r is Ok && final(self)@ == seq![value]
                + old(self)@,
            old(self)@.len() == old(self).capacity() ==> r == Err::<(), SizedVecDequeError>(
                SizedVecDequeError::IsFull,
            ) && final(self)@ == old(self)@,
    {
        if self.is_full() {
            return Err(SizedVecDequeError::IsFull);
        }
        self.inner.push_front(value);
        Ok(())
    }

    /// Takes the item at `index` out of the queue.
    pub fn remove(&mut self, index: usize) -> (r: Result<T, SizedVecDequeError>)
        requires
            old(self).wf(),
        ensures
            final(self).wf(),
            final(self).capacity() == old(self).capacity(),
            index < old(self)@.len() ==> r == Ok::<T, SizedVecDequeError>(old(self)@[index as int])
                && final(self)@ == old(self)@.remove(index as int),
            index >= old(self)@.len() ==> r == Err::<T, SizedVecDequeError>(
                SizedVecDequeError::IndexOutOfRange,
            ) && final(self)@ == old(self)@,
    {
        match self.inner.remove(index) {
            Some(value) => Ok(value),
            None => Err(SizedVecDequeError::IndexOutOfRange),
        }
    }

    /// The item at `index`.
    pub fn get(&self, index: usize) -> (r: Result<&T, SizedVecDequeError>)
        ensures
            index < self@.len() ==> r == Ok::<&T, SizedVecDequeError>(&self@[index as int]),
            index >= self@.len() ==> r == Err::<&T, SizedVecDequeError>(
                SizedVecDequeError::IndexOutOfRange,
            ),
    {
        if index >= self.len() {
            return Err(SizedVecDequeError::IndexOutOfRange);
        }
        Ok(&self.inner[index])
    }
}

/// `VecDeque::get_mut` of std: a mutable reference to the item at `index`,
/// through which the caller may replace that item and no other, or nothing
/// when the index is not below the length.
#[verifier::external_body]
fn deque_get_mut<T>(inner: &mut VecDeque<T>, index: usize) -> (r: Option<&mut T>)
    ensures
        match r {
            Some(item) => {
                &&& index < old(inner)@.len()
                &&& *item == old(inner)@[index as int]
                &&& final(inner)@ == old(inner)@.update(index as int, *final(item))
            },
            None => index >= old(inner)@.len() && final(inner)@ == old(inner)@,
        },
{
    inner.get_mut(index)
}

impl<T> SizedVecDeque<T> {
    /// A mutable reference to the item at `index`.
    pub fn get_mut(&mut self, index: usize) -> (r: Result<&mut T, SizedVecDequeError>)
        ensures
            final(self).capacity() == old(self).capacity(),
            match r {
                Ok(item) => {
                    &&& index < old(self)@.len()
                    &&& *item == old(self)@[index as int]
                    &&& final(self)@ == old(self)@.update(index as int, *final(item))
                },
                Err(e) => {
                    &&& e == SizedVecDequeError::IndexOutOfRange
                    &&& index >= old(self)@.len()
                    &&& final(self)@ == old(self)@
                },
            },
    {
        match deque_get_mut(&mut self.inner, index) {
            Some(item) => Ok(item),
            None => Err(SizedVecDequeError::IndexOutOfRange),
        }
    }

    /// Lets `f` update every item in place, front to back.
    pub fn iter_and_compute<F>(&mut self, f: F) where F: Fn(&mut T)
        requires
            forall|r: &mut T| call_requires(f, (r,)),
        ensures
            final(self).capacity() == old(self).capacity(),
            final(self)@.len() == old(self)@.len(),
            forall|g: spec_fn(T) -> T|
                (forall|r: &mut T|
                    #[trigger] call_ensures(f, (r,), ()) ==> *final(r) == g(*r))
                    ==> final(self)@ == #[trigger] old(self)@.map_values(g),
    {
        let n = self.inner.len();
        let mut i: usize = 0;
        while i < n
            invariant
                i <= n == self@.len(),
                self@.len() == old(self)@.len(),
                self.size == old(self).size,
                forall|r: &mut T| call_requires(f, (r,)),
                forall|j: int| i <= j < n ==> self@[j] == old(self)@[j],
                forall|g: spec_fn(T) -> T|
                    (forall|r: &mut T|
                        #[trigger] call_ensures(f, (r,), ()) ==> *final(r) == g(*r))
                        ==> self@.take(i as int) == #[trigger] old(self)@.take(
                        i as int,
                    ).map_values(g),
            decreases n - i,
        {
            let ghost before = self@;
            match deque_get_mut(&mut self.inner, i) {
                Some(item) => {
                    f(item);
                },
                None => {},
            }
            proof {
                assert forall|g: spec_fn(T) -> T|
                    (forall|r: &mut T|
                        #[trigger] call_ensures(f, (r,), ()) ==> *final(r) == g(*r)) implies self@.take(
                    i + 1,
                ) == #[trigger] old(self)@.take(i + 1).map_values(g) by {
                    assert(before.take(i as int) == old(self)@.take(i as int).map_values(g));
                    assert forall|j: int| 0 <= j < i implies self@[j] == g(old(self)@[j]) by {
                        assert(before.take(i as int)[j] == before[j]);
                        assert(old(self)@.take(i as int)[j] == old(self)@[j]);
                    }
                    assert(self@.take(i + 1) =~= old(self)@.take(i + 1).map_values(g));
                }
            }
            i += 1;
        }
        proof {
            assert forall|g: spec_fn(T) -> T|
                (forall|r: &mut T|
                    #[trigger] call_ensures(f, (r,), ()) ==> *final(r) == g(*r)) implies self@
                == #[trigger] old(self)@.map_values(g) by {
                assert(self@.take(n as int) =~= self@);
                assert(old(self)@.take(n as int) =~= old(self)@);
            }
        }
    }
}

} // verus!
