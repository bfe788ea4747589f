//! A ring-buffer deque that so far only knows how to be built.

use vstd::prelude::*;

verus! {

/// A double-ended queue on a preallocated ring buffer.
pub struct Deque<T> {
    buf: Vec<Option<T>>,
    start: usize,
    len: usize,
}

impl<T> View for Deque<T> {
    type V = Seq<T>;

    /// The deque's elements, front first.
    closed spec fn view(&self) -> Seq<T> {
        Seq::new(
            self.len as nat,
            |t: int|
                self.buf@[if self.start + t < self.buf@.len() {
                    self.start + t
                } else {
                    self.start + t - self.buf@.len()
                }].unwrap(),
        )
    }
}

impl<T> Deque<T> {
    /// Number of slots in the ring buffer.
    pub closed spec fn spec_capacity(self) -> nat {
        self.buf@.len()
    }

    /// Creates an empty deque whose buffer has exactly `capacity` slots.
    pub fn with_capacity(capacity: usize) -> (q: Self)
        ensures
            q@ == Seq::<T>::empty(),
            q.spec_capacity() == capacity,
    {
        let mut buf: Vec<Option<T>> = Vec::new();
        while buf.len() < capacity
            invariant
                buf@.len() <= capacity,
            decreases capacity - buf@.len(),
        {
            buf.push(None);
        }
        let q = Deque { buf, start: 0, len: 0 };
        proof {
            assert(q@ =~= Seq::<T>::empty());
        }
        q
    }
}

} // verus!
