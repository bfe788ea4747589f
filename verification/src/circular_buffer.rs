//! A fixed-size overwriting ring buffer.
//!
//! One slot is always kept free to tell a full buffer from an empty one,
//! so a buffer of `n` slots holds at most `n - 1` elements; pushing into a
//! full buffer overwrites the oldest element.

use vstd::prelude::*;

verus! {

/// Capacity of a buffer made by `new`.
pub const DEFAULT_CAPACITY: usize = 5;

/// A fixed-size ring buffer whose writer overruns its reader.
pub struct Buffer<T> {
    buf: Vec<Option<T>>,
    head: usize,
    tail: usize,
}

impl<T> View for Buffer<T> {
    type V = Seq<T>;

    /// The buffered elements, oldest first.
    closed spec fn view(&self) -> Seq<T> {
        Seq::new(self.ring_len() as nat, |t: int| self.buf@[self.pos(t)].unwrap())
    }
}

impl<T> Buffer<T> {
    /// Number of elements between the reader and the writer.
    spec fn ring_len(self) -> int {
        if self.head >= self.tail {
            self.head - self.tail
        } else {
            self.head + self.buf@.len() - self.tail
        }
    }

    /// Slot index that holds the buffer's element number `t`, counting
    /// from the oldest.
    spec fn pos(self, t: int) -> int {
        if self.tail + t < self.buf@.len() {
            self.tail + t
        } else {
            self.tail + t - self.buf@.len()
        }
    }

    /// Well-formedness: reader and writer are inside the buffer and the
    /// window between them holds the elements.
    pub closed spec fn inv(self) -> bool {
        &&& (self.buf@.len() == 0 ==> self.head == 0 && self.tail == 0)
        &&& (self.buf@.len() > 0 ==> self.head < self.buf@.len() && self.tail < self.buf@.len())
        &&& (forall|t: int| 0 <= t < self.ring_len() ==> (#[trigger] self.buf@[self.pos(t)])
            is Some)
    }

    /// Number of slots in the buffer.
    pub closed spec fn spec_capacity(self) -> nat {
        self.buf@.len()
    }

    /// Creates a buffer with the default capacity.
    pub fn new() -> (b: Self)
        ensures
            b.inv(),
            b@ == Seq::<T>::empty(),
            b.spec_capacity() == DEFAULT_CAPACITY,
    {
        Buffer::with_capacity(DEFAULT_CAPACITY)
    }

    /// Creates a buffer with exactly `capacity` slots.
    pub fn with_capacity(capacity: usize) -> (b: Self)
        ensures
            b.inv(),
            b@ == Seq::<T>::empty(),
            b.spec_capacity() == capacity,
    {
        let mut buf: Vec<Option<T>> = Vec::new();
        while buf.len() < capacity
            invariant
                buf@.len() <= capacity,
            decreases capacity - buf@.len(),
        {
            buf.push(None);
        }
        let b = Buffer { buf, head: 0, tail: 0 };
        proof {
            assert(b@ =~= Seq::<T>::empty());
        }
        b
    }

    /// Appends an element, overwriting the oldest one when the buffer is
    /// full.
    pub fn push(&mut self, value: T)
        requires
            old(self).inv(),
            old(self).spec_capacity() > 0,
        ensures
            final(self).inv(),
            final(self).spec_capacity() == old(self).spec_capacity(),
            final(self)@ == (if old(self).spec_capacity() == 1 {
                old(self)@
            } else if old(self)@.len() == old(self).spec_capacity() - 1 {
                old(self)@.drop_first().push(value)
            } else {
                old(self)@.push(value)
            }),
    {
        let ghost pre = *self;
        let cap = self.buf.len();
        let mut next = self.head + 1;
        if next >= cap {
            next = 0;
        }
        self.buf[self.head] = Some(value);
        self.head = next;
        if next == self.tail {
            // The buffer is full: move the reader past the overwritten
            // element, with wraparound.
            self.tail = if self.tail + 1 >= cap {
                0
            } else {
                self.tail + 1
            };
        }
        proof {
            let full = pre.ring_len() == cap - 1;
            assert(self.ring_len() == if full {
                pre.ring_len()
            } else {
                pre.ring_len() + 1
            });
            let shift = if full {
                1int
            } else {
                0int
            };
            assert forall|t: int| 0 <= t < self.ring_len() implies (
            #[trigger] self.buf@[self.pos(t)]) is Some && (t < self.ring_len() - 1 ==> self.buf@[
                self.pos(t)
            ] == pre.buf@[pre.pos(t + shift)]) by {
                if t < self.ring_len() - 1 {
                    assert(self.pos(t) == pre.pos(t + shift));
                    assert(pre.pos(t + shift) != pre.head);
                    assert(pre.buf@[pre.pos(t + shift)] is Some);
                } else {
                    assert(self.pos(t) == pre.head);
                }
            }
            if cap == 1 {
                assert((*self)@ =~= pre@);
            } else if full {
                assert((*self)@ =~= pre@.drop_first().push(value));
            } else {
                assert((*self)@ =~= pre@.push(value));
            }
        }
    }

    /// Takes the oldest element out, or `None` when the buffer is empty.
    pub fn pop(&mut self) -> (r: Option<T>)
        requires
            old(self).inv(),
        ensures
            final(self).inv(),
            final(self).spec_capacity() == old(self).spec_capacity(),
            match r {
                Some(v) => old(self)@.len() > 0 && v == old(self)@[0] && final(self)@ == old(
                    self,
                )@.drop_first(),
                None => old(self)@.len() == 0 && *final(self) == *old(self),
            },
    {
        if self.head == self.tail {
            return None;
        }
        let ghost pre = *self;
        let cap = self.buf.len();
        proof {
            assert(pre.buf@[pre.pos(0)] is Some);
        }
        let result = self.buf[self.tail].take();
        self.tail = if self.tail + 1 >= cap {
            0
        } else {
            self.tail + 1
        };
        proof {
            assert(self.ring_len() == pre.ring_len() - 1);
            assert forall|t: int| 0 <= t < self.ring_len() implies (
            #[trigger] self.buf@[self.pos(t)]) is Some && self.buf@[self.pos(t)] == pre.buf@[
                pre.pos(t + 1)
            ] by {
                assert(self.pos(t) == pre.pos(t + 1));
                assert(pre.pos(t + 1) != pre.pos(0));
                assert(pre.buf@[pre.pos(t + 1)] is Some);
            }
            assert((*self)@ =~= pre@.drop_first());
        }
        result
    }
}

} // verus!
