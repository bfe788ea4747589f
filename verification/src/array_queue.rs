//! A first-in first-out queue on a growable ring buffer.

use vstd::prelude::*;

verus! {

/// Capacity of a queue made by `new`.
pub const DEFAULT_CAPACITY: usize = 4;

/// The capacity a full queue's buffer is grown to.
pub open spec fn grown_capacity(cap: nat) -> nat {
    if cap * 2 > 1 {
        cap * 2
    } else {
        1
    }
}

/// A first-in first-out queue: elements leave in the order they entered.
/// Stored in a ring buffer that doubles when full.
pub struct Queue<T> {
    buf: Vec<Option<T>>,
    start: usize,
    len: usize,
}

impl<T> View for Queue<T> {
    type V = Seq<T>;

    /// The queue's elements, front first.
    closed spec fn view(&self) -> Seq<T> {
        Seq::new(self.len as nat, |t: int| self.buf@[self.pos(t)].unwrap())
    }
}

impl<T> Queue<T> {
    /// Slot index that holds the queue's element number `t`, counting from
    /// the front.
    spec fn pos(self, t: int) -> int {
        if self.start + t < self.buf@.len() {
            self.start + t
        } else {
            self.start + t - self.buf@.len()
        }
    }

    /// Well-formedness: the window of `len` slots starting at `start`,
    /// with wraparound, holds the queue's elements.
    pub closed spec fn inv(self) -> bool {
        &&& self.len <= self.buf@.len()
        &&& (self.buf@.len() == 0 ==> self.start == 0)
        &&& (self.buf@.len() > 0 ==> self.start < self.buf@.len())
        &&& (forall|t: int| 0 <= t < self.len ==> (#[trigger] self.buf@[self.pos(t)]) is Some)
    }

    /// Number of slots in the ring buffer.
    pub closed spec fn spec_capacity(self) -> nat {
        self.buf@.len()
    }

    /// Creates a queue with the default capacity.
    pub fn new() -> (q: Self)
        ensures
            q.inv(),
            q@ == Seq::<T>::empty(),
            q.spec_capacity() == DEFAULT_CAPACITY,
    {
        Queue::with_capacity(DEFAULT_CAPACITY)
    }

    /// Creates a queue whose buffer has exactly `capacity` slots.
    pub fn with_capacity(capacity: usize) -> (q: Self)
        ensures
            q.inv(),
            q@ == Seq::<T>::empty(),
            q.spec_capacity() == capacity,
    {
        let mut buf: Vec<Option<T>> = Vec::new();
        while buf.len() < capacity
            invariant
                buf@.len() <= capacity,
            decreases capacity - buf@.len(),
        {
            buf.push(None);
        }
        let q = Queue { buf, start: 0, len: 0 };
        proof {
            assert(q@ =~= Seq::<T>::empty());
        }
        q
    }

    /// Moves the elements into a fresh buffer of the next capacity,
    /// unwinding the wraparound.
    fn resize(&mut self)
        requires
            old(self).inv(),
            old(self).len == old(self).spec_capacity(),
            old(self).spec_capacity() <= usize::MAX / 2,
        ensures
            final(self).inv(),
            final(self)@ == old(self)@,
            final(self).spec_capacity() == grown_capacity(old(self).spec_capacity()),
            final(self).len == old(self).len,
            final(self).start == 0,
    {
        let ghost pre = *self;
        let cap = self.buf.len();
        let doubled = cap * 2;
        let new_cap = if doubled > 1 {
            doubled
        } else {
            1
        };
        let mut src: Vec<Option<T>> = Vec::new();
        core::mem::swap(&mut src, &mut self.buf);
        let ghost s = src@;
        let mut buf: Vec<Option<T>> = Vec::new();
        let mut t: usize = 0;
        while t < self.len
            invariant
                self.len == pre.len,
                self.start == pre.start,
                t <= self.len,
                buf@.len() == t,
                src@.len() == s.len(),
                s.len() == cap,
                cap <= usize::MAX / 2,
                pre.inv(),
                s == pre.buf@,
                cap == pre.spec_capacity(),
                self.len == cap,
                forall|u: int| 0 <= u < t ==> #[trigger] buf@[u] == s[pre.pos(u)],
                forall|u: int| t <= u < self.len ==> #[trigger] src@[pre.pos(u)] == s[pre.pos(u)],
            decreases self.len - t,
        {
            let mut idx = self.start + t;
            if idx >= cap {
                idx = idx - cap;
            }
            proof {
                assert(idx == pre.pos(t as int));
            }
            let v = src[idx].take();
            buf.push(v);
            t = t + 1;
        }
        while buf.len() < new_cap
            invariant
                self.len == pre.len,
                self.start == pre.start,
                self.len <= buf@.len() <= new_cap,
                pre.inv(),
                s == pre.buf@,
                cap == pre.spec_capacity(),
                self.len == cap,
                forall|u: int| 0 <= u < self.len ==> #[trigger] buf@[u] == s[pre.pos(u)],
            decreases new_cap - buf@.len(),
        {
            buf.push(None);
        }
        self.buf = buf;
        self.start = 0;
        proof {
            assert((*self)@ =~= pre@);
        }
    }

    /// Appends an element at the back, doubling the buffer first when it
    /// is full.
    pub fn push(&mut self, value: T)
        requires
            old(self).inv(),
            old(self).spec_capacity() <= usize::MAX / 2,
        ensures
            final(self).inv(),
            final(self)@ == old(self)@.push(value),
            final(self).spec_capacity() == (if old(self)@.len() == old(self).spec_capacity() {
                grown_capacity(old(self).spec_capacity())
            } else {
                old(self).spec_capacity()
            }),
    {
        if self.len >= self.buf.len() {
            self.resize();
        }
        let ghost mid = *self;
        let cap = self.buf.len();
        let mut next = self.start + self.len;
        if next >= cap {
            next = next - cap;
        }
        proof {
            assert(next == mid.pos(mid.len as int));
        }
        self.buf[next] = Some(value);
        self.len = self.len + 1;
        proof {
            assert forall|t: int| 0 <= t < self.len implies (#[trigger] self.buf@[self.pos(t)])
                is Some by {
                if t < mid.len {
                    assert(mid.buf@[mid.pos(t)] is Some);
                    assert(self.pos(t) == mid.pos(t));
                }
            }
            assert((*self)@ =~= mid@.push(value));
        }
    }

    /// Takes the front element out, or `None` when the queue is empty.
    pub fn pop(&mut self) -> (r: Option<T>)
        requires
            old(self).inv(),
        ensures
            final(self).inv(),
            final(self).spec_capacity() == old(self).spec_capacity(),
            match r {
                Some(v) => old(self)@.len() > 0 && v == old(self)@[0] && final(self)@ == old(
                    self,
                )@.drop_first(),
                None => old(self)@.len() == 0 && *final(self) == *old(self),
            },
    {
        if self.len == 0 {
            return None;
        }
        let ghost pre = *self;
        let cap = self.buf.len();
        proof {
            assert(pre.buf@[pre.pos(0)] is Some);
        }
        let result = self.buf[self.start].take();
        self.len = self.len - 1;
        self.start = if self.start + 1 >= cap {
            0
        } else {
            self.start + 1
        };
        proof {
            assert forall|t: int| 0 <= t < self.len implies (#[trigger] self.buf@[self.pos(t)])
                is Some by {
                assert(self.pos(t) == pre.pos(t + 1));
                assert(pre.pos(t + 1) != pre.pos(0));
                assert(pre.buf@[pre.pos(t + 1)] is Some);
            }
            assert forall|t: int| 0 <= t < self.len implies (*self)@[t] == pre@[t + 1] by {
                assert(self.pos(t) == pre.pos(t + 1));
                assert(pre.pos(t + 1) != pre.pos(0));
            }
            assert((*self)@ =~= pre@.drop_first());
        }
        result
    }

    /// Number of slots in the ring buffer.
    fn capacity(&self) -> (n: usize)
        ensures
            n == self.spec_capacity(),
    {
        self.buf.len()
    }
}

} // verus!
