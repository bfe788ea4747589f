//! A double-ended queue (deque) implemented with a growable ring buffer.
//!
//! Inserts and removals at both ends run in amortized constant time. The
//! buffer doubles when full, unwinding the wraparound so the front lands
//! at slot zero.

use vstd::prelude::*;

verus! {

/// Capacity of a deque made by `new`.
pub const DEFAULT_CAPACITY: usize = 4;

/// The capacity a full deque's buffer is grown to.
pub open spec fn grown_capacity(cap: nat) -> nat {
    if cap * 2 > 1 {
        cap * 2
    } else {
        1
    }
}

/// A double-ended queue on a growable ring buffer.
pub struct VecDeque<T> {
    head: usize,
    len: usize,
    buf: Vec<Option<T>>,
}

impl<T> View for VecDeque<T> {
    type V = Seq<T>;

    /// The deque's elements, front first.
    closed spec fn view(&self) -> Seq<T> {
        Seq::new(self.len as nat, |t: int| self.buf@[self.pos(t)].unwrap())
    }
}

impl<T> VecDeque<T> {
    /// Slot index that holds the deque's element number `t`, counting from
    /// the front.
    spec fn pos(self, t: int) -> int {
        if self.head + t < self.buf@.len() {
            self.head + t
        } else {
            self.head + t - self.buf@.len()
        }
    }

    /// Well-formedness: the window of `len` slots starting at `head`, with
    /// wraparound, holds the deque's elements.
    pub closed spec fn inv(self) -> bool {
        &&& self.len <= self.buf@.len()
        &&& (self.buf@.len() == 0 ==> self.head == 0)
        &&& (self.buf@.len() > 0 ==> self.head < self.buf@.len())
        &&& (forall|t: int| 0 <= t < self.len ==> (#[trigger] self.buf@[self.pos(t)]) is Some)
    }

    /// Number of slots in the ring buffer.
    pub closed spec fn spec_capacity(self) -> nat {
        self.buf@.len()
    }

    /// What the slot at raw buffer index `i` holds.
    pub closed spec fn buf_at(self, i: int) -> Option<T> {
        self.buf@[i]
    }

    /// Creates an empty deque with the default capacity.
    pub fn new() -> (q: Self)
        ensures
            q.inv(),
            q@ == Seq::<T>::empty(),
            q.spec_capacity() == DEFAULT_CAPACITY,
    {
        VecDeque::with_capacity(DEFAULT_CAPACITY)
    }

    /// Creates an empty deque whose buffer has exactly `capacity` slots.
    pub fn with_capacity(capacity: usize) -> (q: Self)
        ensures
            q.inv(),
            q@ == Seq::<T>::empty(),
            q.spec_capacity() == capacity,
    {
        let mut buf: Vec<Option<T>> = Vec::new();
        while buf.len() < capacity
            invariant
                buf@.len() <= capacity,
            decreases capacity - buf@.len(),
        {
            buf.push(None);
        }
        let q = VecDeque { head: 0, len: 0, buf };
        proof {
            assert(q@ =~= Seq::<T>::empty());
        }
        q
    }

    /// Number of elements the deque can hold without reallocating.
    pub fn capacity(&self) -> (n: usize)
        ensures
            n == self.spec_capacity(),
    {
        self.buf.len()
    }

    /// Whether the deque holds no element.
    pub fn is_empty(&self) -> (b: bool)
        requires
            self.inv(),
        ensures
            b == (self@.len() == 0),
    {
        self.len == 0
    }

    /// Hands back what the slot at raw buffer index `i` holds.
    pub fn slot(&self, i: usize) -> (r: Option<&T>)
        requires
            i < self.spec_capacity(),
        ensures
            match r {
                Some(v) => self.buf_at(i as int) == Some(*v),
                None => self.buf_at(i as int) is None,
            },
    {
        match &self.buf[i] {
            Some(v) => Some(v),
            None => None,
        }
    }

    /// Whether the buffer is at full capacity.
    fn is_full(&self) -> (b: bool)
        requires
            self.inv(),
        ensures
            b == (self@.len() == self.spec_capacity()),
    {
        self.len == self.buf.len()
    }

    /// Moves the elements into a fresh buffer of the next capacity,
    /// unwinding the wraparound.
    fn grow(&mut self)
        requires
            old(self).inv(),
            old(self).len == old(self).spec_capacity(),
            old(self).spec_capacity() <= usize::MAX / 2,
        ensures
            final(self).inv(),
            final(self)@ == old(self)@,
            final(self).spec_capacity() == grown_capacity(old(self).spec_capacity()),
            final(self).len == old(self).len,
            final(self).head == 0,
    {
        let ghost pre = *self;
        let cap = self.buf.len();
        let doubled = cap * 2;
        let new_cap = if doubled > 1 {
            doubled
        } else {
            1
        };
        let mut src: Vec<Option<T>> = Vec::new();
        core::mem::swap(&mut src, &mut self.buf);
        let ghost s = src@;
        let mut buf: Vec<Option<T>> = Vec::new();
        let mut t: usize = 0;
        while t < self.len
            invariant
                self.len == pre.len,
                self.head == pre.head,
                t <= self.len,
                buf@.len() == t,
                src@.len() == s.len(),
                s.len() == cap,
                cap <= usize::MAX / 2,
                pre.inv(),
                s == pre.buf@,
                cap == pre.spec_capacity(),
                self.len == cap,
                forall|u: int| 0 <= u < t ==> #[trigger] buf@[u] == s[pre.pos(u)],
                forall|u: int| t <= u < self.len ==> #[trigger] src@[pre.pos(u)] == s[pre.pos(u)],
            decreases self.len - t,
        {
            let mut idx = self.head + t;
            if idx >= cap {
                idx = idx - cap;
            }
            proof {
                assert(idx == pre.pos(t as int));
            }
            let v = src[idx].take();
            buf.push(v);
            t = t + 1;
        }
        while buf.len() < new_cap
            invariant
                self.len == pre.len,
                self.len <= buf@.len() <= new_cap,
                pre.inv(),
                s == pre.buf@,
                cap == pre.spec_capacity(),
                self.len == cap,
                forall|u: int| 0 <= u < self.len ==> #[trigger] buf@[u] == s[pre.pos(u)],
            decreases new_cap - buf@.len(),
        {
            buf.push(None);
        }
        self.buf = buf;
        self.head = 0;
        proof {
            assert((*self)@ =~= pre@);
        }
    }

    /// Appends an element at the back, doubling the buffer first when it
    /// is full.
    pub fn push_back(&mut self, value: T)
        requires
            old(self).inv(),
            old(self).spec_capacity() <= usize::MAX / 2,
        ensures
            final(self).inv(),
            final(self)@ == old(self)@.push(value),
            final(self).spec_capacity() == (if old(self)@.len() == old(self).spec_capacity() {
                grown_capacity(old(self).spec_capacity())
            } else {
                old(self).spec_capacity()
            }),
    {
        if self.is_full() {
            self.grow();
        }
        let ghost mid = *self;
        let cap = self.buf.len();
        let mut next = self.head + self.len;
        if next >= cap {
            next = next - cap;
        }
        proof {
            assert(next == mid.pos(mid.len as int));
        }
        self.buf[next] = Some(value);
        self.len = self.len + 1;
        proof {
            assert forall|t: int| 0 <= t < self.len implies (#[trigger] self.buf@[self.pos(t)])
                is Some by {
                if t < mid.len {
                    assert(mid.buf@[mid.pos(t)] is Some);
                    assert(self.pos(t) == mid.pos(t));
                }
            }
            assert((*self)@ =~= mid@.push(value));
        }
    }

    /// Prepends an element at the front, doubling the buffer first when it
    /// is full.
    pub fn push_front(&mut self, value: T)
        requires
            old(self).inv(),
            old(self).spec_capacity() <= usize::MAX / 2,
        ensures
            final(self).inv(),
            final(self)@ == seq![value] + old(self)@,
            final(self).spec_capacity() == (if old(self)@.len() == old(self).spec_capacity() {
                grown_capacity(old(self).spec_capacity())
            } else {
                old(self).spec_capacity()
            }),
    {
        if self.is_full() {
            self.grow();
        }
        let ghost mid = *self;
        let cap = self.buf.len();
        self.head = if self.head == 0 {
            cap - 1
        } else {
            self.head - 1
        };
        self.buf[self.head] = Some(value);
        self.len = self.len + 1;
        proof {
            assert forall|t: int| 0 <= t < self.len implies (#[trigger] self.buf@[self.pos(t)])
                is Some by {
                if 1 <= t {
                    assert(self.pos(t) == mid.pos(t - 1));
                    assert(mid.buf@[mid.pos(t - 1)] is Some);
                    assert(mid.pos(t - 1) != self.head);
                }
            }
            assert forall|t: int| 1 <= t < self.len implies (*self)@[t] == mid@[t - 1] by {
                assert(self.pos(t) == mid.pos(t - 1));
                assert(mid.pos(t - 1) != self.head);
            }
            assert((*self)@ =~= seq![value] + mid@);
        }
    }

    /// Takes the back element out, or `None` when the deque is empty.
    pub fn pop_back(&mut self) -> (r: Option<T>)
        requires
            old(self).inv(),
        ensures
            final(self).inv(),
            final(self).spec_capacity() == old(self).spec_capacity(),
            match r {
                Some(v) => old(self)@.len() > 0 && v == old(self)@.last() && final(self)@ == old(
                    self,
                )@.drop_last(),
                None => old(self)@.len() == 0 && *final(self) == *old(self),
            },
    {
        if self.len == 0 {
            return None;
        }
        let ghost pre = *self;
        let cap = self.buf.len();
        self.len = self.len - 1;
        let k = self.len;
        let i = if k < cap - self.head {
            self.head + k
        } else {
            k - (cap - self.head)
        };
        proof {
            assert(i == pre.pos(self.len as int));
            assert(pre.buf@[pre.pos(self.len as int)] is Some);
        }
        let result = self.buf[i].take();
        proof {
            assert forall|t: int| 0 <= t < self.len implies (#[trigger] self.buf@[self.pos(t)])
                is Some by {
                assert(self.pos(t) == pre.pos(t));
                assert(pre.pos(t) != pre.pos(pre.len - 1));
                assert(pre.buf@[pre.pos(t)] is Some);
            }
            assert forall|t: int| 0 <= t < self.len implies (*self)@[t] == pre@[t] by {
                assert(self.pos(t) == pre.pos(t));
                assert(pre.pos(t) != pre.pos(pre.len - 1));
            }
            assert((*self)@ =~= pre@.drop_last());
        }
        result
    }

    /// Takes the front element out, or `None` when the deque is empty.
    pub fn pop_front(&mut self) -> (r: Option<T>)
        requires
            old(self).inv(),
        ensures
            final(self).inv(),
            final(self).spec_capacity() == old(self).spec_capacity(),
            match r {
                Some(v) => old(self)@.len() > 0 && v == old(self)@[0] && final(self)@ == old(
                    self,
                )@.drop_first(),
                None => old(self)@.len() == 0 && *final(self) == *old(self),
            },
    {
        if self.len == 0 {
            return None;
        }
        let ghost pre = *self;
        let cap = self.buf.len();
        proof {
            assert(pre.buf@[pre.pos(0)] is Some);
        }
        let result = self.buf[self.head].take();
        self.len = self.len - 1;
        self.head = if self.head + 1 >= cap {
            0
        } else {
            self.head + 1
        };
        proof {
            assert forall|t: int| 0 <= t < self.len implies (#[trigger] self.buf@[self.pos(t)])
                is Some by {
                assert(self.pos(t) == pre.pos(t + 1));
                assert(pre.pos(t + 1) != pre.pos(0));
                assert(pre.buf@[pre.pos(t + 1)] is Some);
            }
            assert forall|t: int| 0 <= t < self.len implies (*self)@[t] == pre@[t + 1] by {
                assert(self.pos(t) == pre.pos(t + 1));
                assert(pre.pos(t + 1) != pre.pos(0));
            }
            assert((*self)@ =~= pre@.drop_first());
        }
        result
    }
}

} // verus!
