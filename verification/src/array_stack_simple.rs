//! An indexed stack on a growable array of optional slots, for cloneable
//! elements.
//!
//! A second, independent cut of the indexed stack: same doubling growth
//! and run shifting as [`crate::array_stack`], whose spec vocabulary
//! (`grow_to`, `pad`, `fitted`, `run_end`, `shifted`, `count_some`) it
//! shares.

use crate::array_stack::count_some;
use crate::array_stack::fitted;
use crate::array_stack::grow_to;
use crate::array_stack::lemma_all_none;
use crate::array_stack::lemma_count_bound;
use crate::array_stack::lemma_count_pad;
use crate::array_stack::lemma_count_shift;
use crate::array_stack::lemma_count_update;
use crate::array_stack::pad;
use crate::array_stack::run_end;
use crate::array_stack::shifted;
use vstd::prelude::*;

verus! {

/// Capacity of a stack made by `new`.
pub const DEFAULT_CAPACITY: usize = 4;

/// An indexed stack of optional slots with doubling growth and run
/// shifting, over cloneable elements.
pub struct Stack<T: Clone> {
    elements: Vec<Option<T>>,
    len: usize,
}

impl<T: Clone> View for Stack<T> {
    type V = Seq<Option<T>>;

    /// The slot array itself.
    closed spec fn view(&self) -> Seq<Option<T>> {
        self.elements@
    }
}

impl<T: Clone> Stack<T> {
    /// Well-formedness: the counter counts the occupied slots.
    pub closed spec fn inv(self) -> bool {
        self.len == count_some(self.elements@)
    }

    /// Creates a stack with the default capacity.
    pub fn new() -> (s: Self)
        ensures
            s.inv(),
            s@ == Seq::new(DEFAULT_CAPACITY as nat, |k: int| None::<T>),
    {
        Stack::with_capacity(DEFAULT_CAPACITY)
    }

    /// Creates a stack with exactly `capacity` empty slots.
    pub fn with_capacity(capacity: usize) -> (s: Self)
        ensures
            s.inv(),
            s@ == Seq::new(capacity as nat, |k: int| None::<T>),
    {
        let mut elements: Vec<Option<T>> = Vec::new();
        while elements.len() < capacity
            invariant
                elements@.len() <= capacity,
                forall|k: int| 0 <= k < elements@.len() ==> (#[trigger] elements@[k]) is None,
            decreases capacity - elements@.len(),
        {
            elements.push(None);
        }
        let s = Stack { elements, len: 0 };
        proof {
            assert(s@ =~= Seq::new(capacity as nat, |k: int| None::<T>));
            lemma_all_none(s@);
        }
        s
    }

    /// Number of slots.
    pub fn capacity(&self) -> (n: usize)
        ensures
            n == self@.len(),
    {
        self.elements.len()
    }

    /// Number of occupied slots.
    pub fn len(&self) -> (n: usize)
        requires
            self.inv(),
        ensures
            n == count_some(self@),
    {
        self.len
    }

    /// Doubles the array until `n` is a valid index.
    fn resize(&mut self, n: usize)
        requires
            old(self).inv(),
            n <= usize::MAX / 2,
            old(self)@.len() <= usize::MAX / 2,
        ensures
            final(self).inv(),
            final(self)@ == pad(old(self)@, grow_to(old(self)@.len(), n as nat)),
            n < final(self)@.len(),
            final(self)@.len() >= old(self)@.len(),
            final(self).len == old(self).len,
    {
        let ghost pre = *self;
        let mut new_capacity = self.elements.len();
        while n >= new_capacity
            invariant
                new_capacity <= usize::MAX,
                n <= usize::MAX / 2,
                grow_to(new_capacity as nat, n as nat) == grow_to(pre.elements@.len(), n as nat),
                new_capacity >= pre.elements@.len(),
            decreases (if n >= new_capacity {
                n + 1 - new_capacity
            } else {
                0int
            }),
        {
            new_capacity = if new_capacity * 2 > 1 {
                new_capacity * 2
            } else {
                1
            };
        }
        while self.elements.len() < new_capacity
            invariant
                self.len == pre.len,
                pre.elements@.len() <= self.elements@.len() <= new_capacity,
                self.elements@ == pad(pre.elements@, self.elements@.len()),
            decreases new_capacity - self.elements@.len(),
        {
            proof {
                assert(pad(pre.elements@, self.elements@.len() + 1) =~= pad(
                    pre.elements@,
                    self.elements@.len(),
                ).push(None));
            }
            self.elements.push(None);
        }
        proof {
            assert(self.elements@ =~= pad(pre.elements@, grow_to(pre.elements@.len(), n as nat)));
            lemma_count_pad(pre.elements@, self.elements@.len());
        }
    }

    /// Stores `value` at index `i`, growing the array first so `i` fits.
    /// Returns what the slot held.
    pub fn set(&mut self, i: usize, value: T) -> (r: Option<T>)
        requires
            old(self).inv(),
            i <= usize::MAX / 2,
            old(self)@.len() <= usize::MAX / 2,
        ensures
            final(self).inv(),
            final(self)@ == fitted(old(self)@, i as int).update(i as int, Some(value)),
            r == fitted(old(self)@, i as int)[i as int],
    {
        if i >= self.elements.len() {
            self.resize(i);
        }
        let cap_now = self.elements.len();
        let ghost p = self.elements@;
        proof {
            assert(p.len() == cap_now);
        }
        let old_slot = self.elements[i].take();
        self.elements[i] = Some(value);
        self.len = if old_slot.is_none() {
            proof {
                lemma_count_update(p, i as int, Some(value));
                lemma_count_bound(p.update(i as int, Some(value)));
            }
            self.len + 1
        } else {
            proof {
                lemma_count_update(p, i as int, Some(value));
            }
            self.len
        };
        proof {
            assert(self.elements@ =~= p.update(i as int, Some(value)));
        }
        old_slot
    }

    /// Reads the slot at index `i`; `None` past the end of the array.
    pub fn get(&mut self, i: usize) -> (r: Option<&T>)
        ensures
            *final(self) == *old(self),
            match r {
                Some(v) => i < old(self)@.len() && old(self)@[i as int] == Some(*v),
                None => i >= old(self)@.len() || old(self)@[i as int] is None,
            },
    {
        if i >= self.elements.len() {
            return None;
        }
        match &self.elements[i] {
            Some(v) => Some(v),
            None => None,
        }
    }

    /// Stores `value` at index `i` after shifting the run of occupied
    /// slots there one step right, growing the array as needed.
    pub fn add(&mut self, i: usize, value: T)
        requires
            old(self).inv(),
            i <= usize::MAX / 4,
            old(self)@.len() <= usize::MAX / 4,
        ensures
            final(self).inv(),
            ({
                let p = fitted(old(self)@, i as int);
                let e = run_end(p, i as int);
                let q = if e == p.len() {
                    pad(p, grow_to(p.len(), p.len()))
                } else {
                    p
                };
                final(self)@ == shifted(q, i as int, e).update(i as int, Some(value))
            }),
    {
        if i >= self.elements.len() {
            self.resize(i);
        }
        let ghost p = self.elements@;
        let cap = self.elements.len();
        let mut e = i;
        loop
            invariant
                self.elements@ == p,
                self.len == old(self).len,
                cap == p.len(),
                i <= e <= cap,
                run_end(p, i as int) == run_end(p, e as int),
            ensures
                self.elements@ == p,
                self.len == old(self).len,
                i <= e <= cap,
                run_end(p, i as int) == e,
                e == cap || p[e as int] is None,
            decreases cap - e,
        {
            if e == cap {
                break ;
            }
            let occupied = self.elements[e].is_some();
            if !occupied {
                break ;
            }
            e = e + 1;
        }
        if e == cap {
            self.resize(cap);
        }
        let ghost q = self.elements@;
        proof {
            if e < cap {
                assert(q == p);
            } else {
                assert(q[e as int] is None);
            }
        }
        let mut j = e;
        while j > i
            invariant
                i <= j <= e,
                (e as int) < q.len(),
                self.len == old(self).len,
                self.elements@.len() == q.len(),
                q[e as int] is None,
                self.elements@[j as int] is None,
                forall|k: int| 0 <= k < j ==> #[trigger] self.elements@[k] == q[k],
                forall|k: int| j < k <= e ==> #[trigger] self.elements@[k] == q[k - 1],
                forall|k: int| e < k < q.len() ==> #[trigger] self.elements@[k] == q[k],
            decreases j - i,
        {
            let x = self.elements[j - 1].take();
            self.elements[j] = x;
            j = j - 1;
        }
        proof {
            assert(self.elements@ =~= shifted(q, i as int, e as int));
            lemma_count_pad(p, q.len());
            lemma_count_shift(q, i as int, e as int);
        }
        let ghost shifted_q = self.elements@;
        let cap_after = self.elements.len();
        self.elements[i] = Some(value);
        proof {
            assert(shifted_q.len() == cap_after);
            lemma_count_update(shifted_q, i as int, Some(value));
            lemma_count_bound(shifted_q.update(i as int, Some(value)));
            assert(self.elements@ =~= shifted_q.update(i as int, Some(value)));
        }
        self.len = self.len + 1;
    }

    /// Empties the slot at index `i` and hands its element back; `None`
    /// past the end of the array.
    pub fn remove(&mut self, i: usize) -> (r: Option<T>)
        requires
            old(self).inv(),
        ensures
            final(self).inv(),
            match r {
                Some(v) => i < old(self)@.len() && old(self)@[i as int] == Some(v)
                    && final(self)@ == old(self)@.update(i as int, None),
                None => (i >= old(self)@.len() && *final(self) == *old(self))
                    || (i < old(self)@.len() && old(self)@[i as int] is None
                    && final(self)@ == old(self)@),
            },
    {
        if i >= self.elements.len() {
            return None;
        }
        let ghost p = self.elements@;
        let slot = self.elements[i].take();
        proof {
            lemma_count_update(p, i as int, None::<T>);
        }
        if slot.is_some() {
            self.len = self.len - 1;
            proof {
                assert(self.elements@ =~= p.update(i as int, None));
            }
        } else {
            proof {
                assert(self.elements@ =~= p);
            }
        }
        slot
    }
}

} // verus!
