//! An indexed stack on a growable array of optional slots.
//!
//! Elements live at caller-chosen indices; storing past the end doubles
//! the array until the index fits, and `add` makes room by shifting the
//! contiguous run of occupied slots at the index one step to the right.

use vstd::prelude::*;

verus! {

/// Capacity of a stack made by `new`.
pub const DEFAULT_CAPACITY: usize = 4;

/// Capacity after doubling `cap` until `n` is a valid index.
pub open spec fn grow_to(cap: nat, n: nat) -> nat
    decreases (if n >= cap {
        n + 1 - cap
    } else {
        0
    }),
{
    if n >= cap {
        grow_to(
            if cap * 2 > 1 {
                cap * 2
            } else {
                1
            },
            n,
        )
    } else {
        cap
    }
}

/// `s` padded with empty slots to `c` slots.
pub open spec fn pad<T>(s: Seq<Option<T>>, c: nat) -> Seq<Option<T>>
    recommends
        c >= s.len(),
{
    s + Seq::new((c - s.len()) as nat, |k: int| None::<T>)
}

/// `s` grown, if needed, so that `i` is a valid index.
pub open spec fn fitted<T>(s: Seq<Option<T>>, i: int) -> Seq<Option<T>> {
    if i >= s.len() {
        pad(s, grow_to(s.len(), i as nat))
    } else {
        s
    }
}

/// Index of the first empty slot at or after `i`, or the array's length
/// when every slot from `i` on is occupied.
pub open spec fn run_end<T>(s: Seq<Option<T>>, i: int) -> int
    recommends
        0 <= i,
    decreases (if i < s.len() {
        s.len() - i
    } else {
        0
    }),
{
    if i >= s.len() {
        s.len() as int
    } else if s[i] is None {
        i
    } else {
        run_end(s, i + 1)
    }
}

/// `s` with the slots in `(i, e]` moved one step right from `[i, e)`, and
/// slot `i` emptied.
pub open spec fn shifted<T>(s: Seq<Option<T>>, i: int, e: int) -> Seq<Option<T>> {
    Seq::new(
        s.len(),
        |k: int|
            if k == i {
                None
            } else if i < k <= e {
                s[k - 1]
            } else {
                s[k]
            },
    )
}

/// Number of occupied slots.
pub open spec fn count_some<T>(s: Seq<Option<T>>) -> nat
    decreases s.len(),
{
    if s.len() == 0 {
        0
    } else {
        count_some(s.drop_last()) + if s.last() is Some {
            1nat
        } else {
            0nat
        }
    }
}

/// There are never more occupied slots than slots.
pub(crate) proof fn lemma_count_bound<T>(s: Seq<Option<T>>)
    ensures
        count_some(s) <= s.len(),
    decreases s.len(),
{
    if s.len() > 0 {
        lemma_count_bound(s.drop_last());
    }
}

/// How one slot update moves the count.
pub(crate) proof fn lemma_count_update<T>(s: Seq<Option<T>>, i: int, x: Option<T>)
    requires
        0 <= i < s.len(),
    ensures
        count_some(s.update(i, x)) + (if s[i] is Some {
            1nat
        } else {
            0nat
        }) == count_some(s) + (if x is Some {
            1nat
        } else {
            0nat
        }),
    decreases s.len(),
{
    let upd = s.update(i, x);
    if i == s.len() - 1 {
        assert(upd.drop_last() =~= s.drop_last());
    } else {
        assert(upd.drop_last() =~= s.drop_last().update(i, x));
        lemma_count_update(s.drop_last(), i, x);
    }
}

/// Padding with empty slots does not change the count.
pub(crate) proof fn lemma_count_pad<T>(s: Seq<Option<T>>, c: nat)
    requires
        c >= s.len(),
    ensures
        count_some(pad(s, c)) == count_some(s),
    decreases c - s.len(),
{
    if c == s.len() {
        assert(pad(s, c) =~= s);
    } else {
        assert(pad(s, c) =~= pad(s.push(None), c));
        assert(s.push(None).drop_last() =~= s);
        lemma_count_pad(s.push(None), c);
    }
}

/// Counting occupied slots distributes over concatenation.
pub(crate) proof fn lemma_count_concat<T>(a: Seq<Option<T>>, b: Seq<Option<T>>)
    ensures
        count_some(a + b) == count_some(a) + count_some(b),
    decreases b.len(),
{
    if b.len() == 0 {
        assert(a + b =~= a);
    } else {
        assert((a + b).drop_last() =~= a + b.drop_last());
        assert((a + b).last() == b.last());
        lemma_count_concat(a, b.drop_last());
    }
}

/// Shifting an occupied run right keeps the count: the run's last element
/// lands on an empty slot.
pub(crate) proof fn lemma_count_shift<T>(s: Seq<Option<T>>, i: int, e: int)
    requires
        0 <= i <= e < s.len(),
        s[e] is None,
    ensures
        count_some(shifted(s, i, e)) == count_some(s),
{
    let a = s.subrange(0, i);
    let m = s.subrange(i, e);
    let z = seq![None::<T>];
    let d = s.subrange(e + 1, s.len() as int);
    assert(s =~= a + m + z + d);
    assert(shifted(s, i, e) =~= a + z + m + d);
    lemma_count_concat(a + m + z, d);
    lemma_count_concat(a + m, z);
    lemma_count_concat(a, m);
    lemma_count_concat(a + z + m, d);
    lemma_count_concat(a + z, m);
    lemma_count_concat(a, z);
}

/// An indexed stack of optional slots with doubling growth and run
/// shifting.
pub struct Stack<T> {
    buf: Vec<Option<T>>,
    len: usize,
}

impl<T> View for Stack<T> {
    type V = Seq<Option<T>>;

    /// The slot array itself.
    closed spec fn view(&self) -> Seq<Option<T>> {
        self.buf@
    }
}

impl<T> Stack<T> {
    /// Well-formedness: the counter counts the occupied slots.
    pub closed spec fn inv(self) -> bool {
        self.len == count_some(self.buf@)
    }

    /// Creates a stack with the default capacity.
    pub fn new() -> (s: Self)
        ensures
            s.inv(),
            s@ == Seq::new(DEFAULT_CAPACITY as nat, |k: int| None::<T>),
    {
        Stack::with_capacity(DEFAULT_CAPACITY)
    }

    /// Creates a stack with exactly `capacity` empty slots.
    pub fn with_capacity(capacity: usize) -> (s: Self)
        ensures
            s.inv(),
            s@ == Seq::new(capacity as nat, |k: int| None::<T>),
    {
        let mut buf: Vec<Option<T>> = Vec::new();
        while buf.len() < capacity
            invariant
                buf@.len() <= capacity,
                forall|k: int| 0 <= k < buf@.len() ==> (#[trigger] buf@[k]) is None,
            decreases capacity - buf@.len(),
        {
            buf.push(None);
        }
        let s = Stack { buf, len: 0 };
        proof {
            assert(s@ =~= Seq::new(capacity as nat, |k: int| None::<T>));
            lemma_all_none(s@);
        }
        s
    }

    /// Number of slots.
    pub fn capacity(&self) -> (n: usize)
        ensures
            n == self@.len(),
    {
        self.buf.len()
    }

    /// Number of occupied slots.
    pub fn len(&self) -> (n: usize)
        requires
            self.inv(),
        ensures
            n == count_some(self@),
    {
        self.len
    }

    /// Doubles the array until `n` is a valid index.
    fn resize(&mut self, n: usize)
        requires
            old(self).inv(),
            n <= usize::MAX / 2,
            old(self)@.len() <= usize::MAX / 2,
        ensures
            final(self).inv(),
            final(self)@ == pad(old(self)@, grow_to(old(self)@.len(), n as nat)),
            n < final(self)@.len(),
            final(self)@.len() >= old(self)@.len(),
            final(self).len == old(self).len,
    {
        let ghost pre = *self;
        let mut new_capacity = self.buf.len();
        while n >= new_capacity
            invariant
                new_capacity <= usize::MAX,
                n <= usize::MAX / 2,
                grow_to(new_capacity as nat, n as nat) == grow_to(pre.buf@.len(), n as nat),
                new_capacity >= pre.buf@.len(),
            decreases (if n >= new_capacity {
                n + 1 - new_capacity
            } else {
                0int
            }),
        {
            new_capacity = if new_capacity * 2 > 1 {
                new_capacity * 2
            } else {
                1
            };
        }
        while self.buf.len() < new_capacity
            invariant
                self.len == pre.len,
                pre.buf@.len() <= self.buf@.len() <= new_capacity,
                self.buf@ == pad(pre.buf@, self.buf@.len()),
            decreases new_capacity - self.buf@.len(),
        {
            proof {
                assert(pad(pre.buf@, self.buf@.len() + 1) =~= pad(
                    pre.buf@,
                    self.buf@.len(),
                ).push(None));
            }
            self.buf.push(None);
        }
        proof {
            assert(self.buf@ =~= pad(pre.buf@, grow_to(pre.buf@.len(), n as nat)));
            lemma_count_pad(pre.buf@, self.buf@.len());
        }
    }

    /// Stores `value` at index `i`, growing the array first so `i` fits.
    /// Returns what the slot held.
    pub fn set(&mut self, i: usize, value: T) -> (r: Option<T>)
        requires
            old(self).inv(),
            i <= usize::MAX / 2,
            old(self)@.len() <= usize::MAX / 2,
        ensures
            final(self).inv(),
            final(self)@ == fitted(old(self)@, i as int).update(i as int, Some(value)),
            r == fitted(old(self)@, i as int)[i as int],
    {
        if i >= self.buf.len() {
            self.resize(i);
        }
        let cap_now = self.buf.len();
        let ghost p = self.buf@;
        proof {
            assert(p.len() == cap_now);
        }
        let old_slot = self.buf[i].take();
        self.buf[i] = Some(value);
        self.len = if old_slot.is_none() {
            proof {
                lemma_count_update(p, i as int, Some(value));
                lemma_count_bound(p.update(i as int, Some(value)));
            }
            self.len + 1
        } else {
            proof {
                lemma_count_update(p, i as int, Some(value));
            }
            self.len
        };
        proof {
            assert(self.buf@ =~= p.update(i as int, Some(value)));
        }
        old_slot
    }

    /// Reads the slot at index `i`; `None` past the end of the array.
    pub fn get(&mut self, i: usize) -> (r: Option<&T>)
        ensures
            *final(self) == *old(self),
            match r {
                Some(v) => i < old(self)@.len() && old(self)@[i as int] == Some(*v),
                None => i >= old(self)@.len() || old(self)@[i as int] is None,
            },
    {
        if i >= self.buf.len() {
            return None;
        }
        match &self.buf[i] {
            Some(v) => Some(v),
            None => None,
        }
    }

    /// Stores `value` at index `i` after shifting the run of occupied
    /// slots there one step right, growing the array as needed.
    pub fn add(&mut self, i: usize, value: T)
        requires
            old(self).inv(),
            i <= usize::MAX / 4,
            old(self)@.len() <= usize::MAX / 4,
        ensures
            final(self).inv(),
            ({
                let p = fitted(old(self)@, i as int);
                let e = run_end(p, i as int);
                let q = if e == p.len() {
                    pad(p, grow_to(p.len(), p.len()))
                } else {
                    p
                };
                final(self)@ == shifted(q, i as int, e).update(i as int, Some(value))
            }),
    {
        if i >= self.buf.len() {
            self.resize(i);
        }
        let ghost p = self.buf@;
        let cap = self.buf.len();
        let mut e = i;
        loop
            invariant
                self.buf@ == p,
                self.len == old(self).len,
                cap == p.len(),
                i <= e <= cap,
                run_end(p, i as int) == run_end(p, e as int),
            ensures
                self.buf@ == p,
                self.len == old(self).len,
                i <= e <= cap,
                run_end(p, i as int) == e,
                e == cap || p[e as int] is None,
            decreases cap - e,
        {
            if e == cap {
                break ;
            }
            let occupied = self.buf[e].is_some();
            if !occupied {
                break ;
            }
            e = e + 1;
        }
        if e == cap {
            self.resize(cap);
        }
        let ghost q = self.buf@;
        proof {
            if e < cap {
                assert(q == p);
            } else {
                assert(q[e as int] is None);
            }
        }
        let mut j = e;
        while j > i
            invariant
                i <= j <= e,
                (e as int) < q.len(),
                self.len == old(self).len,
                self.buf@.len() == q.len(),
                q[e as int] is None,
                self.buf@[j as int] is None,
                forall|k: int| 0 <= k < j ==> #[trigger] self.buf@[k] == q[k],
                forall|k: int| j < k <= e ==> #[trigger] self.buf@[k] == q[k - 1],
                forall|k: int| e < k < q.len() ==> #[trigger] self.buf@[k] == q[k],
            decreases j - i,
        {
            let x = self.buf[j - 1].take();
            self.buf[j] = x;
            j = j - 1;
        }
        proof {
            assert(self.buf@ =~= shifted(q, i as int, e as int));
            lemma_count_pad(p, q.len());
            lemma_count_shift(q, i as int, e as int);
        }
        let ghost shifted_q = self.buf@;
        let cap_after = self.buf.len();
        self.buf[i] = Some(value);
        proof {
            assert(shifted_q.len() == cap_after);
            lemma_count_update(shifted_q, i as int, Some(value));
            lemma_count_bound(shifted_q.update(i as int, Some(value)));
            assert(self.buf@ =~= shifted_q.update(i as int, Some(value)));
        }
        self.len = self.len + 1;
    }

    /// Empties the slot at index `i` and hands its element back; `None`
    /// past the end of the array.
    pub fn remove(&mut self, i: usize) -> (r: Option<T>)
        requires
            old(self).inv(),
        ensures
            final(self).inv(),
            match r {
                Some(v) => i < old(self)@.len() && old(self)@[i as int] == Some(v)
                    && final(self)@ == old(self)@.update(i as int, None),
                None => (i >= old(self)@.len() && *final(self) == *old(self))
                    || (i < old(self)@.len() && old(self)@[i as int] is None
                    && final(self)@ == old(self)@),
            },
    {
        if i >= self.buf.len() {
            return None;
        }
        let ghost p = self.buf@;
        let slot = self.buf[i].take();
        proof {
            lemma_count_update(p, i as int, None::<T>);
        }
        if slot.is_some() {
            self.len = self.len - 1;
            proof {
                assert(self.buf@ =~= p.update(i as int, None));
            }
        } else {
            proof {
                assert(self.buf@ =~= p);
            }
        }
        slot
    }
}

/// An all-empty slot array holds nothing.
pub(crate) proof fn lemma_all_none<T>(s: Seq<Option<T>>)
    requires
        forall|k: int| 0 <= k < s.len() ==> (#[trigger] s[k]) is None,
    ensures
        count_some(s) == 0,
    decreases s.len(),
{
    if s.len() > 0 {
        assert(forall|k: int|
            0 <= k < s.drop_last().len() ==> (#[trigger] s.drop_last()[k]) is None);
        lemma_all_none(s.drop_last());
        assert(s[s.len() - 1] is None);
    }
}

/// Where the first empty slot at or after `i` lies.
pub(crate) proof fn lemma_run_end_bounds<T>(s: Seq<Option<T>>, i: int)
    requires
        0 <= i <= s.len(),
    ensures
        i <= run_end(s, i) <= s.len(),
        run_end(s, i) < s.len() ==> s[run_end(s, i)] is None,
        forall|k: int| i <= k < run_end(s, i) ==> (#[trigger] s[k]) is Some,
    decreases s.len() - i,
{
    if i < s.len() && !(s[i] is None) {
        lemma_run_end_bounds(s, i + 1);
    }
}

} // verus!
