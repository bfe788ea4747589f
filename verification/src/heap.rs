//! A binary min-heap on a vector.
//!
//! Insertion bubbles the new element up; extraction moves the last
//! element to the root and sifts it down. Both run in logarithmic time.

use crate::order::Rank;
use crate::order::TotalOrder;
use vstd::prelude::*;
use vstd::seq_lib::group_to_multiset_ensures;
use vstd::seq_lib::to_multiset_update;

verus! {

/// The binary-heap ordering: every element sits below no smaller parent.
pub open spec fn is_heap<T: TotalOrder>(s: Seq<T>) -> bool {
    forall|i: int| 1 <= i < s.len() ==> s[(i - 1) / 2].le_spec(#[trigger] s[i])
}

/// Heap ordering everywhere except on the edge into `j` from its parent.
spec fn heap_except_up<T: TotalOrder>(s: Seq<T>, j: int) -> bool {
    forall|i: int| 1 <= i < s.len() && i != j ==> s[(i - 1) / 2].le_spec(#[trigger] s[i])
}

/// Heap ordering everywhere except on the edges out of `j` to its
/// children.
spec fn heap_except_down<T: TotalOrder>(s: Seq<T>, j: int) -> bool {
    forall|i: int| 1 <= i < s.len() && (i - 1) / 2 != j ==> s[(i - 1) / 2].le_spec(#[trigger] s[i])
}

/// Swapping two elements keeps the multiset of elements.
proof fn lemma_swap_multiset<T>(s: Seq<T>, i: int, j: int)
    requires
        0 <= i < s.len(),
        0 <= j < s.len(),
    ensures
        s.update(i, s[j]).update(j, s[i]).to_multiset() == s.to_multiset(),
{
    broadcast use to_multiset_update, group_to_multiset_ensures;

    let s1 = s.update(i, s[j]);
    assert(s.contains(s[i]));
    assert(s.contains(s[j]));
    assert(s1.update(j, s[i]).to_multiset() =~= s.to_multiset());
}

/// In a heap the root is a minimum.
proof fn lemma_heap_root_min<T: TotalOrder>(s: Seq<T>, i: int)
    requires
        is_heap(s),
        0 <= i < s.len(),
    ensures
        s[0].le_spec(s[i]),
    decreases i,
{
    if i == 0 {
        T::lemma_reflexive(s[0]);
    } else {
        lemma_heap_root_min(s, (i - 1) / 2);
        T::lemma_transitive(s[0], s[(i - 1) / 2], s[i]);
    }
}

/// A binary min-heap of copyable, totally ordered elements.
pub struct MinHeap<T: TotalOrder + Copy> {
    heap: Vec<T>,
}

impl<T: TotalOrder + Copy> View for MinHeap<T> {
    type V = Seq<T>;

    /// The heap's backing vector, root first, level by level.
    closed spec fn view(&self) -> Seq<T> {
        self.heap@
    }
}

impl<T: TotalOrder + Copy> MinHeap<T> {
    /// Creates an empty heap.
    pub fn new() -> (h: Self)
        ensures
            h@ == Seq::<T>::empty(),
            is_heap(h@),
    {
        let h = MinHeap { heap: Vec::new() };
        proof {
            assert(h@ =~= Seq::<T>::empty());
        }
        h
    }

    /// The heap's backing vector, root first, level by level.
    pub fn items(&self) -> (r: &Vec<T>)
        ensures
            r@ == self@,
    {
        &self.heap
    }

    /// Adds an element, keeping the heap ordered.
    pub fn insert(&mut self, value: T)
        requires
            is_heap(old(self)@),
            old(self)@.len() < usize::MAX,
        ensures
            is_heap(final(self)@),
            final(self)@.len() == old(self)@.len() + 1,
            final(self)@.to_multiset() == old(self)@.to_multiset().insert(value),
    {
        proof {
            broadcast use group_to_multiset_ensures;

        }
        self.heap.push(value);
        let idx = self.heap.len() - 1;
        self.bubble_up(idx);
    }

    /// Moves the element at `index`, a fresh leaf, up to its place.
    fn bubble_up(&mut self, index: usize)
        requires
            index + 1 == old(self)@.len(),
            heap_except_up(old(self)@, index as int),
        ensures
            is_heap(final(self)@),
            final(self)@.len() == old(self)@.len(),
            final(self)@.to_multiset() == old(self)@.to_multiset(),
    {
        let mut child: usize = index;
        loop
            invariant
                child < self@.len(),
                heap_except_up(self@, child as int),
                self@.len() == old(self)@.len(),
                self@.to_multiset() == old(self)@.to_multiset(),
                forall|d: int|
                    1 <= d < self@.len() && (d - 1) / 2 == child && child > 0 ==> self@[(((
                    child - 1) / 2) as int)].le_spec(#[trigger] self@[d]),
            ensures
                is_heap(self@),
                self@.len() == old(self)@.len(),
                self@.to_multiset() == old(self)@.to_multiset(),
            decreases child,
        {
            if child == 0 {
                break ;
            }
            let parent = (child - 1) / 2;
            let above = match self.heap[parent].compare(&self.heap[child]) {
                Rank::Greater => true,
                _ => false,
            };
            if !above {
                // The one missing edge already obeys the ordering.
                proof {
                    T::lemma_reflexive(self@[child as int]);
                }
                break ;
            }
            let ghost s = self.heap@;
            let ghost c = child as int;
            let ghost p = parent as int;
            let a = self.heap[parent];
            let b = self.heap[child];
            self.heap[parent] = b;
            self.heap[child] = a;
            proof {
                lemma_swap_multiset(s, p, c);
                assert(self.heap@ == s.update(p, s[c]).update(c, s[p]));
                let s2 = self.heap@;
                assert forall|i: int| 1 <= i < s2.len() && i != p implies s2[(i - 1) / 2].le_spec(
                    #[trigger] s2[i],
                ) by {
                    if i == c {
                    } else if (i - 1) / 2 == c {
                        assert(s[p].le_spec(s[i]));
                    } else if (i - 1) / 2 == p {
                        assert(s[p].le_spec(s[i]));
                        T::lemma_transitive(s[c], s[p], s[i]);
                    } else {
                        assert(s[(i - 1) / 2].le_spec(s[i]));
                    }
                }
                if p > 0 {
                    assert forall|d: int| 1 <= d < s2.len() && (d - 1) / 2 == p implies s2[(((p
                        - 1) / 2) as int)].le_spec(#[trigger] s2[d]) by {
                        let pp = (p - 1) / 2;
                        if d == c {
                            assert(s[pp].le_spec(s[p]));
                        } else {
                            assert(s[p].le_spec(s[d]));
                            assert(s[pp].le_spec(s[p]));
                            T::lemma_transitive(s[pp], s[p], s[d]);
                        }
                    }
                }
            }
            child = parent;
        }
    }

    /// Takes the minimum out, or `None` when the heap is empty.
    pub fn pop(&mut self) -> (r: Option<T>)
        requires
            is_heap(old(self)@),
        ensures
            is_heap(final(self)@),
            match r {
                Some(m) => old(self)@.len() > 0 && m == old(self)@[0] && (forall|i: int|
                    0 <= i < old(self)@.len() ==> m.le_spec(#[trigger] old(self)@[i]))
                    && final(self)@.to_multiset() == old(self)@.to_multiset().remove(m)
                    && final(self)@.len() == old(self)@.len() - 1,
                None => old(self)@.len() == 0 && *final(self) == *old(self),
            },
    {
        if self.heap.is_empty() {
            return None;
        }
        let ghost s = self.heap@;
        proof {
            broadcast use group_to_multiset_ensures;

            assert forall|i: int| 0 <= i < s.len() implies s[0].le_spec(#[trigger] s[i]) by {
                lemma_heap_root_min(s, i);
            }
        }
        let min_value = self.heap.swap_remove(0);
        proof {
            broadcast use group_to_multiset_ensures, to_multiset_update;

            let upd = s.update(0, s.last());
            assert(self.heap@ =~= upd.drop_last());
            assert(upd.drop_last() =~= upd.remove(upd.len() - 1));
            assert(upd.remove(upd.len() - 1).to_multiset() =~= upd.to_multiset().remove(
                s.last(),
            ));
            assert(upd.to_multiset() =~= s.to_multiset().insert(s.last()).remove(s[0]));
            assert(s.contains(s[0]));
            assert(s.contains(s.last()));
            assert(self.heap@.to_multiset() =~= s.to_multiset().remove(s[0]));
            assert(heap_except_down(self.heap@, 0)) by {
                assert forall|i: int|
                    1 <= i < self.heap@.len() && (i - 1) / 2 != 0 implies self.heap@[(i - 1)
                    / 2].le_spec(#[trigger] self.heap@[i]) by {
                    assert(self.heap@[(i - 1) / 2] == s[(i - 1) / 2]);
                    assert(self.heap@[i] == s[i]);
                }
            }
        }
        self.buble_down(0);
        Some(min_value)
    }

    /// Sifts the element at `index` down to its place.
    fn buble_down(&mut self, index: usize)
        requires
            index == 0,
            heap_except_down(old(self)@, index as int),
        ensures
            is_heap(final(self)@),
            final(self)@.len() == old(self)@.len(),
            final(self)@.to_multiset() == old(self)@.to_multiset(),
    {
        let len = self.heap.len();
        let mut parent: usize = index;
        loop
            invariant
                len == self@.len(),
                len > 0 ==> parent < len,
                len == 0 ==> parent == 0,
                heap_except_down(self@, parent as int),
                self@.len() == old(self)@.len(),
                self@.to_multiset() == old(self)@.to_multiset(),
                parent > 0 ==> (forall|d: int|
                    1 <= d < self@.len() && (d - 1) / 2 == parent ==> self@[(((parent - 1)
                        / 2) as int)].le_spec(#[trigger] self@[d])),
            ensures
                is_heap(self@),
                self@.len() == old(self)@.len(),
                self@.to_multiset() == old(self)@.to_multiset(),
            decreases len - parent,
        {
            if parent >= len / 2 {
                // No child exists, so every edge out of `parent` is
                // vacuous and the whole ordering holds.
                proof {
                    assert forall|i: int| 1 <= i < self@.len() implies self@[(i - 1) / 2].le_spec(
                        #[trigger] self@[i],
                    ) by {
                        assert((i - 1) / 2 != parent);
                    }
                }
                break ;
            }
            let left_index = 2 * parent + 1;
            let right_index = 2 * parent + 2;
            let ghost s = self.heap@;
            let ghost p = parent as int;
            let mut smallest_index = parent;
            let less_left = match self.heap[left_index].compare(&self.heap[parent]) {
                Rank::Less => true,
                _ => false,
            };
            if less_left {
                smallest_index = left_index;
            }
            let less_right = if right_index < len {
                match self.heap[right_index].compare(&self.heap[smallest_index]) {
                    Rank::Less => true,
                    _ => false,
                }
            } else {
                false
            };
            let ghost mid_smallest = smallest_index as int;
            if less_right {
                smallest_index = right_index;
            }
            let ghost m = smallest_index as int;
            proof {
                // The chosen slot is no larger than the parent or either
                // child.
                let l = left_index as int;
                let r = right_index as int;
                T::lemma_reflexive(s[p]);
                T::lemma_reflexive(s[l]);
                if r < len {
                    T::lemma_reflexive(s[r]);
                }
                assert(s[m].le_spec(s[p])) by {
                    if m == p {
                    } else if m == l {
                    } else {
                        if mid_smallest == l {
                            T::lemma_transitive(s[r], s[l], s[p]);
                        }
                    }
                }
                assert(s[m].le_spec(s[l])) by {
                    if m == l {
                    } else if m == p {
                        // The left child is not below its parent.
                    } else {
                        if mid_smallest == l {
                        } else {
                            T::lemma_transitive(s[r], s[p], s[l]);
                        }
                    }
                }
                if r < len {
                    assert(s[m].le_spec(s[r])) by {
                        if m == r {
                        } else {
                            // The right comparison was not `Less`.
                        }
                    }
                }
            }
            if smallest_index != parent {
                let a = self.heap[parent];
                let b = self.heap[smallest_index];
                self.heap[parent] = b;
                self.heap[smallest_index] = a;
                proof {
                    lemma_swap_multiset(s, p, m);
                    assert(self.heap@ == s.update(p, s[m]).update(m, s[p]));
                    let s2 = self.heap@;
                    assert forall|i: int| 1 <= i < s2.len() && (i - 1) / 2 != m implies s2[(i - 1)
                        / 2].le_spec(#[trigger] s2[i]) by {
                        if i == m {
                            assert(s2[p] == s[m] && s2[m] == s[p]);
                        } else if (i - 1) / 2 == p {
                            assert(s2[p] == s[m] && s2[i] == s[i]);
                            assert(s[m].le_spec(s[i]));
                        } else if i == p {
                            assert(s[(p - 1) / 2].le_spec(s[m]));
                            assert(s2[i] == s[m]);
                            assert(s2[(i - 1) / 2] == s[(p - 1) / 2]);
                        } else {
                            assert(s[(i - 1) / 2].le_spec(s[i]));
                        }
                    }
                    assert forall|d: int|
                        1 <= d < s2.len() && (d - 1) / 2 == m && m > 0 implies s2[(((m - 1)
                        / 2) as int)].le_spec(#[trigger] s2[d]) by {
                        assert(s2[(m - 1) / 2] == s2[p]);
                        assert(s2[p] == s[m]);
                        assert(s[m].le_spec(s[d]));
                        assert(s2[d] == s[d]);
                    }
                }
                parent = smallest_index;
            } else {
                proof {
                    assert forall|i: int| 1 <= i < self@.len() implies self@[(i - 1) / 2].le_spec(
                        #[trigger] self@[i],
                    ) by {
                        if (i - 1) / 2 == parent {
                            assert(i == 2 * parent + 1 || i == 2 * parent + 2);
                        }
                    }
                }
                break ;
            }
        }
    }

    /// Builds a heap by inserting every element of a vector in turn.
    pub fn from_vec(v: Vec<T>) -> (h: Self)
        ensures
            is_heap(h@),
            h@.len() == v@.len(),
            h@.to_multiset() == v@.to_multiset(),
    {
        let mut h = MinHeap::new();
        proof {
            assert(v@.take(0) =~= Seq::<T>::empty());
        }
        let mut i: usize = 0;
        while i < v.len()
            invariant
                i <= v@.len(),
                is_heap(h@),
                h@.len() == i,
                h@.to_multiset() == v@.take(i as int).to_multiset(),
            decreases v@.len() - i,
        {
            proof {
                broadcast use group_to_multiset_ensures;

                assert(v@.take(i + 1).drop_last() =~= v@.take(i as int));
                assert(v@.take(i + 1) =~= v@.take(i as int).push(v@[i as int]));
            }
            h.insert(v[i]);
            i = i + 1;
        }
        proof {
            assert(v@.take(v@.len() as int) =~= v@);
        }
        h
    }
}

} // verus!
