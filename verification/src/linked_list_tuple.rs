//! A singly linked list written as one recursive tuple: a list is either
//! empty or an element paired with its boxed tail.

use crate::order::Rank;
use crate::order::TotalOrder;
use vstd::prelude::*;

verus! {

/// A list as a recursive tuple; the whole tail is itself a list.
pub struct LinkedList<T: TotalOrder>(Option<(T, Box<LinkedList<T>>)>);

/// The list's elements, head first.
spec fn list_view<T: TotalOrder>(l: LinkedList<T>) -> Seq<T>
    decreases l,
{
    match l.0 {
        None => Seq::empty(),
        Some(pair) => seq![pair.0] + list_view(*pair.1),
    }
}

impl<T: TotalOrder> View for LinkedList<T> {
    type V = Seq<T>;

    /// The list's elements, head first.
    closed spec fn view(&self) -> Seq<T> {
        list_view(*self)
    }
}

impl<T: TotalOrder> LinkedList<T> {
    /// Creates an empty list.
    pub fn new() -> (l: Self)
        ensures
            l@ == Seq::<T>::empty(),
    {
        let l = LinkedList(None);
        proof {
            assert(l@ =~= Seq::<T>::empty());
        }
        l
    }

    /// Puts an element before the head.
    pub fn prepend(&mut self, value: T)
        ensures
            final(self)@ == seq![value] + old(self)@,
    {
        let old_head = self.0.take();
        self.0 = Some((value, Box::new(LinkedList(old_head))));
    }

    /// Puts an element after the last one, walking the whole list.
    pub fn append(&mut self, value: T)
        ensures
            final(self)@ == old(self)@.push(value),
        decreases *old(self),
    {
        match &mut self.0 {
            Some(pair) => {
                let next = &mut pair.1;
                (&mut **next).append(value);
                proof {
                    assert(final(self)@ =~= old(self)@.push(value));
                }
            },
            None => {
                self.0 = Some((value, Box::new(LinkedList(None))));
                proof {
                    assert((*self)@ =~= old(self)@.push(value));
                }
            },
        }
    }

    /// Finds the first element equal to `value` and hands back the list
    /// from there on; `None` when the value is absent.
    pub fn find(&self, value: T) -> (r: Option<&LinkedList<T>>)
        ensures
            match r {
                Some(sub) => exists|k: int|
                    0 <= k < self@.len() && sub@ == #[trigger] self@.skip(k) && self@[k] == value
                        && (forall|j: int| 0 <= j < k ==> self@[j] != value),
                None => !self@.contains(value),
            },
        decreases *self,
    {
        match &self.0 {
            Some(pair) => {
                let hit = match pair.0.compare(&value) {
                    Rank::Equal => true,
                    _ => false,
                };
                if hit {
                    proof {
                        assert(self@.skip(0) =~= self@);
                    }
                    Some(self)
                } else {
                    let r = (&*pair.1).find(value);
                    proof {
                        match r {
                            Some(sub) => {
                                let k = choose|k: int|
                                    0 <= k < (*pair.1)@.len() && sub@ == #[trigger] (
                                    *pair.1)@.skip(k) && (*pair.1)@[k] == value && (forall|j: int|
                                        0 <= j < k ==> (*pair.1)@[j] != value);
                                assert(self@.skip(k + 1) =~= (*pair.1)@.skip(k));
                                assert(self@[k + 1] == value);
                                assert(forall|j: int| 0 <= j < k + 1 ==> self@[j] != value);
                            },
                            None => {
                                assert(!self@.contains(value)) by {
                                    if self@.contains(value) {
                                        let i = choose|i: int|
                                            0 <= i < self@.len() && self@[i] == value;
                                        assert((*pair.1)@[i - 1] == value);
                                        assert((*pair.1)@.contains(value));
                                    }
                                }
                            },
                        }
                    }
                    r
                }
            },
            None => {
                proof {
                    assert(!self@.contains(value)) by {
                        if self@.contains(value) {
                            let i = choose|i: int| 0 <= i < self@.len() && self@[i] == value;
                        }
                    }
                }
                None
            },
        }
    }
}

} // verus!
