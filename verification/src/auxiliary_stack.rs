//! A stack that also answers "what is the minimum?" in constant time, by
//! keeping a second stack of running minima beside the elements.

use crate::order::Rank;
use crate::order::TotalOrder;
use vstd::prelude::*;

verus! {

/// The running-minima stack that belongs to an element stack: an element
/// is recorded when it is no larger than the smallest so far.
spec fn mins<T: TotalOrder>(s: Seq<T>) -> Seq<T>
    decreases s.len(),
{
    if s.len() == 0 {
        Seq::empty()
    } else {
        let p = mins(s.drop_last());
        if p.len() == 0 || s.last().le_spec(p.last()) {
            p.push(s.last())
        } else {
            p
        }
    }
}

/// The top of the minima stack is a smallest element of the stack.
proof fn lemma_mins<T: TotalOrder>(s: Seq<T>)
    requires
        s.len() > 0,
    ensures
        mins(s).len() > 0,
        s.contains(mins(s).last()),
        forall|i: int| 0 <= i < s.len() ==> mins(s).last().le_spec(#[trigger] s[i]),
    decreases s.len(),
{
    let p = mins(s.drop_last());
    if s.len() == 1 {
        assert(p.len() == 0);
        assert(s[0] == s.last());
        T::lemma_reflexive(s.last());
    } else {
        lemma_mins(s.drop_last());
        assert(s.drop_last().contains(p.last()));
        let w = choose|w: int| 0 <= w < s.drop_last().len() && s.drop_last()[w] == p.last();
        assert(s[w] == p.last());
        if p.len() == 0 || s.last().le_spec(p.last()) {
            T::lemma_reflexive(s.last());
            assert forall|i: int| 0 <= i < s.len() implies mins(s).last().le_spec(
                #[trigger] s[i],
            ) by {
                if i < s.len() - 1 {
                    assert(p.last().le_spec(s.drop_last()[i]));
                    T::lemma_transitive(s.last(), p.last(), s[i]);
                }
            }
        } else {
            T::lemma_total(s.last(), p.last());
            assert forall|i: int| 0 <= i < s.len() implies mins(s).last().le_spec(
                #[trigger] s[i],
            ) by {
                if i < s.len() - 1 {
                    assert(p.last().le_spec(s.drop_last()[i]));
                }
            }
        }
    }
}

/// A stack with a constant-time minimum query.
pub struct Stack<T: TotalOrder + Copy> {
    stack: Vec<T>,
    min_stack: Vec<T>,
}

impl<T: TotalOrder + Copy> View for Stack<T> {
    type V = Seq<T>;

    /// The stack's elements, bottom first.
    closed spec fn view(&self) -> Seq<T> {
        self.stack@
    }
}

impl<T: TotalOrder + Copy> Stack<T> {
    /// Well-formedness: the second stack holds exactly the running minima.
    pub closed spec fn inv(self) -> bool {
        self.min_stack@ == mins(self.stack@)
    }

    /// Creates an empty stack.
    pub fn new() -> (s: Self)
        ensures
            s.inv(),
            s@ == Seq::<T>::empty(),
    {
        let s = Stack { stack: Vec::new(), min_stack: Vec::new() };
        proof {
            assert(s@ =~= Seq::<T>::empty());
            assert(s.min_stack@ =~= mins(s.stack@));
        }
        s
    }

    /// Pushes an element.
    pub fn push(&mut self, value: T)
        requires
            old(self).inv(),
        ensures
            final(self).inv(),
            final(self)@ == old(self)@.push(value),
    {
        let ghost s0 = self.stack@;
        self.stack.push(value);
        proof {
            assert(self.stack@.drop_last() =~= s0);
        }
        let record = if self.min_stack.len() == 0 {
            true
        } else {
            let last = self.min_stack[self.min_stack.len() - 1];
            match value.compare(&last) {
                Rank::Less => true,
                Rank::Equal => {
                    proof {
                        T::lemma_reflexive(value);
                    }
                    true
                },
                Rank::Greater => {
                    proof {
                        if value.le_spec(last) {
                            T::lemma_antisymmetric(value, last);
                        }
                    }
                    false
                },
            }
        };
        if record {
            self.min_stack.push(value);
        }
        proof {
            assert(self.min_stack@ =~= mins(self.stack@));
        }
    }

    /// Pops the top element, dropping it from the minima stack when it is
    /// the recorded minimum.
    pub fn pop(&mut self) -> (r: Option<T>)
        requires
            old(self).inv(),
        ensures
            final(self).inv(),
            match r {
                Some(v) => old(self)@.len() > 0 && v == old(self)@.last() && final(self)@ == old(
                    self,
                )@.drop_last(),
                None => old(self)@.len() == 0 && final(self)@ == old(self)@,
            },
    {
        let ghost s0 = self.stack@;
        let value = self.stack.pop();
        match value {
            None => None,
            Some(v) => {
                proof {
                    assert(mins(s0).len() > 0) by {
                        lemma_mins(s0);
                    }
                }
                let last = self.min_stack[self.min_stack.len() - 1];
                let equal = match v.compare(&last) {
                    Rank::Equal => true,
                    _ => false,
                };
                if equal {
                    self.min_stack.pop();
                    proof {
                        assert(self.min_stack@ =~= mins(self.stack@)) by {
                            assert(mins(s0).last() == last);
                            assert(mins(s0) == mins(s0.drop_last()).push(v) || mins(s0) == mins(
                                s0.drop_last(),
                            ));
                            if mins(s0) == mins(s0.drop_last()) {
                                // The top was strictly above the minimum,
                                // so it cannot equal the recorded one.
                                assert(!(v.le_spec(mins(s0.drop_last()).last())));
                                T::lemma_reflexive(v);
                                assert(false);
                            }
                        }
                    }
                } else {
                    proof {
                        assert(self.min_stack@ =~= mins(self.stack@)) by {
                            if mins(s0) != mins(s0.drop_last()) {
                                assert(mins(s0) == mins(s0.drop_last()).push(v));
                                assert(mins(s0).last() == v);
                                assert(false);
                            }
                        }
                    }
                }
                Some(v)
            },
        }
    }

    /// Reads the smallest element, or `None` when the stack is empty.
    pub fn min(&self) -> (r: Option<&T>)
        requires
            self.inv(),
        ensures
            match r {
                Some(m) => self@.len() > 0 && self@.contains(*m) && (forall|i: int|
                    0 <= i < self@.len() ==> m.le_spec(#[trigger] self@[i])),
                None => self@.len() == 0,
            },
    {
        if self.min_stack.len() == 0 {
            proof {
                if self.stack@.len() > 0 {
                    lemma_mins(self.stack@);
                }
            }
            None
        } else {
            proof {
                lemma_mins(self.stack@);
            }
            Some(&self.min_stack[self.min_stack.len() - 1])
        }
    }
}

} // verus!
