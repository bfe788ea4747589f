//! A singly linked queue that tracks both ends; only construction exists
//! so far.

use vstd::prelude::*;

verus! {

struct Node<T> {
    next: Option<Box<Node<T>>>,
    value: T,
}

/// The elements hanging off a link, front first.
spec fn link_view<T>(l: Option<Box<Node<T>>>) -> Seq<T>
    decreases l,
{
    match l {
        None => Seq::empty(),
        Some(n) => seq![n.value] + link_view(n.next),
    }
}

/// A singly linked queue with a head and a tail link.
pub struct List<T> {
    head: Option<Box<Node<T>>>,
    tail: Option<Box<Node<T>>>,
}

impl<T> View for List<T> {
    type V = Seq<T>;

    /// The queue's elements, front first.
    closed spec fn view(&self) -> Seq<T> {
        link_view(self.head)
    }
}

impl<T> List<T> {
    /// Creates an empty queue.
    pub fn new() -> (l: Self)
        ensures
            l@ == Seq::<T>::empty(),
    {
        let l = List { head: None, tail: None };
        proof {
            assert(l@ =~= Seq::<T>::empty());
        }
        l
    }
}

} // verus!
