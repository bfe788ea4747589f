//! A singly linked list of boxed nodes, used as a stack: elements are
//! pushed and popped at the head.

use vstd::prelude::*;

verus! {

struct Node<T> {
    next: Option<Box<Node<T>>>,
    element: T,
}

/// The elements hanging off a link, head first.
spec fn link_view<T>(l: Option<Box<Node<T>>>) -> Seq<T>
    decreases l,
{
    match l {
        None => Seq::empty(),
        Some(n) => seq![n.element] + link_view(n.next),
    }
}

/// A singly linked list; the head is the newest element.
pub struct List<T> {
    head: Option<Box<Node<T>>>,
}

impl<T> View for List<T> {
    type V = Seq<T>;

    /// The list's elements, head first.
    closed spec fn view(&self) -> Seq<T> {
        link_view(self.head)
    }
}

impl<T> List<T> {
    /// Creates an empty list.
    pub fn new() -> (l: Self)
        ensures
            l@ == Seq::<T>::empty(),
    {
        let l = List { head: None };
        proof {
            assert(l@ =~= Seq::<T>::empty());
        }
        l
    }

    /// Pushes an element at the head.
    pub fn push(&mut self, value: T)
        ensures
            final(self)@ == seq![value] + old(self)@,
    {
        let new = Box::new(Node { element: value, next: self.head.take() });
        self.head = Some(new);
    }

    /// Pops the head element, or `None` when the list is empty.
    pub fn pop(&mut self) -> (r: Option<T>)
        ensures
            match r {
                Some(v) => old(self)@.len() > 0 && v == old(self)@[0] && final(self)@ == old(
                    self,
                )@.drop_first(),
                None => old(self)@.len() == 0 && *final(self) == *old(self),
            },
    {
        match self.head.take() {
            Some(node) => {
                let node = *node;
                self.head = node.next;
                proof {
                    assert(old(self)@.drop_first() =~= link_view(self.head));
                }
                Some(node.element)
            },
            None => None,
        }
    }

    /// Reads the head element, or `None` when the list is empty.
    pub fn peek(&self) -> (r: Option<&T>)
        ensures
            match r {
                Some(v) => self@.len() > 0 && *v == self@[0],
                None => self@.len() == 0,
            },
    {
        match &self.head {
            Some(node) => Some(&node.element),
            None => None,
        }
    }

    /// Borrows the head element mutably, or `None` when the list is empty.
    pub fn peek_mut(&mut self) -> (r: Option<&mut T>)
        ensures
            match r {
                Some(v) => old(self)@.len() > 0 && *v == old(self)@[0] && final(self)@ =~= old(
                    self,
                )@.update(0, *final(v)),
                None => old(self)@.len() == 0 && *final(self) == *old(self),
            },
    {
        match &mut self.head {
            Some(node) => Some(&mut node.element),
            None => None,
        }
    }

    /// Starts a consuming walk over the elements, head first.
    pub fn into_iter(self) -> (it: IntoIter<T>)
        ensures
            it.remaining() == self@,
    {
        IntoIter(self)
    }

    /// Starts a walk over the elements by reference, head first.
    pub fn iter(&self) -> (it: Iter<'_, T>)
        ensures
            it.remaining() == self@,
    {
        match &self.head {
            Some(node) => Iter { next: Some(node) },
            None => {
                let it = Iter { next: None };
                proof {
                    assert(it.remaining() =~= self@);
                }
                it
            },
        }
    }
}

/// A consuming walk over a list's elements, head first.
pub struct IntoIter<T>(List<T>);

impl<T> IntoIter<T> {
    /// The elements not yet handed out.
    pub closed spec fn remaining(self) -> Seq<T> {
        self.0@
    }

    /// Hands out the next element, or `None` at the end.
    pub fn next(&mut self) -> (r: Option<T>)
        ensures
            match r {
                Some(v) => old(self).remaining().len() > 0 && v == old(self).remaining()[0]
                    && final(self).remaining() == old(self).remaining().drop_first(),
                None => old(self).remaining().len() == 0 && *final(self) == *old(self),
            },
    {
        self.0.pop()
    }
}

/// A walk over a list's elements by reference, head first.
pub struct Iter<'a, T> {
    next: Option<&'a Node<T>>,
}

impl<'a, T> Iter<'a, T> {
    /// The elements not yet handed out.
    pub closed spec fn remaining(self) -> Seq<T> {
        match self.next {
            None => Seq::empty(),
            Some(n) => seq![n.element] + link_view(n.next),
        }
    }

    /// Hands out the next element, or `None` at the end.
    pub fn next(&mut self) -> (r: Option<&'a T>)
        ensures
            match r {
                Some(v) => old(self).remaining().len() > 0 && *v == old(self).remaining()[0]
                    && final(self).remaining() == old(self).remaining().drop_first(),
                None => old(self).remaining().len() == 0 && *final(self) == *old(self),
            },
    {
        match self.next {
            Some(node) => {
                self.next = match &node.next {
                    Some(b) => Some(&**b),
                    None => None,
                };
                proof {
                    assert(old(self).remaining().drop_first() =~= link_view(node.next));
                    assert(final(self).remaining() =~= link_view(node.next));
                }
                Some(&node.element)
            },
            None => None,
        }
    }
}

} // verus!
