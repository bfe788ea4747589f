//! A persistent stack of shared nodes: pushing and popping build new
//! stacks that share their tail with the old one. Nodes are reference
//! counted and safe to hand across threads.

use std::sync::Arc;
use vstd::prelude::*;

verus! {

struct Node<T> {
    next: Option<Arc<Node<T>>>,
    value: T,
}

/// Relies on `Arc::clone`: the clone is the same value, one more handle
/// to the same shared node.
#[verifier::external_body]
fn arc_clone<T>(v: &Arc<Node<T>>) -> (r: Arc<Node<T>>)
    ensures
        r == *v,
{
    Arc::clone(v)
}

/// The elements hanging off a link, top first.
spec fn link_view<T>(l: Option<Arc<Node<T>>>) -> Seq<T>
    decreases l,
{
    match l {
        None => Seq::empty(),
        Some(n) => seq![n.value] + link_view(n.next),
    }
}

/// Clones a link: one more handle to the same chain of nodes.
fn clone_link<T>(l: &Option<Arc<Node<T>>>) -> (r: Option<Arc<Node<T>>>)
    ensures
        r == *l,
{
    match l {
        Some(a) => Some(arc_clone(a)),
        None => None,
    }
}

/// A persistent stack; operations return new stacks sharing the tail.
pub struct List<T> {
    head: Option<Arc<Node<T>>>,
}

impl<T> View for List<T> {
    type V = Seq<T>;

    /// The stack's elements, top first.
    closed spec fn view(&self) -> Seq<T> {
        link_view(self.head)
    }
}

impl<T> List<T> {
    /// Creates an empty stack.
    pub fn new() -> (l: Self)
        ensures
            l@ == Seq::<T>::empty(),
    {
        let l = List { head: None };
        proof {
            assert(l@ =~= Seq::<T>::empty());
        }
        l
    }

    /// A new stack with `value` on top of this one.
    pub fn push(&self, value: T) -> (l2: Self)
        ensures
            l2@ == seq![value] + self@,
    {
        List { head: Some(Arc::new(Node { next: clone_link(&self.head), value })) }
    }

    /// A new stack without this one's top element; the empty stack stays
    /// empty.
    pub fn pop(&self) -> (l2: Self)
        ensures
            l2@ == (if self@.len() == 0 {
                self@
            } else {
                self@.drop_first()
            }),
    {
        match &self.head {
            Some(node) => {
                let l2 = List { head: clone_link(&node.next) };
                proof {
                    assert(l2@ =~= self@.drop_first());
                }
                l2
            },
            None => List { head: None },
        }
    }

    /// Reads the top element, or `None` when the stack is empty.
    pub fn peek(&self) -> (r: Option<&T>)
        ensures
            match r {
                Some(v) => self@.len() > 0 && *v == self@[0],
                None => self@.len() == 0,
            },
    {
        match &self.head {
            Some(node) => Some(&node.value),
            None => None,
        }
    }

    /// Starts a walk over the elements by reference, top first.
    pub fn iter(&self) -> (it: Iter<'_, T>)
        ensures
            it.remaining() == self@,
    {
        match &self.head {
            Some(node) => Iter { next: Some(&**node) },
            None => {
                let it = Iter { next: None };
                proof {
                    assert(it.remaining() =~= self@);
                }
                it
            },
        }
    }
}

/// A walk over a stack's elements by reference, top first.
pub struct Iter<'a, T> {
    next: Option<&'a Node<T>>,
}

impl<'a, T> Iter<'a, T> {
    /// The elements not yet handed out.
    pub closed spec fn remaining(self) -> Seq<T> {
        match self.next {
            None => Seq::empty(),
            Some(n) => seq![n.value] + link_view(n.next),
        }
    }

    /// Hands out the next element, or `None` at the end.
    pub fn next(&mut self) -> (r: Option<&'a T>)
        ensures
            match r {
                Some(v) => old(self).remaining().len() > 0 && *v == old(self).remaining()[0]
                    && final(self).remaining() == old(self).remaining().drop_first(),
                None => old(self).remaining().len() == 0 && *final(self) == *old(self),
            },
    {
        match self.next {
            Some(node) => {
                self.next = match &node.next {
                    Some(a) => Some(&**a),
                    None => None,
                };
                proof {
                    assert(old(self).remaining().drop_first() =~= link_view(node.next));
                    assert(final(self).remaining() =~= link_view(node.next));
                }
                Some(&node.value)
            },
            None => None,
        }
    }
}

} // verus!
