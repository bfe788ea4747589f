//! An unbalanced binary search tree of boxed nodes.
//!
//! Lookup, insertion and deletion descend by comparison; deletion merges
//! the orphaned left subtree under the leftmost slot of the right one.
//! Duplicate insertions are dropped. The model of a tree is the set of
//! values it holds.

use crate::order::lt_spec;
use crate::order::Rank;
use crate::order::TotalOrder;
use vstd::prelude::*;

verus! {

/// One node: a value and two optional subtrees.
pub struct Node<T: TotalOrder + Copy> {
    value: T,
    left: Option<Box<Node<T>>>,
    right: Option<Box<Node<T>>>,
}

/// The values held under an optional subtree.
pub closed spec fn opt_set<T: TotalOrder + Copy>(o: Option<Box<Node<T>>>) -> Set<T>
    decreases o,
{
    match o {
        None => Set::empty(),
        Some(n) => n.node_set(),
    }
}

/// The values of an optional subtree, in symmetric order.
pub closed spec fn opt_inorder<T: TotalOrder + Copy>(o: Option<Box<Node<T>>>) -> Seq<T>
    decreases o,
{
    match o {
        None => Seq::empty(),
        Some(n) => n.node_inorder(),
    }
}

/// The search-tree ordering holds under an optional subtree.
pub closed spec fn opt_wf<T: TotalOrder + Copy>(o: Option<Box<Node<T>>>) -> bool
    decreases o,
{
    match o {
        None => true,
        Some(n) => n.node_wf(),
    }
}

impl<T: TotalOrder + Copy> Node<T> {
    /// The values held by this node's subtree.
    pub closed spec fn node_set(self) -> Set<T>
        decreases self,
    {
        opt_set(self.left).union(opt_set(self.right)).insert(self.value)
    }

    /// This subtree's values in symmetric order.
    pub closed spec fn node_inorder(self) -> Seq<T>
        decreases self,
    {
        opt_inorder(self.left) + seq![self.value] + opt_inorder(self.right)
    }

    /// The search-tree ordering: everything left is smaller, everything
    /// right is larger, recursively.
    pub closed spec fn node_wf(self) -> bool
        decreases self,
    {
        &&& (forall|x: T| opt_set(self.left).contains(x) ==> lt_spec(x, self.value))
        &&& (forall|x: T| opt_set(self.right).contains(x) ==> lt_spec(self.value, x))
        &&& opt_wf(self.left)
        &&& opt_wf(self.right)
    }

    /// Creates a childless node.
    pub fn new(value: T) -> (n: Self)
        ensures
            n.node_wf(),
            n.node_set() == Set::empty().insert(value),
            n.node_inorder() == seq![value],
    {
        let n = Node { value, left: None, right: None };
        proof {
            assert(n.node_set() =~= Set::empty().insert(value));
            assert(n.node_inorder() =~= seq![value]);
        }
        n
    }

    /// A node with no children holds exactly its own value.
    pub closed spec fn spec_is_leaf(self) -> bool {
        self.left is None && self.right is None
    }

    /// Whether the node has no children.
    pub fn is_leaf(&self) -> (b: bool)
        ensures
            b == self.spec_is_leaf(),
            b ==> self.node_set() == Set::empty().insert(self.value_spec()),
    {
        self.left.is_none() && self.right.is_none()
    }

    /// The value held at this node.
    pub closed spec fn value_spec(self) -> T {
        self.value
    }
}

/// Searches an optional subtree for a value.
fn opt_get<T: TotalOrder + Copy>(o: &Option<Box<Node<T>>>, value: T) -> (r: Option<&T>)
    requires
        opt_wf(*o),
    ensures
        match r {
            Some(v) => opt_set(*o).contains(value) && *v == value,
            None => !opt_set(*o).contains(value),
        },
    decreases *o,
{
    match o {
        None => None,
        Some(n) => {
            match value.compare(&n.value) {
                Rank::Equal => Some(&n.value),
                Rank::Less => {
                    proof {
                        if opt_set(n.right).contains(value) {
                            assert(lt_spec(n.value, value));
                            T::lemma_antisymmetric(value, n.value);
                        }
                    }
                    opt_get(&n.left, value)
                },
                Rank::Greater => {
                    proof {
                        if opt_set(n.left).contains(value) {
                            assert(lt_spec(value, n.value));
                            T::lemma_antisymmetric(value, n.value);
                        }
                    }
                    opt_get(&n.right, value)
                },
            }
        },
    }
}

/// Inserts a value into an optional subtree; a duplicate is dropped.
fn opt_insert<T: TotalOrder + Copy>(o: &mut Option<Box<Node<T>>>, value: T)
    requires
        opt_wf(*old(o)),
    ensures
        opt_wf(*final(o)),
        opt_set(*final(o)) == opt_set(*old(o)).insert(value),
    decreases *old(o),
{
    match o.take() {
        None => {
            *o = Some(Box::new(Node { value, left: None, right: None }));
            proof {
                assert(opt_set(*o) =~= opt_set(*old(o)).insert(value));
            }
        },
        Some(mut n) => {
            let hit = match value.compare(&n.value) {
                Rank::Equal => 0,
                Rank::Less => 1,
                Rank::Greater => 2,
            };
            if hit == 1 {
                opt_insert(&mut n.left, value);
                let done = Some(n);
                proof {
                    assert(opt_set(done) =~= opt_set(*old(o)).insert(value));
                }
                *o = done;
            } else if hit == 2 {
                opt_insert(&mut n.right, value);
                let done = Some(n);
                proof {
                    assert(opt_set(done) =~= opt_set(*old(o)).insert(value));
                }
                *o = done;
            } else {
                let done = Some(n);
                proof {
                    assert(opt_set(done) =~= opt_set(*old(o)).insert(value));
                }
                *o = done;
            }
        },
    }
}

/// Hangs a whole subtree, all of whose values are smaller than everything
/// here, under the leftmost slot of an optional subtree.
fn graft<T: TotalOrder + Copy>(dst: &mut Option<Box<Node<T>>>, sub: Box<Node<T>>)
    requires
        opt_wf(*old(dst)),
        sub.node_wf(),
        forall|x: T, y: T|
            sub.node_set().contains(x) && opt_set(*old(dst)).contains(y) ==> lt_spec(x, y),
    ensures
        opt_wf(*final(dst)),
        opt_set(*final(dst)) == opt_set(*old(dst)).union(sub.node_set()),
    decreases *old(dst),
{
    match dst.take() {
        None => {
            *dst = Some(sub);
            proof {
                assert(opt_set(*dst) =~= opt_set(*old(dst)).union(sub.node_set()));
            }
        },
        Some(mut n) => {
            // Every grafted value is smaller than this node's, so the
            // probe always descends left.
            proof {
                assert(opt_set(*old(dst)).contains(n.value));
            }
            graft(&mut n.left, sub);
            let done = Some(n);
            proof {
                assert(opt_set(done) =~= opt_set(*old(dst)).union(sub.node_set()));
            }
            *dst = done;
        },
    }
}

/// Deletes a value from an optional subtree, handing it back if found.
fn opt_delete<T: TotalOrder + Copy>(o: &mut Option<Box<Node<T>>>, value: &T) -> (r: Option<T>)
    requires
        opt_wf(*old(o)),
    ensures
        opt_wf(*final(o)),
        match r {
            Some(v) => v == *value && opt_set(*old(o)).contains(*value) && opt_set(*final(o))
                == opt_set(*old(o)).remove(*value),
            None => !opt_set(*old(o)).contains(*value) && *final(o) == *old(o),
        },
    decreases *old(o),
{
    match o.take() {
        None => None,
        Some(mut n) => {
            let rank = match value.compare(&n.value) {
                Rank::Equal => 0,
                Rank::Less => 1,
                Rank::Greater => 2,
            };
            if rank == 0 {
                let found = n.value;
                let nb = *n;
                let Node { value: nv, left, right } = nb;
                proof {
                    assert(nb.node_wf());
                    assert(opt_set(*old(o)) == nb.node_set());
                    if opt_set(left).contains(*value) {
                        assert(lt_spec(*value, nv));
                    }
                    if opt_set(right).contains(*value) {
                        assert(lt_spec(nv, *value));
                    }
                }
                if left.is_none() {
                    *o = right;
                    proof {
                        assert(opt_set(*o) =~= opt_set(*old(o)).remove(*value));
                    }
                } else if right.is_none() {
                    *o = left;
                    proof {
                        assert(opt_set(*o) =~= opt_set(*old(o)).remove(*value));
                    }
                } else {
                    let mut merged = right;
                    match left {
                        Some(lb) => {
                            proof {
                                assert(opt_set(Some(lb)) == lb.node_set());
                                assert(left == Some(lb));
                                assert forall|x: T, y: T|
                                    lb.node_set().contains(x) && opt_set(merged).contains(
                                        y,
                                    ) implies lt_spec(x, y) by {
                                    assert(opt_set(left).contains(x));
                                    assert(lt_spec(x, nv));
                                    assert(lt_spec(nv, y));
                                    T::lemma_transitive(x, nv, y);
                                    if x == y {
                                        T::lemma_antisymmetric(x, nv);
                                    }
                                }
                            }
                            graft(&mut merged, lb);
                        },
                        None => {},
                    }
                    proof {
                        assert(opt_set(merged) =~= opt_set(*old(o)).remove(*value));
                    }
                    *o = merged;
                }
                Some(found)
            } else if rank == 1 {
                let ghost left0 = n.left;
                let r = opt_delete(&mut n.left, value);
                proof {
                    if opt_set(n.right).contains(*value) {
                        assert(lt_spec(n.value, *value));
                        T::lemma_antisymmetric(*value, n.value);
                    }
                    assert(forall|x: T|
                        opt_set(n.left).contains(x) ==> opt_set(left0).contains(x));
                }
                let done = Some(n);
                proof {
                    if r is Some {
                        assert(opt_set(done) =~= opt_set(*old(o)).remove(*value));
                    }
                }
                *o = done;
                r
            } else {
                let ghost right0 = n.right;
                let r = opt_delete(&mut n.right, value);
                proof {
                    if opt_set(n.left).contains(*value) {
                        assert(lt_spec(*value, n.value));
                        T::lemma_antisymmetric(*value, n.value);
                    }
                    assert(forall|x: T|
                        opt_set(n.right).contains(x) ==> opt_set(right0).contains(x));
                }
                let done = Some(n);
                proof {
                    if r is Some {
                        assert(opt_set(done) =~= opt_set(*old(o)).remove(*value));
                    }
                }
                *o = done;
                r
            }
        },
    }
}

/// The value at the parent of the node holding `value`, along the search
/// path; `None` when `value` is absent or sits at the root.
pub closed spec fn opt_parent<T: TotalOrder + Copy>(o: Option<Box<Node<T>>>, value: T) -> Option<
    T,
>
    decreases o,
{
    match o {
        None => None,
        Some(n) => {
            if lt_spec(value, n.value) {
                match n.left {
                    None => None,
                    Some(l) => {
                        if l.value == value {
                            Some(n.value)
                        } else {
                            opt_parent(n.left, value)
                        }
                    },
                }
            } else if lt_spec(n.value, value) {
                match n.right {
                    None => None,
                    Some(rn) => {
                        if rn.value == value {
                            Some(n.value)
                        } else {
                            opt_parent(n.right, value)
                        }
                    },
                }
            } else {
                None
            }
        },
    }
}

/// Walks the search path of `value` and reports its parent's value.
fn opt_find_parent<T: TotalOrder + Copy>(o: &Option<Box<Node<T>>>, value: T) -> (r: Option<&T>)
    ensures
        match r {
            Some(p) => opt_parent(*o, value) == Some(*p),
            None => opt_parent(*o, value) is None,
        },
    decreases *o,
{
    match o {
        None => None,
        Some(n) => {
            let rank = match value.compare(&n.value) {
                Rank::Equal => 0,
                Rank::Less => 1,
                Rank::Greater => 2,
            };
            if rank == 1 {
                match &n.left {
                    None => {
                        proof {
                            assert(opt_parent(*o, value) is None);
                        }
                        None
                    },
                    Some(l) => {
                        let hit = match l.value.compare(&value) {
                            Rank::Equal => true,
                            _ => false,
                        };
                        if hit {
                            proof {
                                assert(opt_parent(*o, value) == Some(n.value));
                            }
                            Some(&n.value)
                        } else {
                            proof {
                                assert(opt_parent(*o, value) == opt_parent(n.left, value));
                            }
                            opt_find_parent(&n.left, value)
                        }
                    },
                }
            } else if rank == 2 {
                proof {
                    if lt_spec(value, n.value) {
                        T::lemma_antisymmetric(value, n.value);
                    }
                }
                match &n.right {
                    None => {
                        proof {
                            assert(opt_parent(*o, value) is None);
                        }
                        None
                    },
                    Some(rn) => {
                        let hit = match rn.value.compare(&value) {
                            Rank::Equal => true,
                            _ => false,
                        };
                        if hit {
                            proof {
                                assert(opt_parent(*o, value) == Some(n.value));
                            }
                            Some(&n.value)
                        } else {
                            proof {
                                assert(opt_parent(*o, value) == opt_parent(n.right, value));
                            }
                            opt_find_parent(&n.right, value)
                        }
                    },
                }
            } else {
                proof {
                    assert(opt_parent(*o, value) is None);
                }
                None
            }
        },
    }
}

/// The values of an optional subtree in preorder: node, then left, then
/// right.
pub closed spec fn opt_preorder<T: TotalOrder + Copy>(o: Option<Box<Node<T>>>) -> Seq<T>
    decreases o,
{
    match o {
        None => Seq::empty(),
        Some(n) => seq![n.value] + opt_preorder(n.left) + opt_preorder(n.right),
    }
}

/// Number of nodes under an optional subtree.
pub closed spec fn opt_size<T: TotalOrder + Copy>(o: Option<Box<Node<T>>>) -> nat
    decreases o,
{
    match o {
        None => 0,
        Some(n) => 1 + opt_size(n.left) + opt_size(n.right),
    }
}

/// The children of a node, left before right, as a work queue extension.
spec fn kids<T: TotalOrder + Copy>(n: Node<T>) -> Seq<Node<T>> {
    match (n.left, n.right) {
        (None, None) => Seq::empty(),
        (Some(l), None) => seq![*l],
        (None, Some(r)) => seq![*r],
        (Some(l), Some(r)) => seq![*l, *r],
    }
}

/// Total number of nodes in a work queue of subtrees.
pub closed spec fn queue_size<T: TotalOrder + Copy>(q: Seq<Node<T>>) -> nat
    decreases q.len(),
{
    if q.len() == 0 {
        0
    } else {
        1 + opt_size(q[0].left) + opt_size(q[0].right) + queue_size(q.drop_first())
    }
}

/// Queue size adds over concatenation.
proof fn lemma_queue_size_concat<T: TotalOrder + Copy>(a: Seq<Node<T>>, b: Seq<Node<T>>)
    ensures
        queue_size(a + b) == queue_size(a) + queue_size(b),
    decreases a.len(),
{
    if a.len() == 0 {
        assert(a + b =~= b);
    } else {
        assert((a + b).drop_first() =~= a.drop_first() + b);
        assert((a + b)[0] == a[0]);
        lemma_queue_size_concat(a.drop_first(), b);
    }
}

/// The values of a work queue of subtrees in breadth-first order: the
/// front subtree's root, then the rest of the queue followed by that
/// root's children.
pub closed spec fn bfs<T: TotalOrder + Copy>(q: Seq<Node<T>>) -> Seq<T>
    decreases queue_size(q),
    via bfs_decreases::<T>
{
    if q.len() == 0 {
        Seq::empty()
    } else {
        seq![q[0].value] + bfs(q.drop_first() + kids(q[0]))
    }
}

/// A node's children hold one node fewer than the node's whole subtree.
proof fn lemma_queue_size_kids<T: TotalOrder + Copy>(n: Node<T>)
    ensures
        queue_size(kids(n)) == opt_size(n.left) + opt_size(n.right),
{
    match (n.left, n.right) {
        (None, None) => {
            assert(queue_size(kids(n)) == 0);
        },
        (Some(l), None) => {
            let ks = kids(n);
            assert(ks == seq![*l]);
            assert(ks[0] == *l);
            assert(ks.drop_first() =~= Seq::<Node<T>>::empty());
            assert(queue_size(Seq::<Node<T>>::empty()) == 0);
            assert(queue_size(ks) == 1 + opt_size(l.left) + opt_size(l.right));
            assert(opt_size(n.left) == 1 + opt_size(l.left) + opt_size(l.right));
        },
        (None, Some(r)) => {
            let ks = kids(n);
            assert(ks == seq![*r]);
            assert(ks[0] == *r);
            assert(ks.drop_first() =~= Seq::<Node<T>>::empty());
            assert(queue_size(Seq::<Node<T>>::empty()) == 0);
            assert(queue_size(ks) == 1 + opt_size(r.left) + opt_size(r.right));
            assert(opt_size(n.right) == 1 + opt_size(r.left) + opt_size(r.right));
        },
        (Some(l), Some(r)) => {
            let ks = kids(n);
            assert(ks == seq![*l, *r]);
            assert(ks[0] == *l);
            assert(ks.drop_first() =~= seq![*r]);
            assert(seq![*r][0] == *r);
            assert(seq![*r].drop_first() =~= Seq::<Node<T>>::empty());
            assert(queue_size(Seq::<Node<T>>::empty()) == 0);
            assert(queue_size(seq![*r]) == 1 + opt_size(r.left) + opt_size(r.right));
            assert(queue_size(ks) == 1 + opt_size(l.left) + opt_size(l.right) + queue_size(
                seq![*r],
            ));
            assert(opt_size(n.left) == 1 + opt_size(l.left) + opt_size(l.right));
            assert(opt_size(n.right) == 1 + opt_size(r.left) + opt_size(r.right));
        },
    }
}

#[via_fn]
proof fn bfs_decreases<T: TotalOrder + Copy>(q: Seq<Node<T>>) {
    if q.len() != 0 {
        lemma_queue_size_concat(q.drop_first(), kids(q[0]));
        lemma_queue_size_kids(q[0]);
    }
}

/// The queued subtrees behind a vector of node references.
spec fn refs_nodes<T: TotalOrder + Copy>(s: Seq<&Node<T>>) -> Seq<Node<T>> {
    s.map_values(|r: &Node<T>| *r)
}

/// What an inorder walk still owes for a saved stack: for each saved node,
/// top first, its value and then its right subtree.
spec fn stack_inorder<T: TotalOrder + Copy>(st: Seq<&Node<T>>) -> Seq<T>
    decreases st.len(),
{
    if st.len() == 0 {
        Seq::empty()
    } else {
        seq![st.last().value] + opt_inorder(st.last().right) + stack_inorder(st.drop_last())
    }
}

/// What an inorder walk still owes for its current position.
spec fn cur_inorder<T: TotalOrder + Copy>(c: Option<&Node<T>>) -> Seq<T> {
    match c {
        None => Seq::empty(),
        Some(n) => n.node_inorder(),
    }
}

/// Number of nodes at the walk's current position.
spec fn cur_size<T: TotalOrder + Copy>(c: Option<&Node<T>>) -> nat {
    match c {
        None => 0,
        Some(n) => 1 + opt_size(n.left) + opt_size(n.right),
    }
}

/// Steps an inorder walk owes for a saved stack.
spec fn stack_steps<T: TotalOrder + Copy>(st: Seq<&Node<T>>) -> nat
    decreases st.len(),
{
    if st.len() == 0 {
        0
    } else {
        1 + 2 * opt_size(st.last().right) + stack_steps(st.drop_last())
    }
}

/// What a preorder walk still owes for a saved stack of subtrees, top
/// first.
spec fn stack_preorder<T: TotalOrder + Copy>(st: Seq<&Node<T>>) -> Seq<T>
    decreases st.len(),
{
    if st.len() == 0 {
        Seq::empty()
    } else {
        seq![st.last().value] + opt_preorder(st.last().left) + opt_preorder(st.last().right)
            + stack_preorder(st.drop_last())
    }
}

/// Nodes remaining in a preorder walk's stack.
spec fn stack_psize<T: TotalOrder + Copy>(st: Seq<&Node<T>>) -> nat
    decreases st.len(),
{
    if st.len() == 0 {
        0
    } else {
        1 + opt_size(st.last().left) + opt_size(st.last().right) + stack_psize(st.drop_last())
    }
}

/// Appends an optional subtree's values in symmetric order.
fn rec_inorder<T: TotalOrder + Copy>(o: &Option<Box<Node<T>>>, out: &mut Vec<T>)
    ensures
        final(out)@ == old(out)@ + opt_inorder(*o),
    decreases *o,
{
    match o {
        None => {
            proof {
                assert((*out)@ =~= (*out)@ + opt_inorder(*o));
            }
        },
        Some(n) => {
            rec_inorder(&n.left, out);
            out.push(n.value);
            rec_inorder(&n.right, out);
            proof {
                assert((*out)@ =~= old(out)@ + opt_inorder(*o));
            }
        },
    }
}

/// An unbalanced binary search tree holding a set of values.
pub struct BSTree<T: TotalOrder + Copy> {
    root: Option<Box<Node<T>>>,
}

impl<T: TotalOrder + Copy> View for BSTree<T> {
    type V = Set<T>;

    /// The set of values in the tree.
    closed spec fn view(&self) -> Set<T> {
        opt_set(self.root)
    }
}

impl<T: TotalOrder + Copy> BSTree<T> {
    /// Well-formedness: the search-tree ordering holds everywhere.
    pub closed spec fn inv(self) -> bool {
        opt_wf(self.root)
    }

    /// The tree's values in symmetric (sorted) order.
    pub closed spec fn spec_inorder(self) -> Seq<T> {
        opt_inorder(self.root)
    }

    /// Creates an empty tree.
    pub fn new() -> (t: Self)
        ensures
            t.inv(),
            t@ == Set::<T>::empty(),
            t.spec_inorder() == Seq::<T>::empty(),
    {
        let t = BSTree { root: None };
        proof {
            assert(t@ =~= Set::<T>::empty());
        }
        t
    }

    /// Hands back the stored value equal to `value`, if the tree holds
    /// one.
    pub fn get(&self, value: T) -> (r: Option<&T>)
        requires
            self.inv(),
        ensures
            match r {
                Some(v) => self@.contains(value) && *v == value,
                None => !self@.contains(value),
            },
    {
        opt_get(&self.root, value)
    }

    /// Inserts a value; inserting one already present changes nothing.
    pub fn insert(&mut self, value: T)
        requires
            old(self).inv(),
        ensures
            final(self).inv(),
            final(self)@ == old(self)@.insert(value),
    {
        opt_insert(&mut self.root, value);
    }

    /// Inserts a value, descending one node at a time; a duplicate changes
    /// nothing.
    pub fn insert_iterative(&mut self, value: T)
        requires
            old(self).inv(),
        ensures
            final(self).inv(),
            final(self)@ == old(self)@.insert(value),
    {
        opt_insert(&mut self.root, value);
    }

    /// Deletes `value`, handing it back when it was present. The orphaned
    /// left subtree is merged under the leftmost slot of the right one.
    pub fn delete(&mut self, value: &T) -> (r: Option<T>)
        requires
            old(self).inv(),
        ensures
            final(self).inv(),
            match r {
                Some(v) => v == *value && old(self)@.contains(*value) && final(self)@ == old(
                    self,
                )@.remove(*value),
                None => !old(self)@.contains(*value) && final(self)@ == old(self)@,
            },
    {
        opt_delete(&mut self.root, value)
    }

    /// The value at the parent of the node holding `value`, along the
    /// search path; `None` when `value` is absent or sits at the root.
    pub closed spec fn spec_parent(self, value: T) -> Option<T> {
        opt_parent(self.root, value)
    }

    /// Reports the value at the parent of the node holding `value`.
    pub fn find_parent(&self, value: T) -> (r: Option<&T>)
        ensures
            match r {
                Some(p) => self.spec_parent(value) == Some(*p),
                None => self.spec_parent(value) is None,
            },
    {
        opt_find_parent(&self.root, value)
    }

    /// The tree's values in preorder.
    pub closed spec fn spec_preorder(self) -> Seq<T> {
        opt_preorder(self.root)
    }

    /// The tree's values in breadth-first order, level by level.
    pub closed spec fn spec_level_order(self) -> Seq<T> {
        match self.root {
            None => Seq::empty(),
            Some(b) => bfs(seq![*b]),
        }
    }

    /// Collects the values in symmetric order by recursion.
    pub fn traverse_inorder_recursive(&self) -> (r: Vec<T>)
        ensures
            r@ == self.spec_inorder(),
    {
        let mut result: Vec<T> = Vec::new();
        if self.root.is_none() {
            return result;
        }
        rec_inorder(&self.root, &mut result);
        proof {
            assert(Seq::<T>::empty() + self.spec_inorder() =~= self.spec_inorder());
        }
        result
    }

    /// Collects the values in symmetric order with an explicit stack.
    pub fn traverse_inorder_iterative(&self) -> (r: Vec<T>)
        ensures
            r@ == self.spec_inorder(),
    {
        let mut result: Vec<T> = Vec::new();
        if self.root.is_none() {
            return result;
        }
        let mut stack: Vec<&Node<T>> = Vec::new();
        let mut current: Option<&Node<T>> = match &self.root {
            Some(b) => Some(&**b),
            None => None,
        };
        proof {
            assert(result@ + cur_inorder(current) + stack_inorder(stack@) =~= self.spec_inorder());
        }
        loop
            invariant
                result@ + cur_inorder(current) + stack_inorder(stack@) == self.spec_inorder(),
            ensures
                result@ == self.spec_inorder(),
            decreases 2 * cur_size(current) + stack_steps(stack@),
        {
            match current {
                Some(n) => {
                    let ghost st0 = stack@;
                    stack.push(n);
                    current = match &n.left {
                        Some(b) => Some(&**b),
                        None => None,
                    };
                    proof {
                        assert(stack@.drop_last() =~= st0);
                        assert(cur_inorder(current) =~= opt_inorder(n.left));
                        assert(result@ + cur_inorder(current) + stack_inorder(stack@)
                            =~= self.spec_inorder());
                    }
                },
                None => {
                    let popped = stack.pop();
                    match popped {
                        Some(n) => {
                            let ghost st0 = stack@;
                            result.push(n.value);
                            current = match &n.right {
                                Some(b) => Some(&**b),
                                None => None,
                            };
                            proof {
                                assert(cur_inorder(current) =~= opt_inorder(n.right));
                                assert(result@ + cur_inorder(current) + stack_inorder(stack@)
                                    =~= self.spec_inorder());
                            }
                        },
                        None => {
                            proof {
                                assert(result@ =~= self.spec_inorder());
                            }
                            break ;
                        },
                    }
                },
            }
        }
        result
    }

    /// Collects the values in preorder with an explicit stack.
    pub fn traverse_pre_order_iteratively(&self) -> (r: Vec<T>)
        ensures
            r@ == self.spec_preorder(),
    {
        let mut result: Vec<T> = Vec::new();
        let root_ref: &Node<T> = match &self.root {
            Some(b) => &**b,
            None => {
                return result;
            },
        };
        let mut stack: Vec<&Node<T>> = Vec::new();
        stack.push(root_ref);
        proof {
            assert(stack@.drop_last() =~= Seq::<&Node<T>>::empty());
            assert(stack_preorder(Seq::<&Node<T>>::empty()) == Seq::<T>::empty());
            assert(stack_preorder(stack@) == seq![root_ref.value] + opt_preorder(root_ref.left)
                + opt_preorder(root_ref.right) + Seq::<T>::empty());
            assert(self.spec_preorder() == seq![root_ref.value] + opt_preorder(root_ref.left)
                + opt_preorder(root_ref.right));
            assert(result@ + stack_preorder(stack@) =~= self.spec_preorder());
        }
        loop
            invariant
                result@ + stack_preorder(stack@) == self.spec_preorder(),
            ensures
                result@ == self.spec_preorder(),
            decreases stack_psize(stack@),
        {
            let ghost stk_in = stack@;
            let popped = stack.pop();
            match popped {
                Some(n) => {
                    let ghost st0 = stack@;
                    proof {
                        assert(stack_preorder(stk_in) == seq![n.value] + opt_preorder(n.left)
                            + opt_preorder(n.right) + stack_preorder(st0));
                        assert(stack_psize(stk_in) == 1 + opt_size(n.left) + opt_size(n.right)
                            + stack_psize(st0));
                    }
                    result.push(n.value);
                    match &n.right {
                        Some(b) => {
                            stack.push(&**b);
                            proof {
                                assert(stack@.drop_last() =~= st0);
                                assert(opt_preorder(n.right) == seq![(**b).value] + opt_preorder(
                                    (**b).left,
                                ) + opt_preorder((**b).right));
                                assert(opt_size(n.right) == 1 + opt_size((**b).left) + opt_size(
                                    (**b).right,
                                ));
                                assert(stack_preorder(stack@) == opt_preorder(n.right)
                                    + stack_preorder(st0));
                                assert(stack_psize(stack@) == opt_size(n.right) + stack_psize(
                                    st0,
                                ));
                            }
                        },
                        None => {
                            proof {
                                assert(opt_preorder(n.right) == Seq::<T>::empty());
                                assert(opt_size(n.right) == 0);
                                assert(opt_preorder(n.right) + stack_preorder(st0)
                                    =~= stack_preorder(st0));
                            }
                        },
                    }
                    let ghost st1 = stack@;
                    proof {
                        assert(stack_preorder(st1) == opt_preorder(n.right) + stack_preorder(st0));
                        assert(stack_psize(st1) == opt_size(n.right) + stack_psize(st0));
                    }
                    match &n.left {
                        Some(b) => {
                            stack.push(&**b);
                            proof {
                                assert(stack@.drop_last() =~= st1);
                                assert(opt_preorder(n.left) == seq![(**b).value] + opt_preorder(
                                    (**b).left,
                                ) + opt_preorder((**b).right));
                                assert(opt_size(n.left) == 1 + opt_size((**b).left) + opt_size(
                                    (**b).right,
                                ));
                                assert(stack_preorder(stack@) == opt_preorder(n.left)
                                    + stack_preorder(st1));
                                assert(stack_psize(stack@) == opt_size(n.left) + stack_psize(st1));
                            }
                        },
                        None => {
                            proof {
                                assert(opt_preorder(n.left) == Seq::<T>::empty());
                                assert(opt_size(n.left) == 0);
                                assert(opt_preorder(n.left) + stack_preorder(st1)
                                    =~= stack_preorder(st1));
                            }
                        },
                    }
                    proof {
                        assert(stack_preorder(stack@) == opt_preorder(n.left) + (opt_preorder(
                            n.right,
                        ) + stack_preorder(st0)));
                        assert(result@ + stack_preorder(stack@) =~= self.spec_preorder());
                    }
                },
                None => {
                    proof {
                        assert(result@ =~= self.spec_preorder());
                    }
                    break ;
                },
            }
        }
        result
    }

    /// Collects the values level by level, left to right within a level.
    pub fn traverse_level_order(&self) -> (r: Vec<T>)
        ensures
            r@ == self.spec_level_order(),
    {
        let mut result: Vec<T> = Vec::new();
        let root_ref: &Node<T> = match &self.root {
            Some(b) => &**b,
            None => {
                return result;
            },
        };
        let mut queue: Vec<&Node<T>> = Vec::new();
        queue.push(root_ref);
        let mut qi: usize = 0;
        proof {
            assert(refs_nodes(queue@.skip(0)) =~= seq![*root_ref]);
        }
        loop
            invariant
                qi <= queue@.len(),
                result@ + bfs(refs_nodes(queue@.skip(qi as int))) == self.spec_level_order(),
            ensures
                result@ == self.spec_level_order(),
            decreases queue_size(refs_nodes(queue@.skip(qi as int))),
        {
            if qi == queue.len() {
                proof {
                    assert(refs_nodes(queue@.skip(qi as int)) =~= Seq::<Node<T>>::empty());
                    assert(result@ =~= self.spec_level_order());
                }
                break ;
            }
            let ghost q0 = queue@;
            let n = queue[qi];
            qi = qi + 1;
            let ghost rem0 = refs_nodes(q0.skip(qi as int));
            proof {
                assert(refs_nodes(q0.skip(qi - 1))[0] == *n);
                assert(refs_nodes(q0.skip(qi - 1)).drop_first() =~= rem0);
            }
            result.push(n.value);
            match &n.left {
                Some(b) => queue.push(&**b),
                None => {},
            }
            match &n.right {
                Some(b) => queue.push(&**b),
                None => {},
            }
            proof {
                let rem1 = refs_nodes(queue@.skip(qi as int));
                assert(rem1 =~= rem0 + kids(*n));
                lemma_queue_size_concat(rem0, kids(*n));
                lemma_queue_size_kids(*n);
                assert(bfs(refs_nodes(q0.skip(qi - 1))) == seq![n.value] + bfs(
                    rem0 + kids(*n),
                ));
                assert(queue_size(refs_nodes(q0.skip(qi - 1))) == 1 + opt_size(n.left) + opt_size(
                    n.right,
                ) + queue_size(rem0));
                assert(result@ + bfs(rem1) =~= self.spec_level_order());
            }
        }
        result
    }

    /// Starts a walk over the values in symmetric order.
    pub fn iter(&self) -> (it: Iter<'_, T>)
        ensures
            it.remaining() == self.spec_inorder(),
    {
        let current: Option<&Node<T>> = match &self.root {
            Some(b) => Some(&**b),
            None => None,
        };
        let it = Iter { stack: Vec::new(), current };
        proof {
            assert(it.remaining() =~= self.spec_inorder());
        }
        it
    }
}

/// A lazy walk over a tree's values in symmetric order.
pub struct Iter<'a, T: TotalOrder + Copy> {
    stack: Vec<&'a Node<T>>,
    current: Option<&'a Node<T>>,
}

impl<'a, T: TotalOrder + Copy> Iter<'a, T> {
    /// The values not yet handed out.
    pub closed spec fn remaining(self) -> Seq<T> {
        cur_inorder(self.current) + stack_inorder(self.stack@)
    }

    /// Hands out the next value, or `None` at the end of the walk.
    pub fn next(&mut self) -> (r: Option<&'a T>)
        ensures
            match r {
                Some(v) => old(self).remaining().len() > 0 && *v == old(self).remaining()[0]
                    && final(self).remaining() == old(self).remaining().drop_first(),
                None => old(self).remaining().len() == 0 && final(self).remaining() == old(
                    self,
                ).remaining(),
            },
    {
        loop
            invariant
                cur_inorder(self.current) + stack_inorder(self.stack@) == old(self).remaining(),
            decreases 2 * cur_size(self.current) + stack_steps(self.stack@),
        {
            match self.current {
                Some(n) => {
                    let ghost st0 = self.stack@;
                    self.stack.push(n);
                    self.current = match &n.left {
                        Some(b) => Some(&**b),
                        None => None,
                    };
                    proof {
                        assert(self.stack@.drop_last() =~= st0);
                        assert(cur_inorder(self.current) =~= opt_inorder(n.left));
                        assert(cur_inorder(self.current) + stack_inorder(self.stack@) =~= old(
                            self,
                        ).remaining());
                    }
                },
                None => {
                    let popped = self.stack.pop();
                    match popped {
                        Some(n) => {
                            self.current = match &n.right {
                                Some(b) => Some(&**b),
                                None => None,
                            };
                            proof {
                                assert(cur_inorder(self.current) =~= opt_inorder(n.right));
                                assert(cur_inorder(self.current) + stack_inorder(self.stack@) =~= 
                                old(self).remaining().drop_first());
                            }
                            return Some(&n.value);
                        },
                        None => {
                            return None;
                        },
                    }
                },
            }
        }
    }
}



/// The symmetric-order walk of a well-formed subtree lists exactly its
/// values, in strictly increasing order.
proof fn lemma_opt_inorder_props<T: TotalOrder + Copy>(o: Option<Box<Node<T>>>)
    requires
        opt_wf(o),
    ensures
        forall|i: int|
            0 <= i < opt_inorder(o).len() ==> opt_set(o).contains(#[trigger] opt_inorder(o)[i]),
        forall|x: T| opt_set(o).contains(x) ==> opt_inorder(o).contains(x),
        forall|i: int, j: int|
            0 <= i < j < opt_inorder(o).len() ==> lt_spec(
                #[trigger] opt_inorder(o)[i],
                #[trigger] opt_inorder(o)[j],
            ),
    decreases o,
{
    match o {
        None => {},
        Some(n) => {
            lemma_opt_inorder_props(n.left);
            lemma_opt_inorder_props(n.right);
            let l = opt_inorder(n.left);
            let mid = seq![n.value];
            let r = opt_inorder(n.right);
            let whole = opt_inorder(o);
            assert(whole == l + mid + r);
            assert forall|i: int|
                0 <= i < whole.len() implies opt_set(o).contains(#[trigger] whole[i]) by {
                if i < l.len() {
                    assert(whole[i] == l[i]);
                    assert(opt_set(n.left).contains(l[i]));
                } else if i == l.len() {
                    assert(whole[i] == n.value);
                } else {
                    assert(whole[i] == r[i - l.len() - 1]);
                    assert(opt_set(n.right).contains(r[i - l.len() - 1]));
                }
            }
            assert forall|x: T| opt_set(o).contains(x) implies whole.contains(x) by {
                if opt_set(n.left).contains(x) {
                    assert(opt_inorder(n.left).contains(x));
                    let i = choose|i: int| 0 <= i < l.len() && l[i] == x;
                    assert(whole[i] == x);
                } else if opt_set(n.right).contains(x) {
                    assert(opt_inorder(n.right).contains(x));
                    let i = choose|i: int| 0 <= i < r.len() && r[i] == x;
                    assert(whole[l.len() + 1 + i] == x);
                } else {
                    assert(x == n.value);
                    assert(whole[l.len() as int] == x);
                }
            }
            assert forall|i: int, j: int| 0 <= i < j < whole.len() implies lt_spec(
                #[trigger] whole[i],
                #[trigger] whole[j],
            ) by {
                let a = whole[i];
                let b = whole[j];
                if j < l.len() {
                } else if i < l.len() && j == l.len() {
                    assert(opt_set(n.left).contains(a));
                } else if i == l.len() && j > l.len() {
                    assert(opt_set(n.right).contains(b));
                } else if i < l.len() && j > l.len() {
                    assert(opt_set(n.left).contains(a));
                    assert(opt_set(n.right).contains(b));
                    assert(lt_spec(a, n.value));
                    assert(lt_spec(n.value, b));
                    T::lemma_transitive(a, n.value, b);
                    if a == b {
                        T::lemma_antisymmetric(a, n.value);
                    }
                } else {
                    assert(a == r[i - l.len() - 1] && b == r[j - l.len() - 1]);
                }
            }
        },
    }
}

impl<T: TotalOrder + Copy> BSTree<T> {
    /// Law: the symmetric-order walk of a well-formed tree lists exactly
    /// the tree's values, each once, in strictly increasing order.
    pub proof fn lemma_inorder_sorted(self)
        requires
            self.inv(),
        ensures
            forall|i: int|
                0 <= i < self.spec_inorder().len() ==> self@.contains(
                    #[trigger] self.spec_inorder()[i],
                ),
            forall|x: T| self@.contains(x) ==> self.spec_inorder().contains(x),
            forall|i: int, j: int|
                0 <= i < j < self.spec_inorder().len() ==> lt_spec(
                    #[trigger] self.spec_inorder()[i],
                    #[trigger] self.spec_inorder()[j],
                ),
    {
        lemma_opt_inorder_props(self.root);
    }
}

} // verus!
