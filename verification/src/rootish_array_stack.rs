//! A rootish stack: elements live in a list of blocks of sizes 1, 2, 3
//! and so on, so the wasted space stays within the square root of the
//! element count.

use vstd::prelude::*;

verus! {

/// The `b`-th triangular number: how many elements the first `b` blocks
/// hold.
pub open spec fn tri(b: nat) -> nat
    decreases b,
{
    if b == 0 {
        0
    } else {
        tri((b - 1) as nat) + b
    }
}

/// The block that holds element number `n`, found from block `b` on.
pub open spec fn block_from(b: nat, n: nat) -> nat
    decreases n + 2 - b,
    via block_from_decreases
{
    if tri(b + 1) > n {
        b
    } else {
        block_from(b + 1, n)
    }
}

#[via_fn]
proof fn block_from_decreases(b: nat, n: nat) {
    if tri(b + 1) <= n {
        lemma_tri_at_least(b + 1);
    }
}

/// A triangular number is at least its index.
proof fn lemma_tri_at_least(b: nat)
    ensures
        tri(b) >= b,
    decreases b,
{
    if b > 0 {
        lemma_tri_at_least((b - 1) as nat);
    }
}

/// The block that holds element number `n`.
pub open spec fn block_of(n: nat) -> nat {
    block_from(0, n)
}

/// Triangular numbers grow with their index.
proof fn lemma_tri_mono(a: nat, b: nat)
    requires
        a <= b,
    ensures
        tri(a) <= tri(b),
    decreases b,
{
    if a < b {
        lemma_tri_mono(a, (b - 1) as nat);
    }
}

/// Element number `n` lies between its block's first and last positions.
proof fn lemma_block_from_char(b: nat, n: nat)
    requires
        tri(b) <= n,
    ensures
        block_from(b, n) >= b,
        tri(block_from(b, n)) <= n,
        n < tri(block_from(b, n) + 1),
    decreases n + 2 - b,
{
    if tri(b + 1) <= n {
        lemma_tri_at_least(b + 1);
        lemma_block_from_char(b + 1, n);
    }
}

/// The bracket `tri(c) <= n < tri(c + 1)` pins the block down.
proof fn lemma_block_unique(n: nat, c: nat)
    requires
        tri(c) <= n,
        n < tri(c + 1),
    ensures
        block_of(n) == c,
{
    lemma_block_from_char(0, n);
    let w = block_of(n);
    if w < c {
        lemma_tri_mono(w + 1, c);
        assert(false);
    }
    if c < w {
        lemma_tri_mono(c + 1, w);
        assert(false);
    }
}

/// Blocks are assigned in order of position.
proof fn lemma_block_mono(m: nat, n: nat)
    requires
        m <= n,
    ensures
        block_of(m) <= block_of(n),
{
    lemma_block_from_char(0, m);
    lemma_block_from_char(0, n);
    if block_of(m) > block_of(n) {
        lemma_tri_mono(block_of(n) + 1, block_of(m));
        assert(false);
    }
}

/// The next position's block is this one's or the one after.
proof fn lemma_block_succ(n: nat)
    ensures
        block_of(n) <= block_of(n + 1) <= block_of(n) + 1,
{
    lemma_block_from_char(0, n);
    let b = block_of(n);
    if n + 1 < tri(b + 1) {
        lemma_block_unique(n + 1, b);
    } else {
        assert(tri(b + 2) == tri(b + 1) + b + 2);
        lemma_block_unique(n + 1, b + 1);
    }
}

/// Twice a triangular number is the familiar product.
proof fn lemma_tri_closed(b: nat)
    ensures
        2 * tri(b) == b * (b + 1),
    decreases b,
{
    if b > 0 {
        lemma_tri_closed((b - 1) as nat);
        assert((b - 1) * b + 2 * b == b * (b + 1)) by (nonlinear_arith);
    }
}

/// How many elements of a stack of `n` live in block `b`.
pub open spec fn bsize(b: nat, n: nat) -> int {
    if n >= tri(b + 1) {
        b + 1 as int
    } else if n > tri(b) {
        n - tri(b)
    } else {
        0
    }
}

/// All elements of a block list, in block order.
pub open spec fn blocks_view<T>(bs: Seq<Vec<T>>) -> Seq<T>
    decreases bs.len(),
{
    if bs.len() == 0 {
        Seq::empty()
    } else {
        blocks_view(bs.drop_last()) + bs.last()@
    }
}

/// Pushing onto the last nonempty block appends to the whole view.
proof fn lemma_bv_push<T>(bs: Seq<Vec<T>>, i: int, nb: Vec<T>, v: T)
    requires
        0 <= i < bs.len(),
        nb@ == bs[i]@.push(v),
        forall|b: int| i < b < bs.len() ==> (#[trigger] bs[b])@.len() == 0,
    ensures
        blocks_view(bs.update(i, nb)) == blocks_view(bs).push(v),
    decreases bs.len(),
{
    let upd = bs.update(i, nb);
    if i == bs.len() - 1 {
        assert(upd.drop_last() =~= bs.drop_last());
        assert(blocks_view(upd) =~= blocks_view(bs).push(v));
    } else {
        assert(upd.drop_last() =~= bs.drop_last().update(i, nb));
        assert(forall|b: int|
            i < b < bs.drop_last().len() ==> (#[trigger] bs.drop_last()[b])@.len() == 0);
        lemma_bv_push(bs.drop_last(), i, nb, v);
        assert(bs.last()@.len() == 0);
        assert(upd.last() == bs.last());
        assert(blocks_view(upd) =~= blocks_view(bs).push(v));
    }
}

/// Popping from the last nonempty block drops the whole view's last
/// element.
proof fn lemma_bv_pop<T>(bs: Seq<Vec<T>>, i: int, nb: Vec<T>)
    requires
        0 <= i < bs.len(),
        bs[i]@.len() > 0,
        nb@ == bs[i]@.drop_last(),
        forall|b: int| i < b < bs.len() ==> (#[trigger] bs[b])@.len() == 0,
    ensures
        blocks_view(bs).len() > 0,
        blocks_view(bs).last() == bs[i]@.last(),
        blocks_view(bs.update(i, nb)) == blocks_view(bs).drop_last(),
    decreases bs.len(),
{
    let upd = bs.update(i, nb);
    if i == bs.len() - 1 {
        assert(upd.drop_last() =~= bs.drop_last());
        assert(blocks_view(upd) =~= blocks_view(bs).drop_last());
    } else {
        assert(upd.drop_last() =~= bs.drop_last().update(i, nb));
        assert(forall|b: int|
            i < b < bs.drop_last().len() ==> (#[trigger] bs.drop_last()[b])@.len() == 0);
        lemma_bv_pop(bs.drop_last(), i, nb);
        assert(bs.last()@.len() == 0);
        assert(upd.last() == bs.last());
        assert(blocks_view(bs) =~= blocks_view(bs.drop_last()));
        assert(blocks_view(upd) =~= blocks_view(bs).drop_last());
    }
}

/// Appending an empty block leaves the view alone.
proof fn lemma_bv_grow<T>(bs: Seq<Vec<T>>, nb: Vec<T>)
    requires
        nb@.len() == 0,
    ensures
        blocks_view(bs.push(nb)) == blocks_view(bs),
{
    assert(bs.push(nb).drop_last() =~= bs);
    assert(blocks_view(bs.push(nb)) =~= blocks_view(bs));
}

/// Finds the block that holds position `n` by walking the triangular
/// numbers up.
fn block_index(n: usize) -> (r: usize)
    ensures
        r == block_of(n as nat),
{
    let mut b: usize = 0;
    loop
        invariant
            b <= n,
            tri(b as nat) <= n,
            block_from(b as nat, n as nat) == block_of(n as nat),
        ensures
            b == block_of(n as nat),
        decreases n + 2 - b,
    {
        proof {
            lemma_tri_closed(b as nat);
            lemma_tri_closed((b + 1) as nat);
            assert(b * (b + 1) <= 2 * n);
            assert(b <= b * (b + 1) || b == 0) by (nonlinear_arith);
            assert((b + 1) * (b + 2) == b * (b + 1) + 2 * b + 2) by (nonlinear_arith);
            assert((b + 1) * (b + 2) <= 6 * n + 2);
        }
        let t = ((b as u128) + 1) * ((b as u128) + 2) / 2;
        proof {
            assert(t == tri((b + 1) as nat));
        }
        if t > (n as u128) {
            proof {
                assert(block_from(b as nat, n as nat) == b);
            }
            break ;
        }
        proof {
            lemma_tri_at_least((b + 1) as nat);
        }
        b = b + 1;
    }
    b
}

/// A stack of blocks of sizes one, two, three and so on.
pub struct RootishStack<T> {
    len: usize,
    blocks: Vec<Vec<T>>,
}

impl<T> View for RootishStack<T> {
    type V = Seq<T>;

    /// The stack's elements, oldest first.
    closed spec fn view(&self) -> Seq<T> {
        blocks_view(self.blocks@)
    }
}

impl<T> RootishStack<T> {
    /// Well-formedness: block `b` holds exactly its share of the `len`
    /// elements, and the block holding the last element exists.
    pub closed spec fn inv(self) -> bool {
        &&& self.len == blocks_view(self.blocks@).len()
        &&& (forall|b: int|
            0 <= b < self.blocks@.len() ==> (#[trigger] self.blocks@[b])@.len() == bsize(
                b as nat,
                self.len as nat,
            ))
        &&& (self.len > 0 ==> block_of((self.len - 1) as nat) < self.blocks@.len())
    }

    /// Creates an empty stack.
    pub fn new() -> (s: Self)
        ensures
            s.inv(),
            s@ == Seq::<T>::empty(),
    {
        let s = RootishStack { len: 0, blocks: Vec::new() };
        proof {
            assert(s@ =~= Seq::<T>::empty());
        }
        s
    }

    /// Whether the stack holds no element.
    pub fn is_empty(&self) -> (b: bool)
        requires
            self.inv(),
        ensures
            b == (self@.len() == 0),
    {
        self.len == 0
    }

    /// Number of elements.
    pub fn len(&self) -> (n: usize)
        requires
            self.inv(),
        ensures
            n == self@.len(),
    {
        self.len
    }

    /// The block where the next element goes: the one holding position
    /// `len`.
    pub fn get_block(&self) -> (r: usize)
        requires
            self.inv(),
        ensures
            r == block_of(self@.len()),
    {
        block_index(self.len)
    }

    /// Where inside its block the next element goes.
    pub fn get_index(&self) -> (r: usize)
        requires
            self.inv(),
        ensures
            r == self@.len() - tri(block_of(self@.len())),
    {
        let block = block_index(self.len);
        proof {
            lemma_block_from_char(0, self.len as nat);
            lemma_tri_closed(block as nat);
            assert(2 * tri(block as nat) <= 2 * self.len);
        }
        let t = (((block as u128) * ((block as u128) + 1)) / 2) as usize;
        proof {
            assert(t == tri(block as nat));
        }
        self.len - t
    }

    /// Appends an element, starting a new block when the current one is
    /// full.
    pub fn push(&mut self, value: T)
        requires
            old(self).inv(),
            old(self)@.len() < usize::MAX,
        ensures
            final(self).inv(),
            final(self)@ == old(self)@.push(value),
    {
        let ghost n = self.len as nat;
        let block = self.get_block();
        let index = self.get_index();
        proof {
            lemma_block_from_char(0, n);
        }
        if index == 0 {
            let fresh: Vec<T> = Vec::with_capacity(
                if block > 1 {
                    block
                } else {
                    1
                },
            );
            proof {
                lemma_bv_grow(self.blocks@, fresh);
                assert(self.len > 0 ==> block_of((self.len - 1) as nat) < self.blocks@.len());
                if self.len > 0 {
                    lemma_block_succ((self.len - 1) as nat);
                }
                lemma_block_from_char(0, n);
            }
            self.blocks.push(fresh);
            proof {
                assert forall|b: int|
                    0 <= b < self.blocks@.len() implies (#[trigger] self.blocks@[b])@.len()
                    == bsize(b as nat, n) by {
                    if b == self.blocks@.len() - 1 {
                        assert(tri(block as nat) == n);
                        if b < block {
                            lemma_tri_mono((b + 1) as nat, block as nat);
                            assert(bsize(b as nat, n) == b + 1);
                            assert(old(self).inv());
                            assert(false);
                        }
                        if b > block {
                            assert(n < tri(block as nat + 1));
                            lemma_tri_mono(block as nat + 1, b as nat);
                            assert(bsize(b as nat, n) == 0);
                        }
                        if b == block {
                            assert(bsize(b as nat, n) == 0);
                        }
                    }
                }
            }
        }
        proof {
            assert(block < self.blocks@.len()) by {
                if index != 0 {
                    assert(self.len > 0 || tri(block_of(0)) == 0);
                    assert(n > 0);
                    lemma_block_succ((n - 1) as nat);
                    assert(block_of((n - 1) as nat) >= block_of(n) || block_of((n - 1) as nat)
                        + 1 >= block_of(n));
                    if block_of((n - 1) as nat) + 1 == block_of(n) {
                        // A fresh block always starts at its first slot.
                        lemma_block_from_char(0, (n - 1) as nat);
                        assert(n - 1 < tri(block_of((n - 1) as nat) + 1));
                        assert(tri(block_of(n)) <= n);
                        lemma_tri_mono(block_of((n - 1) as nat) + 1, block_of(n));
                        assert(tri(block_of(n)) == n);
                        assert(false);
                    }
                    assert(block_of((n - 1) as nat) == block_of(n));
                }
            }
        }
        let ghost bs0 = self.blocks@;
        let ghost inner0 = self.blocks@[block as int]@;
        self.blocks[block].push(value);
        self.len = self.len + 1;
        proof {
            assert(self.blocks@[block as int]@ == inner0.push(value));
            assert forall|b: int| block < b < bs0.len() implies (#[trigger] bs0[b])@.len()
                == 0 by {
                assert(bs0[b]@.len() == bsize(b as nat, n));
                assert(n < tri(block_of(n) + 1));
                lemma_tri_mono(block_of(n) + 1, b as nat);
            }
            lemma_bv_push(bs0, block as int, self.blocks@[block as int], value);
            assert(self.blocks@ =~= bs0.update(block as int, self.blocks@[block as int]));
            assert((*self)@ == old(self)@.push(value));
            assert forall|b: int|
                0 <= b < self.blocks@.len() implies (#[trigger] self.blocks@[b])@.len() == bsize(
                b as nat,
                (n + 1) as nat,
            ) by {
                assert(tri(block_of(n)) <= n < tri(block_of(n) + 1));
                if b == block {
                    assert(self.blocks@[b]@.len() == bsize(b as nat, n) + 1);
                } else if b < block {
                    lemma_tri_mono((b + 1) as nat, block as nat);
                    assert(bs0[b]@.len() == bsize(b as nat, n));
                    assert(bsize(b as nat, n) == b + 1);
                    assert(tri(b as nat + 1) <= tri(block as nat) <= n);
                    assert(bsize(b as nat, (n + 1) as nat) == b + 1);
                } else {
                    lemma_tri_mono(block as nat + 1, b as nat);
                    assert(bsize(b as nat, n) == 0);
                    assert(n + 1 <= tri(block as nat + 1));
                    lemma_tri_mono(block as nat + 1, b as nat);
                    assert(bsize(b as nat, (n + 1) as nat) == 0);
                }
            }
            assert(self.len > 0 ==> block_of((self.len - 1) as nat) < self.blocks@.len());
        }
    }

    /// Takes the newest element out, or `None` when the stack is empty.
    pub fn pop(&mut self) -> (r: Option<T>)
        requires
            old(self).inv(),
        ensures
            final(self).inv(),
            match r {
                Some(v) => old(self)@.len() > 0 && v == old(self)@.last() && final(self)@ == old(
                    self,
                )@.drop_last(),
                None => old(self)@.len() == 0 && *final(self) == *old(self),
            },
    {
        if self.len == 0 {
            return None;
        }
        let ghost n = self.len as nat;
        self.len = self.len - 1;
        let block = block_index(self.len);
        proof {
            lemma_block_from_char(0, (n - 1) as nat);
            assert(block == block_of((n - 1) as nat));
            assert(self.blocks@[block as int]@.len() == bsize(block as nat, n));
            assert(bsize(block as nat, n) > 0) by {
                assert(tri(block as nat) <= n - 1);
                assert(tri(block as nat + 1) == tri(block as nat) + block + 1);
            }
            assert forall|b: int| block < b < self.blocks@.len() implies (
            #[trigger] self.blocks@[b])@.len() == 0 by {
                assert(self.blocks@[b]@.len() == bsize(b as nat, n));
                assert(n - 1 < tri(block as nat + 1));
                lemma_tri_mono(block as nat + 1, b as nat);
                assert(tri(b as nat) >= tri(block as nat + 1) >= n);
            }
        }
        let ghost bs0 = self.blocks@;
        let v = self.blocks[block].pop();
        proof {
            assert(self.blocks@[block as int]@ == bs0[block as int]@.drop_last());
            lemma_bv_pop(bs0, block as int, self.blocks@[block as int]);
            assert(self.blocks@ =~= bs0.update(block as int, self.blocks@[block as int]));
            assert(v == Some(old(self)@.last()));
            assert((*self)@ == old(self)@.drop_last());
            assert forall|b: int|
                0 <= b < self.blocks@.len() implies (#[trigger] self.blocks@[b])@.len() == bsize(
                b as nat,
                (n - 1) as nat,
            ) by {
                assert(tri(block as nat) <= n - 1 < tri(block as nat + 1));
                if b == block {
                    assert(self.blocks@[b]@.len() == bsize(b as nat, n) - 1);
                    assert(tri(block as nat + 1) == tri(block as nat) + block + 1);
                } else if b < block {
                    lemma_tri_mono((b + 1) as nat, block as nat);
                    assert(bs0[b]@.len() == bsize(b as nat, n));
                    assert(tri(b as nat + 1) <= tri(block as nat) <= n - 1);
                } else {
                    lemma_tri_mono(block as nat + 1, b as nat);
                    assert(bs0[b]@.len() == bsize(b as nat, n));
                    assert(tri(b as nat) >= n);
                }
            }
            if self.len > 0 {
                lemma_block_mono((self.len - 1) as nat, (n - 1) as nat);
            }
        }
        v
    }
}

} // verus!
