//! A bloom filter: a bit table that answers membership with possible
//! false positives and no false negatives.
//!
//! Each of a family of seeded hash functions marks one bit per inserted
//! item; a lookup reports "present" exactly when every one of its bits is
//! marked.

use crate::key::scramble;
use crate::key::scramble_exec;
use crate::key::MapKey;
use vstd::prelude::*;

verus! {

/// Whether bit number `b` is set in a byte table.
pub open spec fn bit_set(bytes: Seq<u8>, b: int) -> bool
    recommends
        0 <= b < bytes.len() * 8,
{
    ((bytes[b / 8] >> ((b % 8) as u8)) & 1) == 1
}

/// The bit an item of hash `h` marks under the hash function seeded with
/// `seed`, in a table of `size` bits.
pub open spec fn spec_pos(seed: u64, h: u64, size: nat) -> int
    recommends
        size > 0,
{
    (scramble(h ^ seed) as int) % (size as int)
}

/// Setting one bit of a byte leaves every other bit of it alone.
proof fn lemma_mark_bit(x: u8, b: u8, c: u8)
    requires
        b < 8,
        c < 8,
    ensures
        ((x | (1u8 << b)) >> b) & 1 == 1,
        c != b ==> ((x | (1u8 << b)) >> c) & 1 == (x >> c) & 1,
{
    assert(((x | (1u8 << b)) >> b) & 1 == 1) by (bit_vector)
        requires
            b < 8,
    ;
    assert(c != b && c < 8 && b < 8 ==> ((x | (1u8 << b)) >> c) & 1 == (x >> c) & 1)
        by (bit_vector);
}

/// A bloom filter over `size` bits, marked by one seeded hash function per
/// seed.
pub struct BloomFilter {
    size: usize,
    bytes: Vec<u8>,
    hashers: Vec<u64>,
}

impl BloomFilter {
    /// Number of bits the filter distinguishes.
    pub closed spec fn spec_size(self) -> nat {
        self.size as nat
    }

    /// The seeds of the filter's hash functions.
    pub closed spec fn spec_seeds(self) -> Seq<u64> {
        self.hashers@
    }

    /// Whether bit number `b` is marked.
    pub closed spec fn marked(self, b: int) -> bool {
        bit_set(self.bytes@, b)
    }

    /// Well-formedness: one byte for every eight bits, rounded up.
    pub closed spec fn inv(self) -> bool {
        self.bytes@.len() == self.size as int / 8 + (if self.size as int % 8 > 0 {
            1int
        } else {
            0int
        })
    }

    /// Creates a filter of `size` bits with `hashers_count` hash
    /// functions, all bits clear.
    pub fn with_dimensions(size: usize, hashers_count: usize) -> (f: Self)
        ensures
            f.inv(),
            f.spec_size() == size,
            f.spec_seeds().len() == hashers_count,
            forall|b: int| 0 <= b < size ==> !f.marked(b),
    {
        let bytes_count = size / 8 + if size % 8 > 0 {
            1
        } else {
            0
        };
        let mut bytes: Vec<u8> = Vec::new();
        while bytes.len() < bytes_count
            invariant
                bytes@.len() <= bytes_count,
                forall|j: int| 0 <= j < bytes@.len() ==> bytes@[j] == 0u8,
            decreases bytes_count - bytes@.len(),
        {
            bytes.push(0);
        }
        let mut hashers: Vec<u64> = Vec::new();
        let mut k: usize = 0;
        while k < hashers_count
            invariant
                k <= hashers_count,
                hashers@.len() == k,
            decreases hashers_count - k,
        {
            hashers.push(k as u64);
            k = k + 1;
        }
        let f = BloomFilter { size, bytes, hashers };
        proof {
            assert forall|b: int| 0 <= b < size implies !f.marked(b) by {
                let c = (b % 8) as u8;
                assert((0u8 >> c) & 1 == 0) by (bit_vector);
            }
        }
        f
    }

    /// Marks every bit the item's hash family picks.
    pub fn insert<T: MapKey>(&mut self, item: T)
        requires
            old(self).inv(),
            old(self).spec_size() > 0,
        ensures
            final(self).inv(),
            final(self).spec_size() == old(self).spec_size(),
            final(self).spec_seeds() == old(self).spec_seeds(),
            forall|b: int|
                0 <= b < old(self).spec_size() ==> (final(self).marked(b) <==> (old(
                    self,
                ).marked(b) || (exists|k: int|
                    0 <= k < old(self).spec_seeds().len() && b == spec_pos(
                        #[trigger] old(self).spec_seeds()[k],
                        T::hash_spec(item@),
                        old(self).spec_size(),
                    )))),
    {
        let h = item.hash_key();
        let count = self.hashers.len();
        let mut k: usize = 0;
        while k < count
            invariant
                self.inv(),
                self.size == old(self).size,
                self.size > 0,
                self.hashers@ == old(self).hashers@,
                self.bytes@.len() == old(self).bytes@.len(),
                count == self.hashers@.len(),
                k <= count,
                h == T::hash_spec(item@),
                forall|b: int|
                    0 <= b < self.size ==> (self.marked(b) <==> (old(self).marked(b) || (
                    exists|j: int|
                        0 <= j < k && b == spec_pos(
                            #[trigger] self.hashers@[j],
                            T::hash_spec(item@),
                            self.size as nat,
                        )))),
            decreases count - k,
        {
            let seed = self.hashers[k];
            let index = scramble_exec(h ^ seed) % (self.size as u64);
            let byte_index = (index / 8) as usize;
            let bit_index = (index % 8) as u8;
            proof {
                assert(index < self.size);
                assert(byte_index < self.bytes@.len());
                assert(index as int == spec_pos(seed, T::hash_spec(item@), self.size as nat));
            }
            let ghost pre = *self;
            let x = self.bytes[byte_index];
            self.bytes[byte_index] = x | (1u8 << bit_index);
            k = k + 1;
            proof {
                assert forall|b: int|
                    0 <= b < self.size implies (self.marked(b) <==> (old(self).marked(b) || (
                exists|j: int|
                    0 <= j < k && b == spec_pos(
                        #[trigger] self.hashers@[j],
                        T::hash_spec(item@),
                        self.size as nat,
                    )))) by {
                    lemma_mark_bit(x, bit_index, (b % 8) as u8);
                    if b == index {
                        assert(self.hashers@[k - 1] == seed);
                        assert(self.marked(b));
                    } else if b / 8 == byte_index {
                        assert(self.marked(b) == pre.marked(b));
                    } else {
                        assert(self.marked(b) == pre.marked(b));
                    }
                }
            }
        }
    }

    /// Reports whether every bit the item's hash family picks is marked:
    /// always true after the item was inserted, possibly true for an item
    /// that never was.
    pub fn contains<T: MapKey>(&mut self, item: T) -> (r: bool)
        requires
            old(self).inv(),
            old(self).spec_size() > 0,
        ensures
            *final(self) == *old(self),
            r == (forall|k: int|
                0 <= k < old(self).spec_seeds().len() ==> old(self).marked(
                    spec_pos(
                        #[trigger] old(self).spec_seeds()[k],
                        T::hash_spec(item@),
                        old(self).spec_size(),
                    ),
                )),
    {
        let ghost pre0 = *self;
        let h = item.hash_key();
        let count = self.hashers.len();
        let mut k: usize = 0;
        while k < count
            invariant
                self.inv(),
                *self == *old(self),
                pre0 == *self,
                self.size > 0,
                count == self.hashers@.len(),
                k <= count,
                h == T::hash_spec(item@),
                forall|j: int|
                    0 <= j < k ==> pre0.marked(
                        spec_pos(
                            #[trigger] pre0.spec_seeds()[j],
                            T::hash_spec(item@),
                            pre0.spec_size(),
                        ),
                    ),
            decreases count - k,
        {
            let seed = self.hashers[k];
            let index = scramble_exec(h ^ seed) % (self.size as u64);
            let byte_index = (index / 8) as usize;
            let bit_index = (index % 8) as u8;
            proof {
                assert(index < self.size);
                assert(byte_index < self.bytes@.len());
                assert(index as int == spec_pos(seed, T::hash_spec(item@), self.size as nat));
            }
            let byte = self.bytes[byte_index];
            proof {
                assert((byte >> bit_index) & 1 == 0 || (byte >> bit_index) & 1 == 1)
                    by (bit_vector);
            }
            if (byte >> bit_index) & 1 == 0 {
                proof {
                    assert(!self.marked(index as int));
                    assert(pre0.spec_seeds()[k as int] == seed);
                    assert(!pre0.marked(
                        spec_pos(
                            pre0.spec_seeds()[k as int],
                            T::hash_spec(item@),
                            pre0.spec_size(),
                        ),
                    ));
                    assert(!(forall|kk: int|
                        0 <= kk < pre0.spec_seeds().len() ==> pre0.marked(
                            spec_pos(
                                #[trigger] pre0.spec_seeds()[kk],
                                T::hash_spec(item@),
                                pre0.spec_size(),
                            ),
                        )));
                }
                return false;
            }
            proof {
                assert(self.marked(index as int));
                assert(pre0.marked(
                    spec_pos(pre0.spec_seeds()[k as int], T::hash_spec(item@), pre0.spec_size()),
                ));
            }
            k = k + 1;
        }
        true
    }
}

} // verus!
