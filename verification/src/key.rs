//! Hashable map keys.
//!
//! The hash map's mathematical model is keyed by the key's view (`K::V`),
//! so two keys are interchangeable exactly when their views are equal.
//! Hashing is a pluggable capability: any deterministic function from the
//! key's view to a 64-bit integer will do, and every implementation here
//! defines one from scratch.

use vstd::prelude::*;
use vstd::string::StrSliceExecFns;

verus! {

/// A key usable by the open-addressing hash map: an executable equality
/// that decides view equality, and an executable hash that computes a
/// function of the view alone. Equal keys therefore hash equal, which is
/// all the probing algorithm needs.
pub trait MapKey: View + Sized {
    spec fn hash_spec(kv: Self::V) -> u64;

    fn hash_key(&self) -> (h: u64)
        ensures
            h == Self::hash_spec(self@),
    ;

    fn key_eq(&self, other: &Self) -> (r: bool)
        ensures
            r == (self@ == other@),
    ;
}

/// One xorshift round, used to scatter integer keys.
pub open spec fn scramble(x: u64) -> u64 {
    ((x ^ (x >> 33)) ^ ((x ^ (x >> 33)) << 21)) ^ (((x ^ (x >> 33)) ^ ((x ^ (x >> 33)) << 21))
        >> 17)
}

/// Runs `scramble` on an integer key.
pub(crate) fn scramble_exec(x: u64) -> (h: u64)
    ensures
        h == scramble(x),
{
    let a = x ^ (x >> 33);
    let b = a ^ (a << 21);
    b ^ (b >> 17)
}

impl MapKey for u64 {
    open spec fn hash_spec(kv: u64) -> u64 {
        scramble(kv)
    }

    fn hash_key(&self) -> (h: u64) {
        scramble_exec(*self)
    }

    fn key_eq(&self, other: &Self) -> (r: bool) {
        *self == *other
    }
}

impl MapKey for usize {
    open spec fn hash_spec(kv: usize) -> u64 {
        scramble(kv as u64)
    }

    fn hash_key(&self) -> (h: u64) {
        scramble_exec(*self as u64)
    }

    fn key_eq(&self, other: &Self) -> (r: bool) {
        *self == *other
    }
}

impl MapKey for i32 {
    open spec fn hash_spec(kv: i32) -> u64 {
        scramble(kv as u64)
    }

    fn hash_key(&self) -> (h: u64) {
        scramble_exec(*self as u64)
    }

    fn key_eq(&self, other: &Self) -> (r: bool) {
        *self == *other
    }
}

/// Hash of a character sequence: fold each character into a rotating
/// 64-bit accumulator.
pub open spec fn str_hash(cs: Seq<char>) -> u64
    decreases cs.len(),
{
    if cs.len() == 0 {
        0u64
    } else {
        (((str_hash(cs.drop_last()) << 5) | (str_hash(cs.drop_last()) >> 59)) ^ (
        cs.last() as u64)) as u64
    }
}

impl<'s> MapKey for &'s str {
    open spec fn hash_spec(kv: Seq<char>) -> u64 {
        str_hash(kv)
    }

    fn hash_key(&self) -> (h: u64) {
        let n = self.unicode_len();
        let mut acc: u64 = 0;
        let mut i: usize = 0;
        while i < n
            invariant
                i <= n,
                n == self@.len(),
                acc == str_hash(self@.take(i as int)),
            decreases n - i,
        {
            let c = self.get_char(i);
            proof {
                assert(self@.take(i + 1).drop_last() =~= self@.take(i as int));
                assert(self@.take(i + 1).last() == self@[i as int]);
            }
            acc = ((acc << 5) | (acc >> 59)) ^ (c as u64);
            i = i + 1;
        }
        proof {
            assert(self@.take(n as int) =~= self@);
        }
        acc
    }

    fn key_eq(&self, other: &Self) -> (r: bool) {
        let n = self.unicode_len();
        let m = other.unicode_len();
        if n != m {
            return false;
        }
        let mut i: usize = 0;
        while i < n
            invariant
                i <= n,
                n == self@.len(),
                n == other@.len(),
                forall|j: int| 0 <= j < i ==> self@[j] == other@[j],
            decreases n - i,
        {
            if self.get_char(i) != other.get_char(i) {
                return false;
            }
            i = i + 1;
        }
        proof {
            assert(self@ =~= other@);
        }
        true
    }
}

} // verus!
