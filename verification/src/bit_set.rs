//! A growable set of node indices.

use vstd::prelude::*;

verus! {

/// A set of small natural numbers, stored as one flag per index.
#[derive(Clone, Debug)]
pub struct Bitset {
    bits: Vec<bool>,
}

impl Bitset {
    /// Whether `i` belongs to the set.
    pub closed spec fn has(&self, i: nat) -> bool {
        i < self.bits@.len() && self.bits@[i as int]
    }

    /// The empty set.
    pub fn new() -> (r: Bitset)
        ensures
            forall|i: nat| !r.has(i),
    {
        Bitset { bits: Vec::new() }
    }

    /// Returns whether `i` belongs to the set.
    pub fn has_bit(&self, i: usize) -> (r: bool)
        ensures
            r == self.has(i as nat),
    {
        i < self.bits.len() && self.bits[i]
    }

    /// Adds `i` to the set.
    pub fn set_bit(&mut self, i: usize)
        ensures
            forall|j: nat| final(self).has(j) == (j == i || old(self).has(j)),
    {
        while self.bits.len() <= i
            invariant
                forall|j: nat| self.has(j) == old(self).has(j),
            decreases i + 1 - self.bits.len(),
        {
            self.bits.push(false);
        }
        self.bits.set(i, true);
    }

    /// A copy of the set.
    pub fn copy(&self) -> (r: Bitset)
        ensures
            forall|j: nat| r.has(j) == self.has(j),
    {
        let mut bits: Vec<bool> = Vec::new();
        let n = self.bits.len();
        for k in 0..n
            invariant
                n == self.bits@.len(),
                bits@ == self.bits@.take(k as int),
        {
            bits.push(self.bits[k]);
        }
        assert(bits@ == self.bits@);
        Bitset { bits }
    }
}

} // verus!
