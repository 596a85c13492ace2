//! A fixed-size set of cell indices, one bit per cell.

use vstd::prelude::*;

verus! {

/// Whether bit `k` of `word` is set.
pub open spec fn bit_of(word: u64, k: u64) -> bool {
    word & (1u64 << k) != 0
}

proof fn lemma_zero_has_no_bit(k: u64)
    requires
        k < 64,
    ensures
        !bit_of(0, k),
{
    assert(0u64 & (1u64 << k) == 0) by (bit_vector)
        requires
            k < 64,
    ;
}

proof fn lemma_set_bit(word: u64, k: u64, j: u64)
    requires
        k < 64,
        j < 64,
    ensures
        bit_of(word | (1u64 << k), j) == (j == k || bit_of(word, j)),
{
    assert(((word | (1u64 << k)) & (1u64 << j) != 0) == (j == k || word & (1u64 << j) != 0))
        by (bit_vector)
        requires
            k < 64,
            j < 64,
    ;
}

/// A set of indices below `bits`, packed 64 to a word.
pub struct BitSet {
    pub words: Vec<u64>,
    pub bits: usize,
}

impl BitSet {
    /// The words cover exactly the indices below `bits`.
    pub open spec fn wf(&self) -> bool {
        self.words@.len() == (self.bits + 63) / 64
    }

    /// Whether index `i` is in the set.
    pub open spec fn has(&self, i: int) -> bool {
        0 <= i < self.bits && bit_of(self.words@[i / 64], (i % 64) as u64)
    }

    /// An empty set over the indices below `bits`.
    pub fn new(bits: usize) -> (s: BitSet)
        requires
            bits + 63 <= usize::MAX,
        ensures
            s.wf(),
            s.bits == bits,
            forall|i: int| !s.has(i),
    {
        let s = BitSet { words: vec![0u64; (bits + 63) / 64], bits };
        assert forall|i: int| !s.has(i) by {
            if 0 <= i < bits {
                lemma_zero_has_no_bit((i % 64) as u64);
            }
        }
        s
    }

    /// Whether `i` is in the set.
    pub fn contains(&self, i: usize) -> (b: bool)
        requires
            self.wf(),
            i < self.bits,
        ensures
            b == self.has(i as int),
    {
        (self.words[i / 64] & (1u64 << (i % 64))) != 0
    }

    /// Adds `i` to the set.
    pub fn insert(&mut self, i: usize)
        requires
            old(self).wf(),
            i < old(self).bits,
        ensures
            final(self).wf(),
            final(self).bits == old(self).bits,
            forall|j: int| final(self).has(j) == (j == i || old(self).has(j)),
    {
        let word: u64 = self.words[i / 64];
        self.words[i / 64] = word | (1u64 << (i % 64));
        assert forall|j: int| self.has(j) == (j == i || old(self).has(j)) by {
            if 0 <= j < self.bits {
                if j / 64 == i / 64 {
                    lemma_set_bit(word, (i % 64) as u64, (j % 64) as u64);
                }
            }
        }
    }
}

} // verus!
