//! A direct-mapped table that caches one heuristic value per slot.

use vstd::prelude::*;

verus! {

/// One slot of the table: the hash it was stored under, the cached value and
/// the generation in which it was stored.
#[derive(Clone, Copy, PartialEq, Eq, Structural, Debug)]
pub struct Entry {
    pub hash: u64,
    pub heuristic: i32,
    pub age: u8,
}

/// A fixed number of slots, addressed by hash modulo the size. An entry counts
/// only while the table's generation equals the one it was stored in.
pub struct TranspositionTable {
    pub entries: Vec<Entry>,
    pub size: usize,
    pub age: u8,
}

impl TranspositionTable {
    /// The table has `size` slots, and at least one.
    pub open spec fn wf(&self) -> bool {
        self.size > 0 && self.entries@.len() == self.size
    }

    /// The slot that `hash` is mapped to.
    pub open spec fn slot(&self, hash: u64) -> int {
        ((hash as usize) % self.size) as int
    }

    /// What the table holds for `hash` in the current generation.
    pub open spec fn lookup(&self, hash: u64) -> Option<i32> {
        let e = self.entries@[self.slot(hash)];
        if e.hash == hash && e.age == self.age {
            Some(e.heuristic)
        } else {
            None
        }
    }

    /// A table of `size` zeroed slots in generation 0.
    pub fn new(size: usize) -> (t: TranspositionTable)
        ensures
            t.size == size,
            t.age == 0,
            t.entries@.len() == size,
            forall|i: int|
                0 <= i < size ==> #[trigger] t.entries@[i] == (Entry { hash: 0, heuristic: 0, age: 0 }),
    {
        TranspositionTable {
            entries: vec![Entry { hash: 0, heuristic: 0, age: 0 }; size],
            size,
            age: 0,
        }
    }

    /// The value cached for `hash`, if its slot holds one from this generation.
    pub fn probe(&self, hash: u64) -> (cached: Option<i32>)
        requires
            self.wf(),
        ensures
            cached == self.lookup(hash),
    {
        let idx: usize = (#[verifier::truncate] (hash as usize)) % self.size;
        let entry = self.entries[idx];
        if entry.hash == hash && entry.age == self.age {
            Some(entry.heuristic)
        } else {
            None
        }
    }

    /// Caches `heuristic` for `hash`, replacing whatever its slot held.
    pub fn store(&mut self, hash: u64, heuristic: i32)
        requires
            old(self).wf(),
        ensures
            final(self).wf(),
            final(self).size == old(self).size,
            final(self).age == old(self).age,
            final(self).entries@ == old(self).entries@.update(
                old(self).slot(hash),
                Entry { hash, heuristic, age: old(self).age },
            ),
            final(self).lookup(hash) == Some(heuristic),
    {
        let idx: usize = (#[verifier::truncate] (hash as usize)) % self.size;
        let age: u8 = self.age;
        self.entries[idx] = Entry { hash, heuristic, age };
    }

    /// Starts the next generation, wrapping round after 255; every entry
    /// stored in another generation stops counting.
    pub fn next_age(&mut self)
        ensures
            final(self).age as int == (old(self).age + 1) % 256,
            final(self).entries@ == old(self).entries@,
            final(self).size == old(self).size,
    {
        self.age = self.age.wrapping_add(1);
    }
}

/// A fresh table answers for hash 0 alone, with the value 0.
pub proof fn lemma_fresh_table(t: TranspositionTable, hash: u64)
    requires
        t.wf(),
        t.age == 0,
        forall|i: int|
            0 <= i < t.size ==> #[trigger] t.entries@[i] == (Entry { hash: 0, heuristic: 0, age: 0 }),
    ensures
        t.lookup(hash) == (if hash == 0 { Some(0i32) } else { None }),
{
}

/// After `next_age` nothing stored in the generation before is found.
pub proof fn lemma_next_age_forgets(before: TranspositionTable, after: TranspositionTable, hash: u64)
    requires
        before.wf(),
        after.wf(),
        after.size == before.size,
        after.entries@ == before.entries@,
        after.age as int == (before.age + 1) % 256,
        before.lookup(hash) is Some,
    ensures
        after.lookup(hash) is None,
{
}

} // verus!
