use crate::cards::card::{Rank, NUM_RANKS};
use vstd::prelude::*;

verus! {

/// Counts how often each rank has been seen.
#[derive(Debug, Clone, Copy)]
pub struct RankCounter {
    counts: [u8; 13],
}

impl RankCounter {
    /// How often `rank` has been counted.
    pub closed spec fn count(self, rank: Rank) -> nat {
        self.counts@[rank.ord()] as nat
    }

    /// A counter that has seen nothing.
    pub fn new() -> (counter: Self)
        ensures
            forall|rank: Rank| counter.count(rank) == 0,
    {
        Self { counts: [0; NUM_RANKS] }
    }

    /// Counts `rank` once more.
    pub fn inc(&mut self, rank: Rank)
        requires
            old(self).count(rank) < 255,
        ensures
            final(self).count(rank) == old(self).count(rank) + 1,
            forall|other: Rank| other != rank ==> final(self).count(other) == old(self).count(other),
    {
        let i = rank.index();
        self.counts[i] = self.counts[i] + 1;
    }

    /// How often `rank` has been counted.
    pub fn get(&self, rank: Rank) -> (n: u8)
        ensures
            n == self.count(rank),
    {
        self.counts[rank.index()]
    }

    /// Forgets every count.
    pub fn reset(&mut self)
        ensures
            forall|rank: Rank| final(self).count(rank) == 0,
    {
        let mut i: usize = 0;
        while i < NUM_RANKS
            invariant
                i <= NUM_RANKS,
                forall|k: int| 0 <= k < i ==> self.counts@[k] == 0,
            decreases NUM_RANKS - i,
        {
            self.counts[i] = 0;
            i += 1;
        }
    }
}

} // verus!
