use crate::cards::card::{Card, Rank, Suit, NUM_SUITS};
use crate::datastructures::stack_vec::StackVec;
use vstd::prelude::*;

verus! {

/// For each suit, the ranks that were put in with that suit, in the order in
/// which they came; a suit keeps no more than seven.
#[derive(Clone, Copy)]
pub struct SuitGrouping {
    groups: [StackVec<Rank, 7>; 4],
}

impl SuitGrouping {
    /// The ranks held for `suit`.
    pub closed spec fn ranks(self, suit: Suit) -> Seq<Rank> {
        self.groups@[suit.ord()]@
    }

    /// For each of the four suits, from clubs to spades, the ranks held.
    pub open spec fn lists(self) -> Seq<Seq<Rank>> {
        Seq::new(4, |i: int| self.ranks(Suit::at(i)))
    }

    /// A grouping that holds nothing.
    pub fn new() -> (grouping: Self)
        ensures
            forall|suit: Suit| grouping.ranks(suit) == Seq::<Rank>::empty(),
    {
        let empty: StackVec<Rank, 7> = StackVec::new();
        let groups: [StackVec<Rank, 7>; 4] = [empty, empty, empty, empty];
        let grouping = Self { groups };
        proof {
            assert forall|suit: Suit| grouping.ranks(suit) == Seq::<Rank>::empty() by {
                assert(0 <= suit.ord() < 4);
                assert(grouping.groups@[suit.ord()] == empty);
            }
        }
        grouping
    }

    /// Puts the rank of `card` behind the ranks of its suit, unless that suit
    /// already holds seven.
    pub fn insert(&mut self, card: Card)
        ensures
            old(self).ranks(card.suit).len() < 7 ==> final(self).ranks(card.suit) == old(
                self,
            ).ranks(card.suit).push(card.rank),
            old(self).ranks(card.suit).len() >= 7 ==> final(self).ranks(card.suit) == old(
                self,
            ).ranks(card.suit),
            forall|suit: Suit| suit != card.suit ==> final(self).ranks(suit) == old(self).ranks(suit),
    {
        let i = card.suit.index();
        let mut group = self.groups[i];
        group.push(card.rank);
        self.groups[i] = group;
    }

    /// The ranks held for `suit`.
    pub fn get(&self, suit: Suit) -> (ranks: &[Rank])
        ensures
            ranks@ == self.ranks(suit),
    {
        self.groups[suit.index()].as_slice()
    }

    /// Empties the group of every suit.
    pub fn reset(&mut self)
        ensures
            forall|suit: Suit| final(self).ranks(suit) == Seq::<Rank>::empty(),
    {
        let mut i: usize = 0;
        while i < NUM_SUITS
            invariant
                i <= NUM_SUITS,
                forall|k: int| 0 <= k < i ==> (#[trigger] self.groups@[k])@ == Seq::<Rank>::empty(),
            decreases NUM_SUITS - i,
        {
            let mut group = self.groups[i];
            group.reset();
            self.groups[i] = group;
            i += 1;
        }
    }
}

} // verus!
