use crate::cards::card::{Card, Rank, Suit};
use vstd::prelude::*;

verus! {

/// For each suit, the cards that were put in with that suit, in the order in
/// which they came: seven at most.
pub struct SuitGrouping {
    groups: [[Card; 7]; 4],
    lengths: [usize; 4],
}

impl SuitGrouping {
    #[verifier::type_invariant]
    spec fn type_inv(self) -> bool {
        forall|i: int| 0 <= i < 4 ==> self.lengths@[i] <= 7
    }

    /// The cards held for `suit`.
    pub closed spec fn cards(self, suit: Suit) -> Seq<Card> {
        self.groups@[suit.ord()]@.take(self.lengths@[suit.ord()] as int)
    }

    /// A grouping that holds nothing.
    pub fn new() -> (grouping: Self)
        ensures
            forall|suit: Suit| grouping.cards(suit) == Seq::<Card>::empty(),
    {
        let arbitrary_card = Card { rank: Rank::Two, suit: Suit::Club };
        let group = [
            arbitrary_card,
            arbitrary_card,
            arbitrary_card,
            arbitrary_card,
            arbitrary_card,
            arbitrary_card,
            arbitrary_card,
        ];
        let grouping = Self { groups: [group, group, group, group], lengths: [0, 0, 0, 0] };
        proof {
            assert forall|suit: Suit| grouping.cards(suit) == Seq::<Card>::empty() by {
                assert(0 <= suit.ord() < 4);
                assert(grouping.cards(suit) =~= Seq::<Card>::empty());
            }
        }
        grouping
    }

    /// Puts `card` behind the cards of its suit, of which there are fewer
    /// than seven.
    pub fn insert(&mut self, card: Card)
        requires
            old(self).cards(card.suit).len() < 7,
        ensures
            final(self).cards(card.suit) == old(self).cards(card.suit).push(card),
            forall|suit: Suit| suit != card.suit ==> final(self).cards(suit) == old(self).cards(suit),
    {
        proof {
            use_type_invariant(&*self);
        }
        let s = card.suit.index();
        let at = self.lengths[s];
        let mut groups = self.groups;
        let mut lengths = self.lengths;
        groups[s][at] = card;
        lengths[s] = at + 1;
        let ghost before = *self;
        *self = SuitGrouping { groups, lengths };
        proof {
            assert(self.cards(card.suit) =~= before.cards(card.suit).push(card));
            assert forall|suit: Suit| suit != card.suit implies self.cards(suit) == before.cards(
                suit,
            ) by {
                assert(suit.ord() != card.suit.ord());
                assert(self.cards(suit) =~= before.cards(suit));
            }
        }
    }

    /// The cards held for `suit`.
    pub fn get(&self, suit: Suit) -> (cards: &[Card])
        ensures
            cards@ == self.cards(suit),
    {
        proof {
            use_type_invariant(self);
        }
        let s = suit.index();
        let cards = vstd::slice::slice_subrange(self.groups[s].as_slice(), 0, self.lengths[s]);
        proof {
            assert(cards@ =~= self.cards(suit));
        }
        cards
    }

    /// Empties the group of every suit.
    pub fn reset(&mut self)
        ensures
            forall|suit: Suit| final(self).cards(suit) == Seq::<Card>::empty(),
    {
        let groups = self.groups;
        *self = SuitGrouping { groups, lengths: [0, 0, 0, 0] };
        proof {
            assert forall|suit: Suit| self.cards(suit) == Seq::<Card>::empty() by {
                assert(0 <= suit.ord() < 4);
                assert(self.cards(suit) =~= Seq::<Card>::empty());
            }
        }
    }
}

} // verus!
