use crate::analysis::evaluate_hand::hand_value;
pub use crate::analysis::evaluate_hand::HandEvaluation;
use crate::cards::card::Card;
use crate::cards::cardset::{CardSet, CardSetIterator};
use vstd::prelude::*;

verus! {

/// The number of cards of a hand at the showdown.
pub const HAND_SIZE: usize = 7;

/// A hand of seven cards.
#[derive(Debug, PartialEq, Eq, Clone, Copy, Hash, Structural)]
pub struct Hand {
    cardset: CardSet,
}

impl Hand {
    #[verifier::type_invariant]
    spec fn type_inv(self) -> bool {
        self.cardset@.len() == 7 && self.cardset.wf()
    }

    /// The cards of the hand.
    pub closed spec fn cards(self) -> CardSet {
        self.cardset
    }

    /// The hand of seven cards that differ from each other.
    pub fn new(cards: &[Card; 7]) -> (hand: Self)
        requires
            forall|i: int, j: int| 0 <= i < j < 7 ==> cards@[i] != cards@[j],
        ensures
            hand.cards()@ == cards@.to_set(),
            hand.cards()@.len() == 7,
    {
        let cardset = CardSet::from_cards(cards.as_slice());
        proof {
            use_type_invariant(&cardset);
            assert(cards@.no_duplicates());
            cards@.unique_seq_to_set();
        }
        Self { cardset }
    }

    /// Walks the hand from the highest place in the deck down.
    pub fn iter_desc(&self) -> (iter: CardSetIterator)
        ensures
            iter.remaining() == self.cards().desc(),
    {
        self.cardset.iter_desc()
    }
}

impl HandEvaluation {
    /// The value of a hand of seven cards.
    pub fn evaluate(hand: &Hand) -> (value: Self)
        ensures
            value == hand_value(hand.cards().desc()),
    {
        proof {
            use_type_invariant(hand);
        }
        HandEvaluation::evaluate_postflop(hand.cardset).unwrap()
    }
}

} // verus!
