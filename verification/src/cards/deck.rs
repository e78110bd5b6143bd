use crate::cards::card::{card_at, Card};
use rand::Rng;
use vstd::prelude::*;

verus! {

/// The cards that are left of a deck of 52.
#[derive(Debug, Clone)]
pub struct Deck {
    cards: Vec<Card>,
}

/// The list `cards` without the card at `index`: the last card takes its
/// place.
pub open spec fn without(cards: Seq<Card>, index: int) -> Seq<Card> {
    cards.update(index, cards.last()).drop_last()
}

/// The first place of `card` in `cards`, or the length of `cards` where it
/// does not occur.
pub open spec fn first_place(cards: Seq<Card>, card: Card) -> int
    decreases cards.len(),
{
    if cards.len() == 0 {
        0
    } else if cards[0] == card {
        0
    } else {
        1 + first_place(cards.drop_first(), card)
    }
}

/// How many of the answers are yes.
pub open spec fn count_yes(answers: Seq<bool>) -> nat
    decreases answers.len(),
{
    if answers.len() == 0 {
        0
    } else {
        count_yes(answers.drop_last()) + if answers.last() {
            1nat
        } else {
            0nat
        }
    }
}

/// `rand::Rng::random_range` on the range from 0 up to `bound`, which is not
/// empty: a number of that range.
#[verifier::external_body]
fn random_index<R: Rng + ?Sized>(rng: &mut R, bound: usize) -> (index: usize)
    requires
        bound > 0,
    ensures
        index < bound,
{
    rng.random_range(0..bound)
}

impl View for Deck {
    type V = Seq<Card>;

    closed spec fn view(&self) -> Seq<Card> {
        self.cards@
    }
}

impl Deck {
    /// A deck of all 52 cards, from the two of clubs to the ace of spades.
    pub fn new() -> (deck: Deck)
        ensures
            deck@ == Seq::new(52, |i: int| Card::at(i)),
    {
        let mut cards: Vec<Card> = Vec::new();
        let mut i: usize = 0;
        while i < 52
            invariant
                i <= 52,
                cards@.len() == i,
                forall|k: int| 0 <= k < i ==> cards@[k] == Card::at(k),
            decreases 52 - i,
        {
            cards.push(card_at(i));
            i += 1;
        }
        proof {
            assert(cards@ =~= Seq::new(52, |i: int| Card::at(i)));
        }
        Deck { cards }
    }

    /// Takes the card at `index` out of the deck; the last card takes its
    /// place.
    pub fn take(&mut self, index: usize) -> (card: Card)
        requires
            index < old(self)@.len(),
        ensures
            card == old(self)@[index as int],
            final(self)@ == without(old(self)@, index as int),
    {
        self.cards.swap_remove(index)
    }

    /// Takes out of the deck a card that `rng` picks; the last card takes
    /// its place.
    pub fn deal<R: Rng + ?Sized>(&mut self, rng: &mut R) -> (card: Card)
        requires
            old(self)@.len() > 0,
        ensures
            exists|index: int|
                0 <= index < old(self)@.len() && card == old(self)@[index] && final(self)@
                    == #[trigger] without(old(self)@, index),
    {
        let index = random_index(rng, self.cards.len());
        let card = self.take(index);
        proof {
            assert(self@ == without(old(self)@, index as int));
        }
        card
    }

    /// Whether no card is left.
    pub fn is_empty(&self) -> (empty: bool)
        ensures
            empty == (self@.len() == 0),
    {
        self.len() == 0
    }

    /// The number of cards that are left.
    pub fn len(&self) -> (n: usize)
        ensures
            n == self@.len(),
    {
        self.cards.len()
    }

    /// Asks `predicate` of every card that is left, from the first to the
    /// last, and counts the cards for which it answers yes.
    pub fn num_satisfying<P: Fn(Card) -> bool>(&self, predicate: P) -> (count: usize)
        requires
            forall|i: int| 0 <= i < self@.len() ==> call_requires(predicate, (#[trigger] self@[i],)),
        ensures
            count <= self@.len(),
            exists|answers: Seq<bool>|
                {
                    &&& answers.len() == self@.len()
                    &&& forall|i: int|
                        0 <= i < self@.len() ==> call_ensures(
                            predicate,
                            (self@[i],),
                            #[trigger] answers[i],
                        )
                    &&& count == count_yes(answers)
                },
    {
        let mut count: usize = 0;
        let mut i: usize = 0;
        let ghost mut answers = Seq::<bool>::empty();
        while i < self.cards.len()
            invariant
                i <= self@.len(),
                answers.len() == i,
                count == count_yes(answers),
                count <= i,
                forall|k: int|
                    0 <= k < self@.len() ==> call_requires(predicate, (#[trigger] self@[k],)),
                forall|k: int|
                    0 <= k < i ==> call_ensures(predicate, (self@[k],), #[trigger] answers[k]),
            decreases self@.len() - i,
        {
            let answer = predicate(self.cards[i]);
            proof {
                assert(answers.push(answer).drop_last() =~= answers);
                answers = answers.push(answer);
            }
            if answer {
                count += 1;
            }
            i += 1;
        }
        count
    }

    /// Takes `card` out of the deck, where it is there: the last card takes
    /// the first place of `card`. Says whether the card was there.
    pub fn remove_card(&mut self, card: Card) -> (found: bool)
        ensures
            found == old(self)@.contains(card),
            found ==> final(self)@ == without(old(self)@, first_place(old(self)@, card)),
            !found ==> final(self)@ == old(self)@,
    {
        let mut i: usize = 0;
        proof {
            assert(self@.skip(0) =~= self@);
        }
        while i < self.cards.len()
            invariant
                i <= self@.len(),
                self@ == old(self)@,
                forall|k: int| 0 <= k < i ==> self@[k] != card,
                first_place(self@, card) == i + first_place(self@.skip(i as int), card),
            decreases self@.len() - i,
        {
            proof {
                assert(self@.skip(i as int).drop_first() =~= self@.skip(i + 1));
                assert(self@.skip(i as int)[0] == self@[i as int]);
            }
            if self.cards[i] == card {
                self.cards.swap_remove(i);
                return true;
            }
            i += 1;
        }
        proof {
            if old(self)@.contains(card) {
                let k = choose|k: int| 0 <= k < old(self)@.len() && old(self)@[k] == card;
                assert(self@[k] != card);
            }
        }
        false
    }
}

} // verus!
