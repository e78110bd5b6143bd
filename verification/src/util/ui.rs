use crate::cards::card::Card;
use crate::cards::cardset::CardSet;
use crate::ui::input::{card_of, stream_card};
use vstd::prelude::*;

verus! {

/// The cards of a showdown of two players before the flop.
#[derive(Debug, Clone, Copy, PartialEq, Eq)]
pub struct Input {
    pub pockets: [CardSet; 2],
    pub board: CardSet,
}

/// The card that `text` names, where it names one and nothing else.
pub open spec fn card_named(text: Seq<char>) -> Option<Card> {
    match card_of(text) {
        Some((card, count)) => if count == text.len() {
            Some(card)
        } else {
            None
        },
        None => None,
    }
}

/// The card that `text` names, where it names one and nothing else.
pub fn parse_card(text: &[char]) -> (card: Option<Card>)
    ensures
        card == card_named(text@),
{
    match stream_card(text) {
        Some((card, count)) => if count == text.len() {
            Some(card)
        } else {
            None
        },
        None => None,
    }
}

/// The showdown of the two pockets that the first four arguments name, on
/// an empty board; nothing where there are fewer than four arguments or one
/// of the four does not name a card.
pub fn parse_input(args: &[Vec<char>]) -> (input: Option<Input>)
    ensures
        input is Some <==> args@.len() >= 4 && forall|i: int|
            0 <= i < 4 ==> card_named((#[trigger] args@[i])@) is Some,
        input matches Some(found) ==> {
            &&& found.pockets@[0]@ == set![
                card_named(args@[0]@).unwrap(),
                card_named(args@[1]@).unwrap(),
            ]
            &&& found.pockets@[1]@ == set![
                card_named(args@[2]@).unwrap(),
                card_named(args@[3]@).unwrap(),
            ]
            &&& found.board@ == Set::<Card>::empty()
        },
{
    if args.len() < 4 {
        return None;
    }
    let first = match parse_card(args[0].as_slice()) {
        Some(card) => card,
        None => {
            return None;
        },
    };
    let second = match parse_card(args[1].as_slice()) {
        Some(card) => card,
        None => {
            return None;
        },
    };
    let third = match parse_card(args[2].as_slice()) {
        Some(card) => card,
        None => {
            return None;
        },
    };
    let fourth = match parse_card(args[3].as_slice()) {
        Some(card) => card,
        None => {
            return None;
        },
    };
    let mut one = CardSet::new();
    one.insert(first);
    one.insert(second);
    let mut two = CardSet::new();
    two.insert(third);
    two.insert(fourth);
    proof {
        assert(one@ =~= set![first, second]);
        assert(two@ =~= set![third, fourth]);
    }
    Some(Input { pockets: [one, two], board: CardSet::new() })
}

} // verus!
