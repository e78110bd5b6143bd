use poker_odds::cards::card::{Card, Rank, Suit};
use poker_odds::cards::suit_grouping::SuitGrouping;

const TWO_CLUB: Card = Card { rank: Rank::Two, suit: Suit::Club };
const THREE_CLUB: Card = Card { rank: Rank::Three, suit: Suit::Club };
const KING_CLUB: Card = Card { rank: Rank::King, suit: Suit::Club };
const THREE_HEART: Card = Card { rank: Rank::Three, suit: Suit::Heart };
const ACE_SPADE: Card = Card { rank: Rank::Ace, suit: Suit::Spade };

#[test]
fn suit_grouping_test_suit_grouping() {
    let mut grouping = SuitGrouping::new();

    grouping.insert(KING_CLUB);
    grouping.insert(TWO_CLUB);
    grouping.insert(THREE_CLUB);

    grouping.insert(ACE_SPADE);

    assert_eq!(
        grouping.get(Suit::Club),
        &[KING_CLUB, TWO_CLUB, THREE_CLUB]
    );
    assert_eq!(grouping.get(Suit::Heart), &[] as &[Card]);
    assert_eq!(grouping.get(Suit::Spade), &[ACE_SPADE]);
}

#[test]
fn suit_grouping_test_reset() {
    let mut grouping = SuitGrouping::new();

    grouping.insert(KING_CLUB);
    grouping.insert(TWO_CLUB);
    grouping.insert(ACE_SPADE);

    grouping.reset();

    grouping.insert(KING_CLUB);
    grouping.insert(THREE_CLUB);
    grouping.insert(THREE_HEART);

    assert_eq!(
        grouping.get(Suit::Club),
        &[KING_CLUB, THREE_CLUB]
    );
    assert_eq!(grouping.get(Suit::Heart), &[THREE_HEART]);
    assert_eq!(grouping.get(Suit::Spade), &[] as &[Card]);
}
