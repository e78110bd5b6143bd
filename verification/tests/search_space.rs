use poker_odds::analysis::search_space::combinations;
use poker_odds::cards::card::{Card, Rank, Suit};
use poker_odds::cards::cardset::CardSet;

const JACK_CLUB: Card = Card { rank: Rank::Jack, suit: Suit::Club };
const QUEEN_DIAMOND: Card = Card { rank: Rank::Queen, suit: Suit::Diamond };
const KING_HEART: Card = Card { rank: Rank::King, suit: Suit::Heart };
const TEN_SPADE: Card = Card { rank: Rank::Ten, suit: Suit::Spade };
const ACE_SPADE: Card = Card { rank: Rank::Ace, suit: Suit::Spade };

#[test]
fn test_combinations_empty() {
    let set = CardSet::from(&[ACE_SPADE, KING_HEART, QUEEN_DIAMOND]);
    let expected: Vec<CardSet> = vec![CardSet::new()];

    let actual = combinations(set, 0);

    assert_eq!(actual, expected);
}

#[test]
fn test_combinations_of_slice_single() {
    let set = CardSet::from(&[ACE_SPADE, KING_HEART, QUEEN_DIAMOND]);
    let expected: Vec<CardSet> = vec![
        CardSet::from(&[ACE_SPADE]),
        CardSet::from(&[KING_HEART]),
        CardSet::from(&[QUEEN_DIAMOND]),
    ];

    let actual = combinations(set, 1);

    assert_eq!(actual, expected);
}

#[test]
fn test_combinations_of_slice_small() {
    let set = CardSet::from(&[ACE_SPADE, KING_HEART, QUEEN_DIAMOND]);
    let expected = vec![
        CardSet::from(&[ACE_SPADE, KING_HEART]),
        CardSet::from(&[ACE_SPADE, QUEEN_DIAMOND]),
        CardSet::from(&[KING_HEART, QUEEN_DIAMOND]),
    ];

    let actual = combinations(set, 2);

    assert_eq!(actual, expected);
}

#[test]
fn test_combinations_of_slice_big() {
    let set = CardSet::from(&[
        ACE_SPADE,
        KING_HEART,
        QUEEN_DIAMOND,
        JACK_CLUB,
        TEN_SPADE,
    ]);
    let expected = vec![
        CardSet::from(&[ACE_SPADE, KING_HEART, QUEEN_DIAMOND]),
        CardSet::from(&[ACE_SPADE, KING_HEART, JACK_CLUB]),
        CardSet::from(&[ACE_SPADE, KING_HEART, TEN_SPADE]),
        CardSet::from(&[ACE_SPADE, QUEEN_DIAMOND, JACK_CLUB]),
        CardSet::from(&[ACE_SPADE, QUEEN_DIAMOND, TEN_SPADE]),
        CardSet::from(&[ACE_SPADE, JACK_CLUB, TEN_SPADE]),
        CardSet::from(&[KING_HEART, QUEEN_DIAMOND, JACK_CLUB]),
        CardSet::from(&[KING_HEART, QUEEN_DIAMOND, TEN_SPADE]),
        CardSet::from(&[KING_HEART, JACK_CLUB, TEN_SPADE]),
        CardSet::from(&[QUEEN_DIAMOND, JACK_CLUB, TEN_SPADE]),
    ];

    let actual = combinations(set, 3);
    assert_eq!(actual, expected);
}
