use poker_odds::analysis::outcomes::{ArrayOutcome, Outcome};
use poker_odds::cards::card::{Card, Rank, Suit};
use poker_odds::cards::cardset::CardSet;

const TWO_CLUB: Card = Card { rank: Rank::Two, suit: Suit::Club };
const SEVEN_CLUB: Card = Card { rank: Rank::Seven, suit: Suit::Club };
const NINE_CLUB: Card = Card { rank: Rank::Nine, suit: Suit::Club };
const TEN_CLUB: Card = Card { rank: Rank::Ten, suit: Suit::Club };
const JACK_CLUB: Card = Card { rank: Rank::Jack, suit: Suit::Club };
const THREE_DIAMOND: Card = Card { rank: Rank::Three, suit: Suit::Diamond };
const FIVE_DIAMOND: Card = Card { rank: Rank::Five, suit: Suit::Diamond };
const SIX_DIAMOND: Card = Card { rank: Rank::Six, suit: Suit::Diamond };
const SEVEN_DIAMOND: Card = Card { rank: Rank::Seven, suit: Suit::Diamond };
const EIGHT_DIAMOND: Card = Card { rank: Rank::Eight, suit: Suit::Diamond };
const TEN_DIAMOND: Card = Card { rank: Rank::Ten, suit: Suit::Diamond };
const JACK_DIAMOND: Card = Card { rank: Rank::Jack, suit: Suit::Diamond };
const QUEEN_DIAMOND: Card = Card { rank: Rank::Queen, suit: Suit::Diamond };
const KING_DIAMOND: Card = Card { rank: Rank::King, suit: Suit::Diamond };
const ACE_DIAMOND: Card = Card { rank: Rank::Ace, suit: Suit::Diamond };
const THREE_HEART: Card = Card { rank: Rank::Three, suit: Suit::Heart };
const FIVE_HEART: Card = Card { rank: Rank::Five, suit: Suit::Heart };
const EIGHT_HEART: Card = Card { rank: Rank::Eight, suit: Suit::Heart };
const JACK_HEART: Card = Card { rank: Rank::Jack, suit: Suit::Heart };
const QUEEN_HEART: Card = Card { rank: Rank::Queen, suit: Suit::Heart };
const KING_HEART: Card = Card { rank: Rank::King, suit: Suit::Heart };
const ACE_HEART: Card = Card { rank: Rank::Ace, suit: Suit::Heart };
const FOUR_SPADE: Card = Card { rank: Rank::Four, suit: Suit::Spade };
const EIGHT_SPADE: Card = Card { rank: Rank::Eight, suit: Suit::Spade };
const NINE_SPADE: Card = Card { rank: Rank::Nine, suit: Suit::Spade };
const TEN_SPADE: Card = Card { rank: Rank::Ten, suit: Suit::Spade };
const KING_SPADE: Card = Card { rank: Rank::King, suit: Suit::Spade };
const ACE_SPADE: Card = Card { rank: Rank::Ace, suit: Suit::Spade };

#[test]
fn test_outcomes_heads_up() {
    let players = &[
        CardSet::from(&[ACE_SPADE, KING_SPADE]),
        CardSet::from(&[JACK_CLUB, JACK_HEART]),
    ];

    let boards = &[
        // JJ wins
        CardSet::from(&[
            EIGHT_HEART,
            TWO_CLUB,
            NINE_SPADE,
            JACK_DIAMOND,
            QUEEN_HEART,
        ]),
        // AKs wins
        CardSet::from(&[
            EIGHT_HEART,
            TWO_CLUB,
            NINE_SPADE,
            ACE_DIAMOND,
            QUEEN_HEART,
        ]),
        // AKs wins
        CardSet::from(&[
            EIGHT_HEART,
            TWO_CLUB,
            NINE_SPADE,
            KING_DIAMOND,
            QUEEN_HEART,
        ]),
        // both tie
        CardSet::from(&[
            ACE_DIAMOND,
            KING_DIAMOND,
            QUEEN_DIAMOND,
            JACK_DIAMOND,
            TEN_DIAMOND,
        ]),
    ];

    let outcomes = ArrayOutcome::evaluate(players, boards);

    let expected = [
        ArrayOutcome {
            draws_with: [2, 1],
            losses: 1,
        },
        ArrayOutcome {
            draws_with: [1, 1],
            losses: 2,
        },
    ];

    assert_eq!(expected, outcomes);
}

#[test]
fn test_outcomes_three_way() {
    let players = &[
        CardSet::from(&[TEN_CLUB, NINE_CLUB]),
        CardSet::from(&[NINE_SPADE, EIGHT_SPADE]),
        CardSet::from(&[ACE_HEART, KING_HEART]),
    ];

    let boards = &[
        // AKs wins
        CardSet::from(&[
            TWO_CLUB,
            THREE_DIAMOND,
            FOUR_SPADE,
            FIVE_HEART,
            SEVEN_CLUB,
        ]),
        // T9s and 98s tie
        CardSet::from(&[
            EIGHT_DIAMOND,
            TEN_SPADE,
            JACK_DIAMOND,
            SEVEN_DIAMOND,
            ACE_SPADE,
        ]),
        // All tie
        CardSet::from(&[
            ACE_DIAMOND,
            KING_DIAMOND,
            QUEEN_DIAMOND,
            JACK_DIAMOND,
            TEN_DIAMOND,
        ]),
        // 98s wins
        CardSet::from(&[
            FIVE_DIAMOND,
            SIX_DIAMOND,
            SEVEN_DIAMOND,
            TWO_CLUB,
            THREE_HEART,
        ]),
    ];

    let outcomes = ArrayOutcome::evaluate(players, boards);

    let expected = [
        ArrayOutcome {
            draws_with: [0, 1, 1],
            losses: 2,
        },
        ArrayOutcome {
            draws_with: [1, 1, 1],
            losses: 1,
        },
        ArrayOutcome {
            draws_with: [1, 0, 1],
            losses: 2,
        },
    ];

    assert_eq!(expected, outcomes);
}

#[test]
fn test_generic_outcome_from_outcome() {
    let outcome = ArrayOutcome {
        draws_with: [1, 2, 3],
        losses: 69,
    };

    let expected = Outcome {
        draws_with: vec![1, 2, 3],
        losses: 69,
    };

    let actual = Outcome::from(outcome);

    assert_eq!(expected, actual);
}

#[test]
fn test_generic_outcome_heads_up() {
    let players = &[
        CardSet::from(&[ACE_SPADE, KING_SPADE]),
        CardSet::from(&[JACK_CLUB, JACK_HEART]),
    ];

    let boards = &[
        // JJ wins
        CardSet::from(&[
            EIGHT_HEART,
            TWO_CLUB,
            NINE_SPADE,
            JACK_DIAMOND,
            QUEEN_HEART,
        ]),
        // AKs wins
        CardSet::from(&[
            EIGHT_HEART,
            TWO_CLUB,
            NINE_SPADE,
            ACE_DIAMOND,
            QUEEN_HEART,
        ]),
        // AKs wins
        CardSet::from(&[
            EIGHT_HEART,
            TWO_CLUB,
            NINE_SPADE,
            KING_DIAMOND,
            QUEEN_HEART,
        ]),
        // both tie
        CardSet::from(&[
            ACE_DIAMOND,
            KING_DIAMOND,
            QUEEN_DIAMOND,
            JACK_DIAMOND,
            TEN_DIAMOND,
        ]),
    ];

    let outcomes = Outcome::evaluate(players, boards);

    let expected = vec![
        Outcome {
            draws_with: vec![2, 1],
            losses: 1,
        },
        Outcome {
            draws_with: vec![1, 1],
            losses: 2,
        },
    ];

    assert_eq!(expected, outcomes);
}
