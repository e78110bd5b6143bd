use poker_odds::analysis::hand_distribution::HandDistribution;
use poker_odds::cards::card::{Card, Rank, Suit};
use poker_odds::cards::cardset::CardSet;

const TWO_CLUB: Card = Card { rank: Rank::Two, suit: Suit::Club };
const THREE_CLUB: Card = Card { rank: Rank::Three, suit: Suit::Club };
const FOUR_CLUB: Card = Card { rank: Rank::Four, suit: Suit::Club };
const FIVE_CLUB: Card = Card { rank: Rank::Five, suit: Suit::Club };
const SIX_CLUB: Card = Card { rank: Rank::Six, suit: Suit::Club };
const NINE_CLUB: Card = Card { rank: Rank::Nine, suit: Suit::Club };
const KING_CLUB: Card = Card { rank: Rank::King, suit: Suit::Club };
const ACE_CLUB: Card = Card { rank: Rank::Ace, suit: Suit::Club };
const TWO_DIAMOND: Card = Card { rank: Rank::Two, suit: Suit::Diamond };
const THREE_DIAMOND: Card = Card { rank: Rank::Three, suit: Suit::Diamond };
const JACK_DIAMOND: Card = Card { rank: Rank::Jack, suit: Suit::Diamond };
const ACE_DIAMOND: Card = Card { rank: Rank::Ace, suit: Suit::Diamond };
const FOUR_HEART: Card = Card { rank: Rank::Four, suit: Suit::Heart };
const SIX_HEART: Card = Card { rank: Rank::Six, suit: Suit::Heart };
const EIGHT_HEART: Card = Card { rank: Rank::Eight, suit: Suit::Heart };
const NINE_HEART: Card = Card { rank: Rank::Nine, suit: Suit::Heart };
const TEN_HEART: Card = Card { rank: Rank::Ten, suit: Suit::Heart };
const KING_HEART: Card = Card { rank: Rank::King, suit: Suit::Heart };
const ACE_HEART: Card = Card { rank: Rank::Ace, suit: Suit::Heart };
const FIVE_SPADE: Card = Card { rank: Rank::Five, suit: Suit::Spade };
const TEN_SPADE: Card = Card { rank: Rank::Ten, suit: Suit::Spade };
const JACK_SPADE: Card = Card { rank: Rank::Jack, suit: Suit::Spade };
const QUEEN_SPADE: Card = Card { rank: Rank::Queen, suit: Suit::Spade };
const KING_SPADE: Card = Card { rank: Rank::King, suit: Suit::Spade };
const ACE_SPADE: Card = Card { rank: Rank::Ace, suit: Suit::Spade };

#[test]
fn test_hands_distribution() {
    let hands = [
        [
            TWO_CLUB,
            THREE_CLUB,
            FOUR_CLUB,
            FIVE_CLUB,
            SIX_CLUB,
            KING_HEART,
            JACK_DIAMOND,
        ],
        [
            ACE_SPADE,
            KING_SPADE,
            QUEEN_SPADE,
            JACK_SPADE,
            TEN_SPADE,
            KING_HEART,
            JACK_DIAMOND,
        ],
        [
            ACE_SPADE,
            ACE_DIAMOND,
            ACE_CLUB,
            ACE_HEART,
            KING_HEART,
            SIX_HEART,
            NINE_HEART,
        ],
        [
            ACE_SPADE,
            ACE_DIAMOND,
            ACE_CLUB,
            KING_CLUB,
            KING_HEART,
            SIX_HEART,
            NINE_HEART,
        ],
        [
            NINE_CLUB,
            THREE_CLUB,
            ACE_CLUB,
            FIVE_CLUB,
            SIX_CLUB,
            KING_HEART,
            JACK_DIAMOND,
        ],
        [
            TWO_CLUB,
            THREE_DIAMOND,
            FOUR_HEART,
            FIVE_SPADE,
            SIX_CLUB,
            KING_HEART,
            JACK_DIAMOND,
        ],
        [
            ACE_SPADE,
            ACE_DIAMOND,
            ACE_CLUB,
            KING_CLUB,
            EIGHT_HEART,
            SIX_HEART,
            NINE_HEART,
        ],
        [
            ACE_SPADE,
            ACE_DIAMOND,
            KING_CLUB,
            KING_HEART,
            EIGHT_HEART,
            SIX_HEART,
            NINE_HEART,
        ],
        [
            ACE_SPADE,
            ACE_DIAMOND,
            KING_CLUB,
            TEN_HEART,
            EIGHT_HEART,
            SIX_HEART,
            NINE_HEART,
        ],
        [
            ACE_SPADE,
            TWO_DIAMOND,
            KING_CLUB,
            TEN_HEART,
            EIGHT_HEART,
            SIX_HEART,
            NINE_HEART,
        ],
    ]
    .iter()
    .map(|cards| CardSet::from(cards))
    .collect::<Vec<CardSet>>();

    let dist = HandDistribution::evaluate(hands.as_slice());

    // From https://en.wikipedia.org/wiki/Poker_probability#7-card_poker_hands
    assert_eq!(
        dist,
        HandDistribution {
            straight_flushes: 2,
            four_of_a_kinds: 1,
            full_houses: 1,
            flushes: 1,
            straights: 1,
            three_of_a_kinds: 1,
            two_pairs: 1,
            pairs: 1,
            high_cards: 1,
            discarded_hands: 0
        }
    );
}
