use poker_odds::cards::card::{Card, Rank, Suit};
use poker_odds::cards::rank_counter::RankCounts;

const THREE_CLUB: Card = Card { rank: Rank::Three, suit: Suit::Club };
const SIX_CLUB: Card = Card { rank: Rank::Six, suit: Suit::Club };
const THREE_DIAMOND: Card = Card { rank: Rank::Three, suit: Suit::Diamond };
const SIX_DIAMOND: Card = Card { rank: Rank::Six, suit: Suit::Diamond };
const THREE_HEART: Card = Card { rank: Rank::Three, suit: Suit::Heart };
const SIX_HEART: Card = Card { rank: Rank::Six, suit: Suit::Heart };
const SIX_SPADE: Card = Card { rank: Rank::Six, suit: Suit::Spade };

#[test]
fn test_rank_counter_quads_and_triple() {
    let counter = RankCounts::make(&[
        SIX_CLUB,
        SIX_DIAMOND,
        SIX_HEART,
        SIX_SPADE,
        THREE_CLUB,
        THREE_HEART,
        THREE_DIAMOND,
    ]);

    assert_eq!(counter.four, Some(Rank::Six));
    assert_eq!(counter.three, Some(Rank::Three));
    assert_eq!(counter.pairs_len, 0);
    assert_eq!(counter.kickers_len, 0);
}
