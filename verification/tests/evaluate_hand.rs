use poker_odds::analysis::evaluate_hand::HandEvaluation::{
    Flush, FourOfAKind, FullHouse, HighCard, Pair, StraightFlush, Straight, ThreeOfAKind, TwoPair,
};
use poker_odds::analysis::evaluate_hand::{HandEvaluation, PreflopEvaluation};
use poker_odds::cards::card::{Card, Rank, Suit};
use poker_odds::cards::cardset::CardSet;

const TWO_CLUB: Card = Card { rank: Rank::Two, suit: Suit::Club };
const THREE_CLUB: Card = Card { rank: Rank::Three, suit: Suit::Club };
const FOUR_CLUB: Card = Card { rank: Rank::Four, suit: Suit::Club };
const FIVE_CLUB: Card = Card { rank: Rank::Five, suit: Suit::Club };
const SIX_CLUB: Card = Card { rank: Rank::Six, suit: Suit::Club };
const SEVEN_CLUB: Card = Card { rank: Rank::Seven, suit: Suit::Club };
const EIGHT_CLUB: Card = Card { rank: Rank::Eight, suit: Suit::Club };
const NINE_CLUB: Card = Card { rank: Rank::Nine, suit: Suit::Club };
const TEN_CLUB: Card = Card { rank: Rank::Ten, suit: Suit::Club };
const JACK_CLUB: Card = Card { rank: Rank::Jack, suit: Suit::Club };
const QUEEN_CLUB: Card = Card { rank: Rank::Queen, suit: Suit::Club };
const KING_CLUB: Card = Card { rank: Rank::King, suit: Suit::Club };
const ACE_CLUB: Card = Card { rank: Rank::Ace, suit: Suit::Club };
const TWO_DIAMOND: Card = Card { rank: Rank::Two, suit: Suit::Diamond };
const THREE_DIAMOND: Card = Card { rank: Rank::Three, suit: Suit::Diamond };
const FOUR_DIAMOND: Card = Card { rank: Rank::Four, suit: Suit::Diamond };
const FIVE_DIAMOND: Card = Card { rank: Rank::Five, suit: Suit::Diamond };
const SIX_DIAMOND: Card = Card { rank: Rank::Six, suit: Suit::Diamond };
const SEVEN_DIAMOND: Card = Card { rank: Rank::Seven, suit: Suit::Diamond };
const EIGHT_DIAMOND: Card = Card { rank: Rank::Eight, suit: Suit::Diamond };
const NINE_DIAMOND: Card = Card { rank: Rank::Nine, suit: Suit::Diamond };
const TEN_DIAMOND: Card = Card { rank: Rank::Ten, suit: Suit::Diamond };
const JACK_DIAMOND: Card = Card { rank: Rank::Jack, suit: Suit::Diamond };
const QUEEN_DIAMOND: Card = Card { rank: Rank::Queen, suit: Suit::Diamond };
const KING_DIAMOND: Card = Card { rank: Rank::King, suit: Suit::Diamond };
const ACE_DIAMOND: Card = Card { rank: Rank::Ace, suit: Suit::Diamond };
const TWO_HEART: Card = Card { rank: Rank::Two, suit: Suit::Heart };
const FIVE_HEART: Card = Card { rank: Rank::Five, suit: Suit::Heart };
const SIX_HEART: Card = Card { rank: Rank::Six, suit: Suit::Heart };
const SEVEN_HEART: Card = Card { rank: Rank::Seven, suit: Suit::Heart };
const EIGHT_HEART: Card = Card { rank: Rank::Eight, suit: Suit::Heart };
const NINE_HEART: Card = Card { rank: Rank::Nine, suit: Suit::Heart };
const TEN_HEART: Card = Card { rank: Rank::Ten, suit: Suit::Heart };
const JACK_HEART: Card = Card { rank: Rank::Jack, suit: Suit::Heart };
const QUEEN_HEART: Card = Card { rank: Rank::Queen, suit: Suit::Heart };
const KING_HEART: Card = Card { rank: Rank::King, suit: Suit::Heart };
const ACE_HEART: Card = Card { rank: Rank::Ace, suit: Suit::Heart };
const TWO_SPADE: Card = Card { rank: Rank::Two, suit: Suit::Spade };
const THREE_SPADE: Card = Card { rank: Rank::Three, suit: Suit::Spade };
const FOUR_SPADE: Card = Card { rank: Rank::Four, suit: Suit::Spade };
const FIVE_SPADE: Card = Card { rank: Rank::Five, suit: Suit::Spade };
const SIX_SPADE: Card = Card { rank: Rank::Six, suit: Suit::Spade };
const SEVEN_SPADE: Card = Card { rank: Rank::Seven, suit: Suit::Spade };
const EIGHT_SPADE: Card = Card { rank: Rank::Eight, suit: Suit::Spade };
const NINE_SPADE: Card = Card { rank: Rank::Nine, suit: Suit::Spade };
const TEN_SPADE: Card = Card { rank: Rank::Ten, suit: Suit::Spade };
const JACK_SPADE: Card = Card { rank: Rank::Jack, suit: Suit::Spade };
const QUEEN_SPADE: Card = Card { rank: Rank::Queen, suit: Suit::Spade };
const KING_SPADE: Card = Card { rank: Rank::King, suit: Suit::Spade };
const ACE_SPADE: Card = Card { rank: Rank::Ace, suit: Suit::Spade };

fn test_eval<const LENGTH: usize>(arr: [Card; LENGTH]) -> HandEvaluation {
    assert!(LENGTH >= 5 && LENGTH <= 7);
    HandEvaluation::evaluate_postflop(CardSet::from(&arr))
        .expect("evaluate_postflop() returned None")
}

fn test_preflop(arr: [Card; 2]) -> PreflopEvaluation {
    PreflopEvaluation::evaluate(CardSet::from(&arr)).expect("evaluate() returned None")
}

#[test]
fn evaluate_hand_test_evaluate_hand_straight_flush_normal() {
    let hand = test_eval([
        EIGHT_SPADE,
        NINE_SPADE,
        SEVEN_SPADE,
        JACK_DIAMOND,
        TEN_SPADE,
        SIX_SPADE,
        ACE_HEART,
    ]);

    assert_eq!(
        hand,
        StraightFlush {
            highest_rank: Rank::Ten
        }
    );
}

#[test]
fn evaluate_hand_test_evaluate_hand_straight_flush_six_matching() {
    let hand = test_eval([
        EIGHT_SPADE,
        NINE_SPADE,
        SEVEN_SPADE,
        JACK_SPADE,
        TEN_SPADE,
        SIX_SPADE,
        ACE_SPADE,
    ]);

    assert_eq!(
        hand,
        StraightFlush {
            highest_rank: Rank::Jack
        }
    );
}

#[test]
fn evaluate_hand_test_evaluate_hand_straight_flush_seven_matching() {
    let hand = test_eval([
        EIGHT_SPADE,
        NINE_SPADE,
        SEVEN_SPADE,
        JACK_SPADE,
        TEN_SPADE,
        SIX_SPADE,
        FIVE_SPADE,
    ]);

    assert_eq!(
        hand,
        StraightFlush {
            highest_rank: Rank::Jack
        }
    );
}

#[test]
fn evaluate_hand_test_evaluate_hand_straight_flush_hearts() {
    let hand = test_eval([
        EIGHT_HEART,
        NINE_HEART,
        SEVEN_HEART,
        JACK_HEART,
        TEN_HEART,
        SIX_HEART,
        FIVE_HEART,
    ]);

    assert_eq!(
        hand,
        StraightFlush {
            highest_rank: Rank::Jack
        }
    );
}

#[test]
fn evaluate_hand_test_evaluate_hand_straight_flush_beats_trips() {
    let hand = test_eval([
        EIGHT_SPADE,
        NINE_SPADE,
        SEVEN_SPADE,
        EIGHT_DIAMOND,
        TEN_SPADE,
        SIX_SPADE,
        EIGHT_HEART,
    ]);

    assert_eq!(
        hand,
        StraightFlush {
            highest_rank: Rank::Ten
        }
    );
}

#[test]
fn evaluate_hand_test_evaluate_hand_straight_flush_a2345() {
    let hand = test_eval([
        ACE_SPADE,
        TWO_SPADE,
        THREE_SPADE,
        FOUR_SPADE,
        FIVE_SPADE,
        NINE_HEART,
        EIGHT_HEART,
    ]);

    assert_eq!(
        hand,
        StraightFlush {
            highest_rank: Rank::Five
        }
    );
}

#[test]
fn evaluate_hand_test_evaluate_hand_four_of_a_kind_normal() {
    let hand = test_eval([
        TEN_HEART,
        TEN_SPADE,
        SEVEN_HEART,
        JACK_HEART,
        TEN_CLUB,
        TEN_DIAMOND,
        ACE_HEART,
    ]);

    assert_eq!(
        hand,
        FourOfAKind {
            rank: Rank::Ten,
            kicker: Rank::Ace
        }
    );
}

#[test]
fn evaluate_hand_test_evaluate_hand_four_of_a_kind_with_pair_and_higher_kicker() {
    let hand = test_eval([
        TEN_HEART,
        TEN_SPADE,
        TEN_CLUB,
        TEN_DIAMOND,
        SEVEN_HEART,
        SEVEN_CLUB,
        ACE_HEART,
    ]);

    assert_eq!(
        hand,
        FourOfAKind {
            rank: Rank::Ten,
            kicker: Rank::Ace
        }
    );
}

#[test]
fn evaluate_hand_test_evaluate_hand_four_of_a_kind_with_pair_and_lower_kicker() {
    let hand = test_eval([
        TEN_HEART,
        TEN_SPADE,
        TEN_CLUB,
        TEN_DIAMOND,
        SEVEN_HEART,
        SEVEN_CLUB,
        FIVE_HEART,
    ]);

    assert_eq!(
        hand,
        FourOfAKind {
            rank: Rank::Ten,
            kicker: Rank::Seven
        }
    );
}

#[test]
fn evaluate_hand_test_evaluate_hand_four_of_a_kind_with_pair_and_trips() {
    let hand = test_eval([
        TEN_HEART,
        TEN_SPADE,
        TEN_CLUB,
        TEN_DIAMOND,
        SEVEN_HEART,
        SEVEN_CLUB,
        SEVEN_SPADE,
    ]);

    assert_eq!(
        hand,
        FourOfAKind {
            rank: Rank::Ten,
            kicker: Rank::Seven
        }
    );
}

#[test]
fn evaluate_hand_test_evaluate_hand_boat_normal() {
    let hand = test_eval([
        TEN_HEART,
        TEN_SPADE,
        TEN_CLUB,
        SEVEN_HEART,
        SEVEN_CLUB,
        KING_SPADE,
        QUEEN_SPADE,
    ]);

    assert_eq!(
        hand,
        FullHouse {
            triple: Rank::Ten,
            pair: Rank::Seven
        }
    );
}

#[test]
fn evaluate_hand_test_evaluate_hand_boat_two_pairs() {
    let hand = test_eval([
        TEN_HEART,
        TEN_SPADE,
        TEN_CLUB,
        SEVEN_HEART,
        SEVEN_CLUB,
        KING_SPADE,
        KING_HEART,
    ]);

    assert_eq!(
        hand,
        FullHouse {
            triple: Rank::Ten,
            pair: Rank::King
        }
    );
}

#[test]
fn evaluate_hand_test_evaluate_hand_boat_two_trips() {
    let hand = test_eval([
        TEN_HEART,
        TEN_SPADE,
        TEN_CLUB,
        SEVEN_HEART,
        SEVEN_CLUB,
        SEVEN_SPADE,
        KING_HEART,
    ]);

    assert_eq!(
        hand,
        FullHouse {
            triple: Rank::Ten,
            pair: Rank::Seven
        }
    );
}

#[test]
fn evaluate_hand_test_evaluate_hand_flush_normal() {
    let hand = test_eval([
        EIGHT_CLUB,
        NINE_CLUB,
        KING_CLUB,
        TWO_CLUB,
        ACE_SPADE,
        TEN_HEART,
        FOUR_CLUB,
    ]);

    assert_eq!(
        hand,
        Flush {
            ranks_sorted_desc: [Rank::King, Rank::Nine, Rank::Eight, Rank::Four, Rank::Two],
        }
    );
}

#[test]
fn evaluate_hand_test_evaluate_hand_flush_six_matching() {
    let hand = test_eval([
        EIGHT_CLUB,
        NINE_CLUB,
        KING_CLUB,
        TWO_CLUB,
        ACE_CLUB,
        TEN_HEART,
        FOUR_CLUB,
    ]);

    assert_eq!(
        hand,
        Flush {
            ranks_sorted_desc: [Rank::Ace, Rank::King, Rank::Nine, Rank::Eight, Rank::Four],
        }
    );
}

#[test]
fn evaluate_hand_test_evaluate_hand_flush_seven_matching() {
    let hand = test_eval([
        EIGHT_CLUB,
        NINE_CLUB,
        KING_CLUB,
        TWO_CLUB,
        ACE_CLUB,
        TEN_CLUB,
        FOUR_CLUB,
    ]);

    assert_eq!(
        hand,
        Flush {
            ranks_sorted_desc: [Rank::Ace, Rank::King, Rank::Ten, Rank::Nine, Rank::Eight],
        }
    );
}

#[test]
fn evaluate_hand_test_evaluate_hand_flush_beats_straight() {
    let hand = test_eval([
        EIGHT_CLUB,
        NINE_CLUB,
        KING_CLUB,
        SEVEN_HEART,
        TEN_CLUB,
        JACK_DIAMOND,
        FOUR_CLUB,
    ]);

    assert_eq!(
        hand,
        Flush {
            ranks_sorted_desc: [Rank::King, Rank::Ten, Rank::Nine, Rank::Eight, Rank::Four],
        }
    );
}

#[test]
fn evaluate_hand_test_evaluate_hand_flush_beats_trips() {
    let hand = test_eval([
        EIGHT_CLUB,
        NINE_CLUB,
        KING_CLUB,
        EIGHT_HEART,
        TEN_CLUB,
        EIGHT_SPADE,
        FOUR_CLUB,
    ]);

    assert_eq!(
        hand,
        Flush {
            ranks_sorted_desc: [Rank::King, Rank::Ten, Rank::Nine, Rank::Eight, Rank::Four],
        }
    );
}

#[test]
fn evaluate_hand_test_evaluate_hand_flush_beats_two_pair() {
    let hand = test_eval([
        EIGHT_CLUB,
        NINE_CLUB,
        KING_CLUB,
        EIGHT_HEART,
        TEN_CLUB,
        NINE_SPADE,
        FOUR_CLUB,
    ]);

    assert_eq!(
        hand,
        Flush {
            ranks_sorted_desc: [Rank::King, Rank::Ten, Rank::Nine, Rank::Eight, Rank::Four],
        }
    );
}

#[test]
fn evaluate_hand_test_evaluate_hand_straight_normal() {
    let hand = test_eval([
        EIGHT_CLUB,
        NINE_CLUB,
        SEVEN_DIAMOND,
        TEN_HEART,
        ACE_SPADE,
        TWO_CLUB,
        JACK_CLUB,
    ]);

    assert_eq!(
        hand,
        Straight {
            highest_rank: Rank::Jack,
        }
    );
}

#[test]
fn evaluate_hand_test_evaluate_hand_straight_six() {
    let hand = test_eval([
        EIGHT_CLUB,
        NINE_CLUB,
        SEVEN_DIAMOND,
        TEN_HEART,
        ACE_SPADE,
        SIX_CLUB,
        JACK_CLUB,
    ]);

    assert_eq!(
        hand,
        Straight {
            highest_rank: Rank::Jack,
        }
    );
}

#[test]
fn evaluate_hand_test_evaluate_hand_straight_seven() {
    let hand = test_eval([
        EIGHT_CLUB,
        NINE_CLUB,
        SEVEN_DIAMOND,
        TEN_HEART,
        QUEEN_SPADE,
        SIX_CLUB,
        JACK_CLUB,
    ]);

    assert_eq!(
        hand,
        Straight {
            highest_rank: Rank::Queen,
        }
    );
}

#[test]
fn evaluate_hand_test_evaluate_hand_straight_beats_trips() {
    let hand = test_eval([
        EIGHT_CLUB,
        NINE_CLUB,
        SEVEN_DIAMOND,
        TEN_HEART,
        EIGHT_SPADE,
        EIGHT_DIAMOND,
        JACK_CLUB,
    ]);

    assert_eq!(
        hand,
        Straight {
            highest_rank: Rank::Jack,
        }
    );
}

#[test]
fn evaluate_hand_test_evaluate_hand_straight_beats_two_pair() {
    let hand = test_eval([
        EIGHT_CLUB,
        NINE_CLUB,
        SEVEN_DIAMOND,
        TEN_HEART,
        EIGHT_SPADE,
        NINE_DIAMOND,
        JACK_CLUB,
    ]);

    assert_eq!(
        hand,
        Straight {
            highest_rank: Rank::Jack,
        }
    );
}

#[test]
fn evaluate_hand_test_evaluate_hand_straight_a2345() {
    let hand = test_eval([
        ACE_SPADE,
        TWO_HEART,
        THREE_CLUB,
        FOUR_DIAMOND,
        FIVE_SPADE,
        NINE_HEART,
        EIGHT_HEART,
    ]);

    assert_eq!(
        hand,
        Straight {
            highest_rank: Rank::Five
        }
    );
}

#[test]
fn evaluate_hand_test_evaluate_hand_trips_normal() {
    let hand = test_eval([
        EIGHT_CLUB,
        EIGHT_SPADE,
        SEVEN_DIAMOND,
        TWO_HEART,
        EIGHT_HEART,
        FOUR_DIAMOND,
        JACK_CLUB,
    ]);

    assert_eq!(
        hand,
        ThreeOfAKind {
            rank: Rank::Eight,
            kickers_sorted_desc: [Rank::Jack, Rank::Seven]
        }
    );
}

#[test]
fn evaluate_hand_test_evaluate_hand_two_pair_normal() {
    let hand = test_eval([
        EIGHT_CLUB,
        EIGHT_SPADE,
        JACK_DIAMOND,
        JACK_HEART,
        FIVE_HEART,
        KING_CLUB,
        ACE_CLUB,
    ]);

    assert_eq!(
        hand,
        TwoPair {
            higher_rank: Rank::Jack,
            lower_rank: Rank::Eight,
            kicker: Rank::Ace,
        }
    );
}

#[test]
fn evaluate_hand_test_evaluate_hand_two_pair_three_pairs_higher_kicker() {
    let hand = test_eval([
        EIGHT_CLUB,
        EIGHT_SPADE,
        JACK_DIAMOND,
        JACK_HEART,
        FIVE_HEART,
        FIVE_CLUB,
        ACE_CLUB,
    ]);

    assert_eq!(
        hand,
        TwoPair {
            higher_rank: Rank::Jack,
            lower_rank: Rank::Eight,
            kicker: Rank::Ace,
        }
    );
}

#[test]
fn evaluate_hand_test_evaluate_hand_two_pair_three_pairs_lower_kicker() {
    let hand = test_eval([
        EIGHT_CLUB,
        EIGHT_SPADE,
        JACK_DIAMOND,
        JACK_HEART,
        FIVE_HEART,
        FIVE_CLUB,
        TWO_CLUB,
    ]);

    assert_eq!(
        hand,
        TwoPair {
            higher_rank: Rank::Jack,
            lower_rank: Rank::Eight,
            kicker: Rank::Five,
        }
    );
}

#[test]
fn evaluate_hand_test_evaluate_hand_two_pair_all_kickers_lower() {
    let hand = test_eval([
        EIGHT_CLUB,
        EIGHT_SPADE,
        JACK_DIAMOND,
        JACK_HEART,
        FIVE_HEART,
        FOUR_CLUB,
        TWO_CLUB,
    ]);

    assert_eq!(
        hand,
        TwoPair {
            higher_rank: Rank::Jack,
            lower_rank: Rank::Eight,
            kicker: Rank::Five,
        }
    );
}

#[test]
fn evaluate_hand_test_evaluate_hand_two_pair_not_pocket_pair() {
    let hand = test_eval([
        JACK_CLUB,
        EIGHT_SPADE,
        JACK_DIAMOND,
        EIGHT_HEART,
        FIVE_HEART,
        FOUR_CLUB,
        TWO_CLUB,
    ]);

    assert_eq!(
        hand,
        TwoPair {
            higher_rank: Rank::Jack,
            lower_rank: Rank::Eight,
            kicker: Rank::Five,
        }
    );
}

#[test]
fn evaluate_hand_test_evaluate_hand_pair_normal() {
    let hand = test_eval([
        JACK_CLUB,
        EIGHT_SPADE,
        JACK_DIAMOND,
        ACE_HEART,
        FIVE_HEART,
        FOUR_CLUB,
        TWO_CLUB,
    ]);

    assert_eq!(
        hand,
        Pair {
            rank: Rank::Jack,
            kickers_sorted_desc: [Rank::Ace, Rank::Eight, Rank::Five],
        }
    );
}

#[test]
fn evaluate_hand_test_evaluate_hand_pair_higher_kickers() {
    let hand = test_eval([
        FIVE_CLUB,
        EIGHT_SPADE,
        FIVE_DIAMOND,
        ACE_HEART,
        KING_HEART,
        QUEEN_CLUB,
        JACK_CLUB,
    ]);

    assert_eq!(
        hand,
        Pair {
            rank: Rank::Five,
            kickers_sorted_desc: [Rank::Ace, Rank::King, Rank::Queen],
        }
    );
}

#[test]
fn evaluate_hand_test_evaluate_hand_pair_lower_kickers() {
    let hand = test_eval([
        ACE_CLUB,
        ACE_SPADE,
        QUEEN_CLUB,
        JACK_CLUB,
        TEN_DIAMOND,
        FIVE_DIAMOND,
        THREE_DIAMOND,
    ]);

    assert_eq!(
        hand,
        Pair {
            rank: Rank::Ace,
            kickers_sorted_desc: [Rank::Queen, Rank::Jack, Rank::Ten],
        }
    );
}

#[test]
fn evaluate_hand_test_evaluate_hand_high_card() {
    let hand = test_eval([
        KING_CLUB,
        QUEEN_CLUB,
        JACK_DIAMOND,
        FIVE_HEART,
        EIGHT_CLUB,
        NINE_HEART,
        THREE_DIAMOND,
    ]);

    assert_eq!(
        hand,
        HighCard {
            rank: Rank::King,
            kickers_sorted_desc: [Rank::Queen, Rank::Jack, Rank::Nine, Rank::Eight],
        }
    );
}

#[test]
fn evaluate_hand_test_evaluate_hand_high_card_one_card_from_pocket() {
    let hand = test_eval([
        KING_CLUB,
        TWO_CLUB,
        JACK_DIAMOND,
        FIVE_HEART,
        EIGHT_CLUB,
        NINE_HEART,
        THREE_DIAMOND,
    ]);

    assert_eq!(
        hand,
        HighCard {
            rank: Rank::King,
            kickers_sorted_desc: [Rank::Jack, Rank::Nine, Rank::Eight, Rank::Five],
        }
    );
}

#[test]
fn evaluate_hand_test_evaluate_hand_high_card_nothing_from_pocket() {
    let hand = test_eval([
        THREE_CLUB,
        TWO_CLUB,
        JACK_DIAMOND,
        FIVE_HEART,
        EIGHT_CLUB,
        NINE_HEART,
        KING_DIAMOND,
    ]);

    assert_eq!(
        hand,
        HighCard {
            rank: Rank::King,
            kickers_sorted_desc: [Rank::Jack, Rank::Nine, Rank::Eight, Rank::Five],
        }
    );
}

#[test]
fn evaluate_hand_test_hand_cmp_straight_flush_vs_other() {
    let h1 = StraightFlush {
        highest_rank: Rank::Jack,
    };
    let h2 = FourOfAKind {
        rank: Rank::Ace,
        kicker: Rank::King,
    };

    assert!(h1 > h2);
}

#[test]
fn evaluate_hand_test_hand_cmp_three_of_a_kind() {
    let h1 = ThreeOfAKind {
        rank: Rank::King,
        kickers_sorted_desc: [Rank::Ace, Rank::Queen],
    };
    let h2 = ThreeOfAKind {
        rank: Rank::Ace,
        kickers_sorted_desc: [Rank::King, Rank::Queen],
    };

    assert!(h1 < h2);
}

#[test]
fn evaluate_hand_test_hand_cmp_three_of_a_kind_first_kicker() {
    let h1 = ThreeOfAKind {
        rank: Rank::King,
        kickers_sorted_desc: [Rank::Ace, Rank::Ten],
    };
    let h2 = ThreeOfAKind {
        rank: Rank::King,
        kickers_sorted_desc: [Rank::Queen, Rank::Ten],
    };

    assert!(h1 > h2);
}

#[test]
fn evaluate_hand_test_hand_cmp_three_of_a_kind_second_kicker() {
    let h1 = ThreeOfAKind {
        rank: Rank::King,
        kickers_sorted_desc: [Rank::Ace, Rank::Jack],
    };
    let h2 = ThreeOfAKind {
        rank: Rank::King,
        kickers_sorted_desc: [Rank::Ace, Rank::Ten],
    };

    assert!(h1 > h2);
}

#[test]
fn evaluate_hand_test_hand_cmp_three_of_a_kind_equal() {
    let h1 = ThreeOfAKind {
        rank: Rank::King,
        kickers_sorted_desc: [Rank::Ace, Rank::Jack],
    };
    let h2 = ThreeOfAKind {
        rank: Rank::King,
        kickers_sorted_desc: [Rank::Ace, Rank::Jack],
    };

    assert!(h1 == h2);
}

#[test]
fn test_evaluate_hand_flop_straight_flush() {
    let hand = test_eval([
        JACK_DIAMOND,
        KING_DIAMOND,
        QUEEN_DIAMOND,
        TEN_DIAMOND,
        ACE_DIAMOND,
    ]);

    assert_eq!(
        hand,
        StraightFlush {
            highest_rank: Rank::Ace
        }
    );
}

#[test]
fn test_evaluate_hand_flop_quads() {
    let hand = test_eval([
        JACK_DIAMOND,
        JACK_CLUB,
        QUEEN_DIAMOND,
        JACK_HEART,
        JACK_SPADE,
    ]);

    assert_eq!(
        hand,
        FourOfAKind {
            rank: Rank::Jack,
            kicker: Rank::Queen
        }
    );
}

#[test]
fn test_evaluate_hand_flop_boat() {
    let hand = test_eval([
        JACK_DIAMOND,
        JACK_CLUB,
        QUEEN_DIAMOND,
        QUEEN_HEART,
        JACK_SPADE,
    ]);

    assert_eq!(
        hand,
        FullHouse {
            triple: Rank::Jack,
            pair: Rank::Queen
        }
    );
}

#[test]
fn test_evaluate_hand_flop_flush() {
    let hand = test_eval([
        JACK_DIAMOND,
        KING_DIAMOND,
        TWO_DIAMOND,
        TEN_DIAMOND,
        SEVEN_DIAMOND,
    ]);

    assert_eq!(
        hand,
        Flush {
            ranks_sorted_desc: [Rank::King, Rank::Jack, Rank::Ten, Rank::Seven, Rank::Two]
        }
    );
}

#[test]
fn test_evaluate_hand_flop_straight() {
    let hand = test_eval([
        JACK_DIAMOND,
        KING_CLUB,
        QUEEN_DIAMOND,
        TEN_SPADE,
        ACE_DIAMOND,
    ]);

    assert_eq!(
        hand,
        Straight {
            highest_rank: Rank::Ace
        }
    );
}

#[test]
fn test_evaluate_hand_flop_trips() {
    let hand = test_eval([
        JACK_DIAMOND,
        JACK_CLUB,
        SIX_DIAMOND,
        ACE_HEART,
        JACK_SPADE,
    ]);

    assert_eq!(
        hand,
        ThreeOfAKind {
            rank: Rank::Jack,
            kickers_sorted_desc: [Rank::Ace, Rank::Six],
        }
    );
}

#[test]
fn test_evaluate_hand_flop_two_pair() {
    let hand = test_eval([
        SIX_DIAMOND,
        SIX_CLUB,
        SEVEN_DIAMOND,
        NINE_HEART,
        NINE_SPADE,
    ]);

    assert_eq!(
        hand,
        TwoPair {
            higher_rank: Rank::Nine,
            lower_rank: Rank::Six,
            kicker: Rank::Seven,
        }
    );
}

#[test]
fn test_evaluate_hand_flop_pair() {
    let hand = test_eval([
        SIX_DIAMOND,
        SIX_CLUB,
        TWO_DIAMOND,
        NINE_HEART,
        ACE_SPADE,
    ]);

    assert_eq!(
        hand,
        Pair {
            rank: Rank::Six,
            kickers_sorted_desc: [Rank::Ace, Rank::Nine, Rank::Two],
        }
    );
}

#[test]
fn test_evaluate_hand_flop_high_card() {
    let hand = test_eval([
        SIX_DIAMOND,
        TWO_DIAMOND,
        NINE_HEART,
        ACE_SPADE,
        QUEEN_CLUB,
    ]);

    assert_eq!(
        hand,
        HighCard {
            rank: Rank::Ace,
            kickers_sorted_desc: [Rank::Queen, Rank::Nine, Rank::Six, Rank::Two],
        }
    );
}

#[test]
fn test_evaluate_hand_turn_straight_flush() {
    let hand = test_eval([
        JACK_DIAMOND,
        KING_DIAMOND,
        TWO_CLUB,
        QUEEN_DIAMOND,
        TEN_DIAMOND,
        ACE_DIAMOND,
    ]);

    assert_eq!(
        hand,
        StraightFlush {
            highest_rank: Rank::Ace
        }
    );
}

#[test]
fn test_evaluate_hand_turn_quads() {
    let hand = test_eval([
        JACK_DIAMOND,
        JACK_CLUB,
        TWO_CLUB,
        QUEEN_DIAMOND,
        JACK_HEART,
        JACK_SPADE,
    ]);

    assert_eq!(
        hand,
        FourOfAKind {
            rank: Rank::Jack,
            kicker: Rank::Queen
        }
    );
}

#[test]
fn test_evaluate_hand_turn_boat() {
    let hand = test_eval([
        JACK_DIAMOND,
        JACK_CLUB,
        TWO_CLUB,
        QUEEN_DIAMOND,
        QUEEN_HEART,
        JACK_SPADE,
    ]);

    assert_eq!(
        hand,
        FullHouse {
            triple: Rank::Jack,
            pair: Rank::Queen
        }
    );
}

#[test]
fn test_evaluate_hand_turn_flush() {
    let hand = test_eval([
        JACK_DIAMOND,
        KING_DIAMOND,
        THREE_CLUB,
        TWO_DIAMOND,
        TEN_DIAMOND,
        SEVEN_DIAMOND,
    ]);

    assert_eq!(
        hand,
        Flush {
            ranks_sorted_desc: [Rank::King, Rank::Jack, Rank::Ten, Rank::Seven, Rank::Two]
        }
    );
}

#[test]
fn test_evaluate_hand_turn_straight() {
    let hand = test_eval([
        JACK_DIAMOND,
        KING_CLUB,
        QUEEN_DIAMOND,
        TEN_SPADE,
        THREE_CLUB,
        ACE_DIAMOND,
    ]);

    assert_eq!(
        hand,
        Straight {
            highest_rank: Rank::Ace
        }
    );
}

#[test]
fn test_evaluate_hand_turn_trips() {
    let hand = test_eval([
        JACK_DIAMOND,
        JACK_CLUB,
        TWO_CLUB,
        SIX_DIAMOND,
        ACE_HEART,
        JACK_SPADE,
    ]);

    assert_eq!(
        hand,
        ThreeOfAKind {
            rank: Rank::Jack,
            kickers_sorted_desc: [Rank::Ace, Rank::Six],
        }
    );
}

#[test]
fn test_evaluate_hand_turn_two_pair() {
    let hand = test_eval([
        SIX_DIAMOND,
        SIX_CLUB,
        TWO_CLUB,
        SEVEN_DIAMOND,
        NINE_HEART,
        NINE_SPADE,
    ]);

    assert_eq!(
        hand,
        TwoPair {
            higher_rank: Rank::Nine,
            lower_rank: Rank::Six,
            kicker: Rank::Seven,
        }
    );
}

#[test]
fn test_evaluate_hand_turn_pair() {
    let hand = test_eval([
        SIX_DIAMOND,
        SIX_CLUB,
        THREE_DIAMOND,
        TWO_DIAMOND,
        NINE_HEART,
        ACE_SPADE,
    ]);

    assert_eq!(
        hand,
        Pair {
            rank: Rank::Six,
            kickers_sorted_desc: [Rank::Ace, Rank::Nine, Rank::Three],
        }
    );
}

#[test]
fn test_evaluate_hand_turn_high_card() {
    let hand = test_eval([
        SIX_DIAMOND,
        TWO_DIAMOND,
        THREE_DIAMOND,
        NINE_HEART,
        ACE_SPADE,
        QUEEN_CLUB,
    ]);

    assert_eq!(
        hand,
        HighCard {
            rank: Rank::Ace,
            kickers_sorted_desc: [Rank::Queen, Rank::Nine, Rank::Six, Rank::Three],
        }
    );
}

#[test]
fn test_evaluate_preflop_pocket_pair() {
    let eval = test_preflop([KING_CLUB, KING_SPADE]);

    assert_eq!(eval, PreflopEvaluation::PocketPair { rank: Rank::King });
}

#[test]
fn test_evaluate_preflop_not_pocket_pair() {
    let eval = test_preflop([ACE_CLUB, KING_SPADE]);

    assert_eq!(
        eval,
        PreflopEvaluation::HighCard {
            higher_rank: Rank::Ace,
            lower_rank: Rank::King
        }
    );
}
