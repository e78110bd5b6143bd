use poker_odds::analysis::hand_distribution::HandDistribution;
use poker_odds::analysis::math::SatisfactionFraction;
use poker_odds::analysis::odds::calculate_odds;
use poker_odds::cards::card::{Card, Rank, Suit};
use poker_odds::cards::cardset::CardSet;

const TEN_CLUB: Card = Card { rank: Rank::Ten, suit: Suit::Club };
const JACK_CLUB: Card = Card { rank: Rank::Jack, suit: Suit::Club };
const QUEEN_CLUB: Card = Card { rank: Rank::Queen, suit: Suit::Club };
const SIX_DIAMOND: Card = Card { rank: Rank::Six, suit: Suit::Diamond };
const TEN_DIAMOND: Card = Card { rank: Rank::Ten, suit: Suit::Diamond };
const JACK_DIAMOND: Card = Card { rank: Rank::Jack, suit: Suit::Diamond };
const QUEEN_DIAMOND: Card = Card { rank: Rank::Queen, suit: Suit::Diamond };
const EIGHT_HEART: Card = Card { rank: Rank::Eight, suit: Suit::Heart };
const NINE_HEART: Card = Card { rank: Rank::Nine, suit: Suit::Heart };
const TEN_SPADE: Card = Card { rank: Rank::Ten, suit: Suit::Spade };
const JACK_SPADE: Card = Card { rank: Rank::Jack, suit: Suit::Spade };
const QUEEN_SPADE: Card = Card { rank: Rank::Queen, suit: Suit::Spade };
const KING_SPADE: Card = Card { rank: Rank::King, suit: Suit::Spade };
const ACE_SPADE: Card = Card { rank: Rank::Ace, suit: Suit::Spade };

fn assert_roughly_eq(a: f64, b: f64) {
    assert_eq!(format!("{:.2}", a), format!("{:.2}", b));
}

fn percentage(fraction: SatisfactionFraction) -> f64 {
    100.0 * fraction.satisfying as f64 / fraction.total as f64
}

fn share(count: usize, distribution: &HandDistribution) -> f64 {
    (count * 100) as f64 / distribution.total_num_hands() as f64
}

#[test]
fn test_aks_vs_qq() {
    let aks = CardSet::from(&[ACE_SPADE, KING_SPADE]);
    let qq = CardSet::from(&[QUEEN_CLUB, QUEEN_DIAMOND]);

    let odds = calculate_odds(&[aks, qq], CardSet::new()).unwrap();
    let aks_odds = &odds[0];
    let qq_odds = &odds[1];

    // From https://www.pokernews.com/poker-tools/poker-odds-calculator.htm
    assert_roughly_eq(percentage(aks_odds.outcome.win_ratio()), 46.02);
    assert_roughly_eq(percentage(aks_odds.outcome.draw_ratio()), 0.39);
    assert_roughly_eq(share(aks_odds.hand_distribution.straight_flushes, &aks_odds.hand_distribution), 0.06);
    assert_roughly_eq(share(aks_odds.hand_distribution.four_of_a_kinds, &aks_odds.hand_distribution), 0.14);
    assert_roughly_eq(share(aks_odds.hand_distribution.full_houses, &aks_odds.hand_distribution), 2.44);
    assert_roughly_eq(share(aks_odds.hand_distribution.flushes, &aks_odds.hand_distribution), 7.26);
    assert_roughly_eq(share(aks_odds.hand_distribution.straights, &aks_odds.hand_distribution), 2.14);
    assert_roughly_eq(
        share(aks_odds.hand_distribution.three_of_a_kinds, &aks_odds.hand_distribution),
        4.56,
    );
    assert_roughly_eq(share(aks_odds.hand_distribution.two_pairs, &aks_odds.hand_distribution), 22.93);
    assert_roughly_eq(share(aks_odds.hand_distribution.pairs, &aks_odds.hand_distribution), 43.03);
    assert_roughly_eq(share(aks_odds.hand_distribution.high_cards, &aks_odds.hand_distribution), 17.43);

    assert_roughly_eq(percentage(qq_odds.outcome.win_ratio()), 53.59);
    assert_roughly_eq(percentage(qq_odds.outcome.draw_ratio()), 0.39);
    assert_roughly_eq(share(qq_odds.hand_distribution.straight_flushes, &qq_odds.hand_distribution), 0.02);
    assert_roughly_eq(share(qq_odds.hand_distribution.four_of_a_kinds, &qq_odds.hand_distribution), 0.91);
    assert_roughly_eq(share(qq_odds.hand_distribution.full_houses, &qq_odds.hand_distribution), 8.76);
    assert_roughly_eq(share(qq_odds.hand_distribution.flushes, &qq_odds.hand_distribution), 2.26);
    assert_roughly_eq(share(qq_odds.hand_distribution.straights, &qq_odds.hand_distribution), 1.54);
    assert_roughly_eq(
        share(qq_odds.hand_distribution.three_of_a_kinds, &qq_odds.hand_distribution),
        12.19,
    );
    assert_roughly_eq(share(qq_odds.hand_distribution.two_pairs, &qq_odds.hand_distribution), 39.12);
    assert_roughly_eq(share(qq_odds.hand_distribution.pairs, &qq_odds.hand_distribution), 35.2);
    assert_roughly_eq(share(qq_odds.hand_distribution.high_cards, &qq_odds.hand_distribution), 0.0);
}

#[test]
fn test_aks_vs_jj_vs_98s() {
    let aks = CardSet::from(&[ACE_SPADE, KING_SPADE]);
    let jj = CardSet::from(&[JACK_CLUB, JACK_DIAMOND]);
    let s98 = CardSet::from(&[NINE_HEART, EIGHT_HEART]);

    let odds = calculate_odds(&[aks, jj, s98], CardSet::new()).unwrap();
    let aks_odds = &odds[0];
    let jj_odds = &odds[1];
    let s98_odds = &odds[2];

    // From https://www.pokernews.com/poker-tools/poker-odds-calculator.htm
    assert_roughly_eq(percentage(aks_odds.outcome.win_ratio()), 39.46);
    assert_roughly_eq(percentage(aks_odds.outcome.draw_ratio()), 0.18);
    assert_roughly_eq(share(aks_odds.hand_distribution.straight_flushes, &aks_odds.hand_distribution), 0.07);
    assert_roughly_eq(share(aks_odds.hand_distribution.four_of_a_kinds, &aks_odds.hand_distribution), 0.16);
    assert_roughly_eq(share(aks_odds.hand_distribution.full_houses, &aks_odds.hand_distribution), 2.62);
    assert_roughly_eq(share(aks_odds.hand_distribution.flushes, &aks_odds.hand_distribution), 8.12);
    assert_roughly_eq(share(aks_odds.hand_distribution.straights, &aks_odds.hand_distribution), 2.34);
    assert_roughly_eq(
        share(aks_odds.hand_distribution.three_of_a_kinds, &aks_odds.hand_distribution),
        4.71,
    );
    assert_roughly_eq(share(aks_odds.hand_distribution.two_pairs, &aks_odds.hand_distribution), 23.34);
    assert_roughly_eq(share(aks_odds.hand_distribution.pairs, &aks_odds.hand_distribution), 42.15);
    assert_roughly_eq(share(aks_odds.hand_distribution.high_cards, &aks_odds.hand_distribution), 16.5);

    assert_roughly_eq(percentage(jj_odds.outcome.win_ratio()), 41.13);
    assert_roughly_eq(percentage(jj_odds.outcome.draw_ratio()), 0.18);
    assert_roughly_eq(share(jj_odds.hand_distribution.straight_flushes, &jj_odds.hand_distribution), 0.03);
    assert_roughly_eq(share(jj_odds.hand_distribution.four_of_a_kinds, &jj_odds.hand_distribution), 0.99);
    assert_roughly_eq(share(jj_odds.hand_distribution.full_houses, &jj_odds.hand_distribution), 8.93);
    assert_roughly_eq(share(jj_odds.hand_distribution.flushes, &jj_odds.hand_distribution), 2.61);
    assert_roughly_eq(share(jj_odds.hand_distribution.straights, &jj_odds.hand_distribution), 1.67);
    assert_roughly_eq(
        share(jj_odds.hand_distribution.three_of_a_kinds, &jj_odds.hand_distribution),
        12.68,
    );
    assert_roughly_eq(share(jj_odds.hand_distribution.two_pairs, &jj_odds.hand_distribution), 38.46);
    assert_roughly_eq(share(jj_odds.hand_distribution.pairs, &jj_odds.hand_distribution), 34.63);
    assert_roughly_eq(share(jj_odds.hand_distribution.high_cards, &jj_odds.hand_distribution), 0.0);

    assert_roughly_eq(percentage(s98_odds.outcome.win_ratio()), 19.23);
    assert_roughly_eq(percentage(s98_odds.outcome.draw_ratio()), 0.18);
    assert_roughly_eq(share(s98_odds.hand_distribution.straight_flushes, &s98_odds.hand_distribution), 0.26);
    assert_roughly_eq(share(s98_odds.hand_distribution.four_of_a_kinds, &s98_odds.hand_distribution), 0.16);
    assert_roughly_eq(share(s98_odds.hand_distribution.full_houses, &s98_odds.hand_distribution), 2.62);
    assert_roughly_eq(share(s98_odds.hand_distribution.flushes, &s98_odds.hand_distribution), 7.93);
    assert_roughly_eq(share(s98_odds.hand_distribution.straights, &s98_odds.hand_distribution), 8.1);
    assert_roughly_eq(
        share(s98_odds.hand_distribution.three_of_a_kinds, &s98_odds.hand_distribution),
        4.61,
    );
    assert_roughly_eq(share(s98_odds.hand_distribution.two_pairs, &s98_odds.hand_distribution), 22.88);
    assert_roughly_eq(share(s98_odds.hand_distribution.pairs, &s98_odds.hand_distribution), 39.22);
    assert_roughly_eq(share(s98_odds.hand_distribution.high_cards, &s98_odds.hand_distribution), 14.23);
}

#[test]
fn test_kqs_vs_tt() {
    let kqs = CardSet::from(&[KING_SPADE, QUEEN_SPADE]);
    let tt = CardSet::from(&[TEN_CLUB, TEN_DIAMOND]);

    let odds = calculate_odds(
        &[kqs, tt],
        CardSet::from(&[JACK_SPADE, TEN_SPADE, SIX_DIAMOND]),
    ).unwrap();
    let kqs_odds = &odds[0];
    let tt_odds = &odds[1];

    // From https://www.pokernews.com/poker-tools/poker-odds-calculator.htm
    assert_roughly_eq(percentage(kqs_odds.outcome.win_ratio()), 42.12);
    assert_roughly_eq(percentage(kqs_odds.outcome.draw_ratio()), 0.0);
    assert_roughly_eq(share(kqs_odds.hand_distribution.straight_flushes, &kqs_odds.hand_distribution), 8.79);
    assert_roughly_eq(share(kqs_odds.hand_distribution.four_of_a_kinds, &kqs_odds.hand_distribution), 0.0);
    assert_roughly_eq(share(kqs_odds.hand_distribution.full_houses, &kqs_odds.hand_distribution), 0.0);
    assert_roughly_eq(share(kqs_odds.hand_distribution.flushes, &kqs_odds.hand_distribution), 27.58);
    assert_roughly_eq(share(kqs_odds.hand_distribution.straights, &kqs_odds.hand_distribution), 19.7);
    assert_roughly_eq(
        share(kqs_odds.hand_distribution.three_of_a_kinds, &kqs_odds.hand_distribution),
        1.01,
    );
    assert_roughly_eq(share(kqs_odds.hand_distribution.two_pairs, &kqs_odds.hand_distribution), 5.66);
    assert_roughly_eq(share(kqs_odds.hand_distribution.pairs, &kqs_odds.hand_distribution), 23.64);
    assert_roughly_eq(share(kqs_odds.hand_distribution.high_cards, &kqs_odds.hand_distribution), 13.64);

    assert_roughly_eq(percentage(tt_odds.outcome.win_ratio()), 57.88);
    assert_roughly_eq(percentage(tt_odds.outcome.draw_ratio()), 0.0);
    assert_roughly_eq(share(tt_odds.hand_distribution.straight_flushes, &tt_odds.hand_distribution), 0.0);
    assert_roughly_eq(share(tt_odds.hand_distribution.four_of_a_kinds, &tt_odds.hand_distribution), 4.44);
    assert_roughly_eq(share(tt_odds.hand_distribution.full_houses, &tt_odds.hand_distribution), 30.0);
    assert_roughly_eq(share(tt_odds.hand_distribution.flushes, &tt_odds.hand_distribution), 0.0);
    assert_roughly_eq(share(tt_odds.hand_distribution.straights, &tt_odds.hand_distribution), 0.0);
    assert_roughly_eq(
        share(tt_odds.hand_distribution.three_of_a_kinds, &tt_odds.hand_distribution),
        65.56,
    );
    assert_roughly_eq(share(tt_odds.hand_distribution.two_pairs, &tt_odds.hand_distribution), 0.0);
    assert_roughly_eq(share(tt_odds.hand_distribution.pairs, &tt_odds.hand_distribution), 0.0);
    assert_roughly_eq(share(tt_odds.hand_distribution.high_cards, &tt_odds.hand_distribution), 0.0);
}
