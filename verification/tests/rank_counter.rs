use poker_odds::analysis::rank_counter::RankCounter;
use poker_odds::cards::card::Rank;

#[test]
fn test_rank_counter() {
    let mut counter = RankCounter::new();

    counter.inc(Rank::Two);
    counter.inc(Rank::Two);
    counter.inc(Rank::Two);
    counter.inc(Rank::Ace);

    assert_eq!(counter.get(Rank::Two), 3);
    assert_eq!(counter.get(Rank::Ace), 1);
    assert_eq!(counter.get(Rank::King), 0);
}

#[test]
fn rank_counter_test_reset() {
    let mut counter = RankCounter::new();

    counter.inc(Rank::Two);
    counter.inc(Rank::Two);
    counter.inc(Rank::Ace);

    counter.reset();

    counter.inc(Rank::Two);
    counter.inc(Rank::Three);
    counter.inc(Rank::Ace);
    counter.inc(Rank::Ace);

    assert_eq!(counter.get(Rank::Two), 1);
    assert_eq!(counter.get(Rank::Three), 1);
    assert_eq!(counter.get(Rank::Ace), 2);
}
