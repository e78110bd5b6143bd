use poker_odds::analysis::hand_distribution::HandDistribution;
use poker_odds::analysis::search_space::combinations;
use poker_odds::cards::card::card_at;
use poker_odds::cards::cardset::CardSet;

// The hands of seven cards, sorted by their highest card: for each stretch
// of highest cards, how many hands of each kind there are.
const COUNTS: [[usize; 10]; 9] = [
    [3784, 30_268, 467_544, 546_689, 601_643, 873_103, 4_246_074, 8_004_150, 3_236_205, 0],
    [3568, 12_420, 286_440, 505_127, 575_827, 623_645, 3_405_618, 7_241_850, 3_236_205, 0],
    [3358, 11_880, 173_184, 465_044, 550_517, 498_916, 2_565_162, 6_479_550, 3_236_205, 0],
    [3154, 11_352, 127_776, 426_440, 525_713, 498_916, 1_724_706, 5_717_250, 3_236_205, 0],
    [2136, 23_177, 352_660, 308_790, 342_979, 582_659, 2_861_082, 4_667_355, 1_596_735, 0],
    [3939, 18_491, 346_060, 542_079, 641_547, 749_133, 4_015_980, 8_001_180, 3_193_470, 0],
    [5121, 32_900, 512_080, 547_371, 806_224, 967_472, 4_468_014, 8_105_625, 2_956_485, 0],
    [5484, 30_504, 458_640, 407_376, 823_070, 802_516, 3_854_952, 6_134_040, 1_841_490, 0],
    [11_040, 53_856, 748_800, 298_728, 1_312_500, 865_260, 4_291_812, 4_276_800, 761_460, 0],
];

fn distribution_of(counts: &[usize; 10]) -> HandDistribution {
    HandDistribution {
        straight_flushes: counts[0],
        four_of_a_kinds: counts[1],
        full_houses: counts[2],
        flushes: counts[3],
        straights: counts[4],
        three_of_a_kinds: counts[5],
        two_pairs: counts[6],
        pairs: counts[7],
        high_cards: counts[8],
        discarded_hands: counts[9],
    }
}

// The distribution of the hands of seven cards whose highest card has a
// place in the deck from `lowest` up to, but not including, `end`.
fn hands_topped_between(lowest: usize, end: usize) -> HandDistribution {
    let mut total = HandDistribution::new();
    for top in lowest..end {
        let mut below = CardSet::new();
        for place in 0..top {
            below.add(card_at(place));
        }
        let hands: Vec<CardSet> = combinations(below, 6)
            .into_iter()
            .map(|rest| rest + card_at(top))
            .collect();
        total = total + HandDistribution::evaluate(hands.as_slice());
    }
    total
}

#[test]
fn seven_card_hands_topped_by_the_ace_of_spades() {
    assert_eq!(hands_topped_between(51, 52), distribution_of(&COUNTS[0]));
}

#[test]
fn seven_card_hands_topped_by_the_ace_of_hearts() {
    assert_eq!(hands_topped_between(50, 51), distribution_of(&COUNTS[1]));
}

#[test]
fn seven_card_hands_topped_by_the_ace_of_diamonds() {
    assert_eq!(hands_topped_between(49, 50), distribution_of(&COUNTS[2]));
}

#[test]
fn seven_card_hands_topped_by_the_ace_of_clubs() {
    assert_eq!(hands_topped_between(48, 49), distribution_of(&COUNTS[3]));
}

#[test]
fn seven_card_hands_topped_by_the_king_of_spades() {
    assert_eq!(hands_topped_between(47, 48), distribution_of(&COUNTS[4]));
}

#[test]
fn seven_card_hands_topped_by_the_king_of_hearts_or_diamonds() {
    assert_eq!(hands_topped_between(45, 47), distribution_of(&COUNTS[5]));
}

#[test]
fn seven_card_hands_topped_by_the_king_of_clubs_or_a_high_queen() {
    assert_eq!(hands_topped_between(42, 45), distribution_of(&COUNTS[6]));
}

#[test]
fn seven_card_hands_topped_by_a_low_queen_or_a_high_jack() {
    assert_eq!(hands_topped_between(38, 42), distribution_of(&COUNTS[7]));
}

#[test]
fn seven_card_hands_topped_by_a_low_jack_or_less() {
    assert_eq!(hands_topped_between(6, 38), distribution_of(&COUNTS[8]));
}

#[test]
fn seven_card_hands_of_each_kind_add_up() {
    let mut total = HandDistribution::new();
    for counts in COUNTS.iter() {
        total = total + distribution_of(counts);
    }
    assert_eq!(
        total,
        HandDistribution {
            straight_flushes: 41_584,
            four_of_a_kinds: 224_848,
            full_houses: 3_473_184,
            flushes: 4_047_644,
            straights: 6_180_020,
            three_of_a_kinds: 6_461_620,
            two_pairs: 31_433_400,
            pairs: 58_627_800,
            high_cards: 23_294_460,
            discarded_hands: 0,
        }
    );
    assert_eq!(total.total_num_hands(), 133_784_560);
}
