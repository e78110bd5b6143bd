use crate::analysis::evaluate_hand::{postflop_value, HandEvaluation};
use crate::cards::cardset::CardSet;
use core::ops::Add;
use vstd::prelude::*;
use vstd::std_specs::convert::FromSpecImpl;
use vstd::std_specs::ops::AddSpecImpl;

verus! {

/// How many hands of each kind there are among a number of hands, and how
/// many hands could not be evaluated.
#[derive(Debug, PartialEq, Eq, Clone, Copy, Hash, Structural)]
pub struct HandDistribution {
    pub straight_flushes: usize,
    pub four_of_a_kinds: usize,
    pub full_houses: usize,
    pub flushes: usize,
    pub straights: usize,
    pub three_of_a_kinds: usize,
    pub two_pairs: usize,
    pub pairs: usize,
    pub high_cards: usize,
    pub discarded_hands: usize,
}

/// The place of the kind of hand that `hand` is, from 0 (high card) to 8
/// (straight flush); 9 for a hand that has no value.
pub open spec fn kind_of(hand: CardSet) -> int {
    match postflop_value(hand) {
        Some(value) => value.kind(),
        None => 9,
    }
}

/// How many of the hands are of the kind `kind`.
pub open spec fn count_kind(hands: Seq<CardSet>, kind: int) -> nat
    decreases hands.len(),
{
    if hands.len() == 0 {
        0
    } else {
        count_kind(hands.drop_last(), kind) + if kind_of(hands.last()) == kind {
            1nat
        } else {
            0nat
        }
    }
}

/// Every hand is counted once: the counts of the ten kinds add up to the
/// number of hands.
pub proof fn lemma_every_hand_counted(hands: Seq<CardSet>)
    ensures
        count_kind(hands, 0) + count_kind(hands, 1) + count_kind(hands, 2) + count_kind(hands, 3)
            + count_kind(hands, 4) + count_kind(hands, 5) + count_kind(hands, 6) + count_kind(
            hands,
            7,
        ) + count_kind(hands, 8) + count_kind(hands, 9) == hands.len(),
    decreases hands.len(),
{
    if hands.len() > 0 {
        lemma_every_hand_counted(hands.drop_last());
    }
}

impl HandDistribution {
    /// The number of hands counted, all kinds together.
    pub open spec fn total(self) -> int {
        self.straight_flushes + self.four_of_a_kinds + self.full_houses + self.flushes
            + self.straights + self.three_of_a_kinds + self.two_pairs + self.pairs
            + self.high_cards + self.discarded_hands
    }

    /// The distribution counts the hands of `hands`, kind by kind.
    pub open spec fn counts(self, hands: Seq<CardSet>) -> bool {
        &&& self.high_cards == count_kind(hands, 0)
        &&& self.pairs == count_kind(hands, 1)
        &&& self.two_pairs == count_kind(hands, 2)
        &&& self.three_of_a_kinds == count_kind(hands, 3)
        &&& self.straights == count_kind(hands, 4)
        &&& self.flushes == count_kind(hands, 5)
        &&& self.full_houses == count_kind(hands, 6)
        &&& self.four_of_a_kinds == count_kind(hands, 7)
        &&& self.straight_flushes == count_kind(hands, 8)
        &&& self.discarded_hands == count_kind(hands, 9)
    }

    /// The sum of two distributions, count by count.
    pub open spec fn plus(self, other: HandDistribution) -> HandDistribution {
        HandDistribution {
            straight_flushes: (self.straight_flushes + other.straight_flushes) as usize,
            four_of_a_kinds: (self.four_of_a_kinds + other.four_of_a_kinds) as usize,
            full_houses: (self.full_houses + other.full_houses) as usize,
            flushes: (self.flushes + other.flushes) as usize,
            straights: (self.straights + other.straights) as usize,
            three_of_a_kinds: (self.three_of_a_kinds + other.three_of_a_kinds) as usize,
            two_pairs: (self.two_pairs + other.two_pairs) as usize,
            pairs: (self.pairs + other.pairs) as usize,
            high_cards: (self.high_cards + other.high_cards) as usize,
            discarded_hands: (self.discarded_hands + other.discarded_hands) as usize,
        }
    }

    /// The distribution in which every count is zero.
    pub open spec fn nothing() -> HandDistribution {
        HandDistribution {
            straight_flushes: 0,
            four_of_a_kinds: 0,
            full_houses: 0,
            flushes: 0,
            straights: 0,
            three_of_a_kinds: 0,
            two_pairs: 0,
            pairs: 0,
            high_cards: 0,
            discarded_hands: 0,
        }
    }

    /// The distribution of one hand.
    pub open spec fn of_hand(hand: CardSet) -> HandDistribution {
        let kind = kind_of(hand);
        HandDistribution {
            straight_flushes: if kind == 8 { 1 } else { 0 },
            four_of_a_kinds: if kind == 7 { 1 } else { 0 },
            full_houses: if kind == 6 { 1 } else { 0 },
            flushes: if kind == 5 { 1 } else { 0 },
            straights: if kind == 4 { 1 } else { 0 },
            three_of_a_kinds: if kind == 3 { 1 } else { 0 },
            two_pairs: if kind == 2 { 1 } else { 0 },
            pairs: if kind == 1 { 1 } else { 0 },
            high_cards: if kind == 0 { 1 } else { 0 },
            discarded_hands: if kind == 9 { 1 } else { 0 },
        }
    }

    /// The distribution of no hands.
    pub fn new() -> (distribution: Self)
        ensures
            distribution == HandDistribution::nothing(),
            distribution.total() == 0,
            distribution.counts(Seq::<CardSet>::empty()),
    {
        Self {
            straight_flushes: 0,
            four_of_a_kinds: 0,
            full_houses: 0,
            flushes: 0,
            straights: 0,
            three_of_a_kinds: 0,
            two_pairs: 0,
            pairs: 0,
            high_cards: 0,
            discarded_hands: 0,
        }
    }

    /// Counts the hands of `hands` by their kind; a hand that does not hold
    /// five to seven cards is counted as discarded.
    pub fn evaluate(hands: &[CardSet]) -> (distribution: Self)
        ensures
            distribution.counts(hands@),
            distribution.total() == hands@.len(),
    {
        let mut distribution = HandDistribution::new();
        let mut i: usize = 0;
        while i < hands.len()
            invariant
                i <= hands@.len(),
                distribution.counts(hands@.take(i as int)),
                distribution.total() == i,
            decreases hands@.len() - i,
        {
            let one = HandDistribution::from(hands[i]);
            proof {
                assert(hands@.take(i + 1).drop_last() =~= hands@.take(i as int));
                assert(hands@.take(i + 1).last() == hands@[i as int]);
            }
            distribution = distribution + one;
            i += 1;
        }
        proof {
            assert(hands@.take(hands@.len() as int) =~= hands@);
        }
        distribution
    }

    /// Whether every hand could be evaluated.
    pub fn is_complete(&self) -> (complete: bool)
        ensures
            complete == (self.discarded_hands == 0),
    {
        self.discarded_hands == 0
    }

    /// The number of hands counted, all kinds together.
    pub fn total_num_hands(&self) -> (total: usize)
        requires
            self.total() <= usize::MAX,
        ensures
            total == self.total(),
    {
        self.straight_flushes + self.four_of_a_kinds + self.full_houses + self.flushes
            + self.straights + self.three_of_a_kinds + self.two_pairs + self.pairs
            + self.high_cards + self.discarded_hands
    }
}

impl From<CardSet> for HandDistribution {
    fn from(value: CardSet) -> (distribution: HandDistribution) {
        let mut dist = HandDistribution::new();
        match HandEvaluation::evaluate_postflop(value) {
            None => {
                dist.discarded_hands = 1;
            },
            Some(HandEvaluation::StraightFlush { .. }) => {
                dist.straight_flushes = 1;
            },
            Some(HandEvaluation::FourOfAKind { .. }) => {
                dist.four_of_a_kinds = 1;
            },
            Some(HandEvaluation::FullHouse { .. }) => {
                dist.full_houses = 1;
            },
            Some(HandEvaluation::Flush { .. }) => {
                dist.flushes = 1;
            },
            Some(HandEvaluation::Straight { .. }) => {
                dist.straights = 1;
            },
            Some(HandEvaluation::ThreeOfAKind { .. }) => {
                dist.three_of_a_kinds = 1;
            },
            Some(HandEvaluation::TwoPair { .. }) => {
                dist.two_pairs = 1;
            },
            Some(HandEvaluation::Pair { .. }) => {
                dist.pairs = 1;
            },
            Some(HandEvaluation::HighCard { .. }) => {
                dist.high_cards = 1;
            },
        }
        dist
    }
}

impl FromSpecImpl<CardSet> for HandDistribution {
    open spec fn obeys_from_spec() -> bool {
        true
    }

    open spec fn from_spec(value: CardSet) -> HandDistribution {
        HandDistribution::of_hand(value)
    }
}

impl Add<HandDistribution> for HandDistribution {
    type Output = HandDistribution;

    fn add(self, rhs: HandDistribution) -> (sum: HandDistribution) {
        Self {
            straight_flushes: self.straight_flushes + rhs.straight_flushes,
            four_of_a_kinds: self.four_of_a_kinds + rhs.four_of_a_kinds,
            full_houses: self.full_houses + rhs.full_houses,
            flushes: self.flushes + rhs.flushes,
            straights: self.straights + rhs.straights,
            three_of_a_kinds: self.three_of_a_kinds + rhs.three_of_a_kinds,
            two_pairs: self.two_pairs + rhs.two_pairs,
            pairs: self.pairs + rhs.pairs,
            high_cards: self.high_cards + rhs.high_cards,
            discarded_hands: self.discarded_hands + rhs.discarded_hands,
        }
    }
}

/// Three counts that fit a machine word together add up to the same
/// however they are grouped.
proof fn lemma_counts_regroup(x: usize, y: usize, z: usize)
    requires
        x + y + z <= usize::MAX,
    ensures
        ((x + y) as usize + z) as usize == (x + (y + z) as usize) as usize,
        ((x + y) as usize + z) as usize == x + y + z,
{
}

/// Adding distributions is associative, where the counts fit a machine
/// word.
pub proof fn lemma_sums_regroup(a: HandDistribution, b: HandDistribution, c: HandDistribution)
    requires
        a.total() + b.total() + c.total() <= usize::MAX,
    ensures
        a.plus(b).plus(c) == a.plus(b.plus(c)),
        a.plus(b).plus(c).total() == a.total() + b.total() + c.total(),
{
    lemma_counts_regroup(a.straight_flushes, b.straight_flushes, c.straight_flushes);
    lemma_counts_regroup(a.four_of_a_kinds, b.four_of_a_kinds, c.four_of_a_kinds);
    lemma_counts_regroup(a.full_houses, b.full_houses, c.full_houses);
    lemma_counts_regroup(a.flushes, b.flushes, c.flushes);
    lemma_counts_regroup(a.straights, b.straights, c.straights);
    lemma_counts_regroup(a.three_of_a_kinds, b.three_of_a_kinds, c.three_of_a_kinds);
    lemma_counts_regroup(a.two_pairs, b.two_pairs, c.two_pairs);
    lemma_counts_regroup(a.pairs, b.pairs, c.pairs);
    lemma_counts_regroup(a.high_cards, b.high_cards, c.high_cards);
    lemma_counts_regroup(a.discarded_hands, b.discarded_hands, c.discarded_hands);
}

/// The distribution in which every count is zero changes nothing when it
/// is added, on either side.
pub proof fn lemma_nothing_adds_nothing(a: HandDistribution)
    ensures
        a.plus(HandDistribution::nothing()) == a,
        HandDistribution::nothing().plus(a) == a,
{
}

impl AddSpecImpl<HandDistribution> for HandDistribution {
    open spec fn obeys_add_spec() -> bool {
        true
    }

    open spec fn add_req(self, rhs: HandDistribution) -> bool {
        &&& self.straight_flushes + rhs.straight_flushes <= usize::MAX
        &&& self.four_of_a_kinds + rhs.four_of_a_kinds <= usize::MAX
        &&& self.full_houses + rhs.full_houses <= usize::MAX
        &&& self.flushes + rhs.flushes <= usize::MAX
        &&& self.straights + rhs.straights <= usize::MAX
        &&& self.three_of_a_kinds + rhs.three_of_a_kinds <= usize::MAX
        &&& self.two_pairs + rhs.two_pairs <= usize::MAX
        &&& self.pairs + rhs.pairs <= usize::MAX
        &&& self.high_cards + rhs.high_cards <= usize::MAX
        &&& self.discarded_hands + rhs.discarded_hands <= usize::MAX
    }

    open spec fn add_spec(self, rhs: HandDistribution) -> HandDistribution {
        self.plus(rhs)
    }
}

} // verus!
