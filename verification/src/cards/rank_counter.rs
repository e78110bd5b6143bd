use crate::cards::card::{Card, Rank, NUM_RANKS};
use vstd::prelude::*;

verus! {

/// The ranks of seven cards by how often they occur: the highest rank that
/// occurs four times, the highest that occurs three times, the two lowest
/// pairs and the five lowest single ranks.
#[derive(Debug, Clone, Copy, PartialEq, Eq)]
pub struct RankCounts {
    pub four: Option<Rank>,
    pub three: Option<Rank>,
    pub pairs: [Rank; 2],
    pub pairs_len: u8,
    pub kickers: [Rank; 5],
    pub kickers_len: u8,
}

/// How many cards of `cards` have the rank `rank`.
pub open spec fn occurrences(cards: Seq<Card>, rank: Rank) -> nat
    decreases cards.len(),
{
    if cards.len() == 0 {
        0
    } else {
        occurrences(cards.drop_last(), rank) + if cards.last().rank == rank {
            1nat
        } else {
            0nat
        }
    }
}

/// The ranks below `below` that `cards` holds exactly `times` times, the
/// lowest rank first.
pub open spec fn ranks_below(cards: Seq<Card>, times: nat, below: int) -> Seq<Rank>
    decreases below,
{
    if below <= 0 {
        Seq::empty()
    } else if occurrences(cards, Rank::at(below - 1)) == times {
        ranks_below(cards, times, below - 1).push(Rank::at(below - 1))
    } else {
        ranks_below(cards, times, below - 1)
    }
}

/// The last of a list of ranks, if it has one.
pub open spec fn last_of(ranks: Seq<Rank>) -> Option<Rank> {
    if ranks.len() > 0 {
        Some(ranks.last())
    } else {
        None
    }
}

proof fn lemma_occurrences_push(cards: Seq<Card>, card: Card, rank: Rank)
    ensures
        occurrences(cards.push(card), rank) == occurrences(cards, rank) + if card.rank == rank {
            1nat
        } else {
            0nat
        },
        occurrences(cards, rank) <= cards.len(),
    decreases cards.len(),
{
    assert(cards.push(card).drop_last() =~= cards);
    if cards.len() > 0 {
        lemma_occurrences_push(cards.drop_last(), cards.last(), rank);
        assert(cards.drop_last().push(cards.last()) =~= cards);
    }
}

impl RankCounts {
    /// The counts hold the ranks of `cards`; a place that holds none of them
    /// holds the two.
    pub open spec fn counts(self, cards: Seq<Card>) -> bool {
        &&& self.four == last_of(ranks_below(cards, 4, 13))
        &&& self.three == last_of(ranks_below(cards, 3, 13))
        &&& self.pairs_len == if ranks_below(cards, 2, 13).len() < 2 {
            ranks_below(cards, 2, 13).len()
        } else {
            2
        }
        &&& self.pairs@.take(self.pairs_len as int) == ranks_below(cards, 2, 13).take(
            self.pairs_len as int,
        )
        &&& self.kickers_len == if ranks_below(cards, 1, 13).len() < 5 {
            ranks_below(cards, 1, 13).len()
        } else {
            5
        }
        &&& self.kickers@.take(self.kickers_len as int) == ranks_below(cards, 1, 13).take(
            self.kickers_len as int,
        )
        &&& forall|k: int| self.pairs_len <= k < 2 ==> self.pairs@[k] == Rank::Two
        &&& forall|k: int| self.kickers_len <= k < 5 ==> self.kickers@[k] == Rank::Two
    }

    /// Sorts the ranks of seven cards, of which no rank occurs more than four
    /// times, by how often they occur.
    pub fn make(cards: &[Card; 7]) -> (counter: Self)
        requires
            forall|rank: Rank| occurrences(cards@, rank) <= 4,
        ensures
            counter.counts(cards@),
    {
        let mut counts = [0usize;NUM_RANKS];
        let mut i: usize = 0;
        proof {
            assert(cards@.take(0) =~= Seq::<Card>::empty());
        }
        while i < 7
            invariant
                i <= 7,
                forall|rank: Rank| counts@[rank.ord()] == occurrences(cards@.take(i as int), rank),
            decreases 7 - i,
        {
            let card = cards[i];
            let at = card.rank.index();
            proof {
                assert(cards@.take(i + 1) =~= cards@.take(i as int).push(card));
                assert forall|rank: Rank|
                    occurrences(cards@.take(i + 1), rank) == occurrences(
                        cards@.take(i as int),
                        rank,
                    ) + if card.rank == rank {
                        1nat
                    } else {
                        0nat
                    } && occurrences(cards@.take(i as int), rank) <= i by {
                    lemma_occurrences_push(cards@.take(i as int), card, rank);
                }
                assert(counts@[card.rank.ord()] == occurrences(cards@.take(i as int), card.rank));
                lemma_occurrences_push(cards@.take(i as int), card, card.rank);
            }
            let ghost before = counts@;
            counts[at] = counts[at] + 1;
            proof {
                assert forall|rank: Rank| counts@[rank.ord()] == occurrences(
                    cards@.take(i + 1),
                    rank,
                ) by {
                    assert(before[rank.ord()] == occurrences(cards@.take(i as int), rank));
                    assert(rank.ord() == card.rank.ord() <==> rank == card.rank);
                }
            }
            i += 1;
        }
        proof {
            assert(cards@.take(7) =~= cards@);
        }
        let arbitrary_rank = Rank::Two;
        let mut counter = Self {
            four: None,
            three: None,
            pairs: [arbitrary_rank, arbitrary_rank],
            pairs_len: 0,
            kickers: [arbitrary_rank, arbitrary_rank, arbitrary_rank, arbitrary_rank, arbitrary_rank],
            kickers_len: 0,
        };
        let mut r: usize = 0;
        while r < NUM_RANKS
            invariant
                r <= 13,
                forall|rank: Rank| counts@[rank.ord()] == occurrences(cards@, rank),
                forall|rank: Rank| occurrences(cards@, rank) <= 4,
                counter.four == last_of(ranks_below(cards@, 4, r as int)),
                counter.three == last_of(ranks_below(cards@, 3, r as int)),
                counter.pairs_len <= 2,
                counter.pairs_len == if ranks_below(cards@, 2, r as int).len() < 2 {
                    ranks_below(cards@, 2, r as int).len()
                } else {
                    2
                },
                forall|k: int|
                    0 <= k < counter.pairs_len ==> counter.pairs@[k] == ranks_below(
                        cards@,
                        2,
                        r as int,
                    )[k],
                counter.kickers_len <= 5,
                counter.kickers_len == if ranks_below(cards@, 1, r as int).len() < 5 {
                    ranks_below(cards@, 1, r as int).len()
                } else {
                    5
                },
                forall|k: int|
                    0 <= k < counter.kickers_len ==> counter.kickers@[k] == ranks_below(
                        cards@,
                        1,
                        r as int,
                    )[k],
                forall|k: int| counter.pairs_len <= k < 2 ==> counter.pairs@[k] == Rank::Two,
                forall|k: int| counter.kickers_len <= k < 5 ==> counter.kickers@[k] == Rank::Two,
            decreases NUM_RANKS - r,
        {
            let rank = Rank::from_index(r);
            let count = counts[r];
            proof {
                assert(counts@[rank.ord()] == occurrences(cards@, rank));
            }
            if count == 4 {
                counter.four = Some(rank);
            } else if count == 3 {
                counter.three = Some(rank);
            } else if count == 2 {
                if counter.pairs_len < 2 {
                    let at = counter.pairs_len as usize;
                    counter.pairs[at] = rank;
                    counter.pairs_len = counter.pairs_len + 1;
                }
            } else if count == 1 {
                if counter.kickers_len < 5 {
                    let at = counter.kickers_len as usize;
                    counter.kickers[at] = rank;
                    counter.kickers_len = counter.kickers_len + 1;
                }
            }
            r += 1;
        }
        proof {
            assert(counter.pairs@.take(counter.pairs_len as int) =~= ranks_below(cards@, 2, 13).take(
                counter.pairs_len as int,
            ));
            assert(counter.kickers@.take(counter.kickers_len as int) =~= ranks_below(
                cards@,
                1,
                13,
            ).take(counter.kickers_len as int));
        }
        counter
    }
}

} // verus!
