use crate::analysis::evaluate_hand::{
    capped, comes_before, count_rank, four_of, full_house_of, hand_value, heads, high_card_of,
    higher, highest, lemma_classes_add_up, lemma_count_rank_of_set, pair_of, rank_classes,
    rank_count, ranks_counted, ranks_of, suit_filter, suit_lists, suited, trips_of, two_pair_of,
    four_of_a_kind_of, HandEvaluation, RankClasses,
};
use crate::analysis::evaluate_hand::{flush_of, straight_flush_of, straight_of, straight_top};
use crate::analysis::evaluate_hand::postflop_value;
use crate::analysis::outcomes::{lemma_order_total, lemma_order_transitive};
use crate::analysis::straights::{
    falling, highest_run, holds, lemma_scanner_finds_best, run_at, straight_in, wheel,
};
use crate::analysis::suit_symmetry::{
    flush_in, lemma_hand_ranks, lemma_long_suit_decides, lemma_one_long, lemma_suits_add_up,
    one_long, straight_flush_in,
};
use crate::cards::card::{Card, Rank, Suit};
use crate::cards::cardset::{lemma_set_of, CardSet};
use vstd::prelude::*;

verus! {

/// Every rank of the list is lower than the ranks before it.
pub open spec fn strictly_falling(ranks: Seq<Rank>) -> bool {
    forall|i: int, j: int| 0 <= i < j < ranks.len() ==> ranks[i].ord() > ranks[j].ord()
}

/// The ranks from `from` up that occur `times` times stand in their list,
/// and no others; the list falls.
pub proof fn lemma_counted_list(cards: Seq<Card>, times: nat, from: int)
    requires
        0 <= from <= 13,
    ensures
        strictly_falling(ranks_counted(cards, times, from)),
        forall|rank: Rank| #[trigger]
            ranks_counted(cards, times, from).contains(rank) <==> rank.ord() >= from && count_rank(
                cards,
                rank,
            ) == times,
        ranks_counted(cards, times, from).len() <= 13 - from,
    decreases 13 - from,
{
    let list = ranks_counted(cards, times, from);
    if from < 13 {
        lemma_counted_list(cards, times, from + 1);
        let above = ranks_counted(cards, times, from + 1);
        let here = Rank::at(from);
        assert(here.ord() == from);
        if count_rank(cards, here) == times {
            assert(list == above.push(here));
            assert forall|i: int, j: int| 0 <= i < j < list.len() implies list[i].ord()
                > list[j].ord() by {
                assert(list[i] == above[i]);
                assert(above.contains(above[i]));
                if j < above.len() {
                    assert(list[j] == above[j]);
                } else {
                    assert(list[j] == here);
                }
            }
            assert forall|rank: Rank| list.contains(rank) <==> rank.ord() >= from && count_rank(
                cards,
                rank,
            ) == times by {
                if list.contains(rank) {
                    let k = choose|k: int| 0 <= k < list.len() && list[k] == rank;
                    if k < above.len() {
                        assert(above[k] == rank);
                        assert(above.contains(rank));
                    }
                }
                if rank.ord() >= from && count_rank(cards, rank) == times {
                    if rank.ord() == from {
                        assert(rank == here);
                        assert(list[above.len() as int] == here);
                    } else {
                        assert(above.contains(rank));
                        let k = choose|k: int| 0 <= k < above.len() && above[k] == rank;
                        assert(list[k] == rank);
                    }
                }
            }
        } else {
            assert(list == above);
            assert forall|rank: Rank| list.contains(rank) <==> rank.ord() >= from && count_rank(
                cards,
                rank,
            ) == times by {
                assert(above.contains(rank) <==> rank.ord() >= from + 1 && count_rank(cards, rank)
                    == times);
                if rank.ord() == from {
                    assert(rank == here);
                }
            }
        }
    } else {
        assert forall|rank: Rank| !list.contains(rank) by {}
    }
}

/// A falling list that holds the ranks of another falling list has, place
/// by place, ranks that are no lower.
pub proof fn lemma_dominates(list: Seq<Rank>, part: Seq<Rank>, i: int) -> (place: int)
    requires
        strictly_falling(list),
        strictly_falling(part),
        forall|k: int| 0 <= k < part.len() ==> list.contains(#[trigger] part[k]),
        0 <= i < part.len(),
    ensures
        i <= place < list.len(),
        list[place] == part[i],
        list[i].ord() >= part[i].ord(),
    decreases i,
{
    assert(list.contains(part[i]));
    let place = choose|p: int| 0 <= p < list.len() && list[p] == part[i];
    if i > 0 {
        let before = lemma_dominates(list, part, i - 1);
        assert(part[i - 1].ord() > part[i].ord());
        if place <= before {
            if place < before {
                assert(list[place].ord() > list[before].ord());
            }
        }
    }
    if i < place {
        assert(list[i].ord() > list[place].ord());
    }
    place
}

/// A list counts a rank where it holds a card of the rank.
pub proof fn lemma_counts_where_held(cards: Seq<Card>, rank: Rank)
    ensures
        count_rank(cards, rank) >= 1 <==> exists|j: int|
            0 <= j < cards.len() && (#[trigger] cards[j]).rank == rank,
    decreases cards.len(),
{
    if cards.len() > 0 {
        let front = cards.drop_last();
        lemma_counts_where_held(front, rank);
        if count_rank(cards, rank) >= 1 {
            if cards.last().rank == rank {
                assert(cards[cards.len() - 1].rank == rank);
            } else {
                let j = choose|j: int| 0 <= j < front.len() && (#[trigger] front[j]).rank == rank;
                assert(cards[j].rank == rank);
            }
        }
        if exists|j: int| 0 <= j < cards.len() && (#[trigger] cards[j]).rank == rank {
            let j = choose|j: int| 0 <= j < cards.len() && (#[trigger] cards[j]).rank == rank;
            if j < front.len() {
                assert(front[j].rank == rank);
            }
        }
    }
}

/// The ranks of the cards of a hand fall, and they are the ranks of which
/// the hand holds a card.
pub proof fn lemma_hand_ranks_fall(hand: CardSet)
    ensures
        falling(ranks_of(hand.desc())),
        forall|q: int|
            0 <= q < 13 ==> (holds(ranks_of(hand.desc()), q) <==> rank_count(hand@, Rank::at(q))
                >= 1),
{
    let cards = hand.desc();
    let ranks = ranks_of(cards);
    hand.lemma_model();
    assert forall|i: int, j: int| 0 <= i < j < ranks.len() implies ranks[i].ord()
        >= ranks[j].ord() by {
        assert(cards[i].ord() > cards[j].ord());
    }
    assert forall|q: int| 0 <= q < 13 implies (holds(ranks, q) <==> rank_count(
        hand@,
        Rank::at(q),
    ) >= 1) by {
        let rank = Rank::at(q);
        lemma_count_rank_of_set(cards, hand@, rank);
        lemma_counts_where_held(cards, rank);
        if holds(ranks, q) {
            let j = choose|j: int| 0 <= j < ranks.len() && (#[trigger] ranks[j]).ord() == q;
            assert(cards[j].rank == rank);
        }
        if count_rank(cards, rank) >= 1 {
            let j = choose|j: int| 0 <= j < cards.len() && (#[trigger] cards[j]).rank == rank;
            assert(ranks[j].ord() == q);
        }
    }
}

/// The ranks of one suit of a list of cards that falls: they fall, and they
/// are the ranks of the cards of the suit.
pub proof fn lemma_suit_filter_falls(cards: Seq<Card>, suit: Suit)
    requires
        forall|i: int, j: int| 0 <= i < j < cards.len() ==> cards[i].ord() > cards[j].ord(),
    ensures
        strictly_falling(suit_filter(cards, suit)),
        forall|rank: Rank|
            suit_filter(cards, suit).contains(rank) <==> cards.contains(Card { rank, suit }),
        suit_filter(cards, suit).len() <= cards.len(),
    decreases cards.len(),
{
    let list = suit_filter(cards, suit);
    if cards.len() > 0 {
        let front = cards.drop_last();
        let last = cards.last();
        lemma_suit_filter_falls(front, suit);
        let before = suit_filter(front, suit);
        assert forall|rank: Rank| list.contains(rank) <==> cards.contains(
            Card { rank, suit },
        ) by {
            let card = Card { rank, suit };
            if list.contains(rank) {
                let k = choose|k: int| 0 <= k < list.len() && list[k] == rank;
                if k < before.len() {
                    assert(before[k] == rank);
                    assert(before.contains(rank));
                    let j = choose|j: int| 0 <= j < front.len() && front[j] == card;
                    assert(cards[j] == card);
                } else {
                    assert(cards[cards.len() - 1] == card);
                }
            }
            if cards.contains(card) {
                let j = choose|j: int| 0 <= j < cards.len() && cards[j] == card;
                if j < front.len() {
                    assert(front[j] == card);
                    assert(before.contains(rank));
                    let k = choose|k: int| 0 <= k < before.len() && before[k] == rank;
                    assert(list[k] == rank);
                } else {
                    assert(list[before.len() as int] == rank);
                }
            }
        }
        if last.suit == suit {
            assert forall|i: int, j: int| 0 <= i < j < list.len() implies list[i].ord()
                > list[j].ord() by {
                if j == before.len() {
                    assert(before.contains(before[i]));
                    let held = Card { rank: before[i], suit };
                    let k = choose|k: int| 0 <= k < front.len() && front[k] == held;
                    assert(cards[k].ord() > cards[cards.len() - 1].ord());
                } else {
                    assert(list[i] == before[i] && list[j] == before[j]);
                }
            }
        }
    } else {
        assert forall|rank: Rank| !cards.contains(Card { rank, suit }) by {}
    }
}

/// The ranks that the evaluator keeps for one suit of a hand of seven cards
/// or fewer: they fall, and they are the ranks of the cards of the suit.
pub proof fn lemma_suit_list(hand: CardSet, suit: Suit)
    requires
        hand@.len() <= 7,
    ensures
        suit_lists(hand.desc())[suit.ord()] == suited(hand.desc(), suit),
        suited(hand.desc(), suit) == suit_filter(hand.desc(), suit),
        strictly_falling(suited(hand.desc(), suit)),
        forall|rank: Rank|
            suited(hand.desc(), suit).contains(rank) <==> hand@.contains(Card { rank, suit }),
{
    hand.lemma_model();
    lemma_suit_filter_falls(hand.desc(), suit);
    assert(Suit::at(suit.ord()) == suit);
}

/// What a hand is worth.
pub open spec fn value_of(hand: CardSet) -> HandEvaluation {
    hand_value(hand.desc())
}

/// How two keys of six numbers compare.
pub proof fn lemma_key_order(a: Seq<int>, b: Seq<int>)
    requires
        a.len() == 6,
        b.len() == 6,
    ensures
        comes_before(a, b) <==> (a[0] < b[0] || (a[0] == b[0] && (a[1] < b[1] || (a[1] == b[1] && (
        a[2] < b[2] || (a[2] == b[2] && (a[3] < b[3] || (a[3] == b[3] && (a[4] < b[4] || (a[4]
            == b[4] && a[5] < b[5])))))))))),
{
    reveal_with_fuel(comes_before, 8);
    let a1 = a.drop_first();
    let b1 = b.drop_first();
    let a2 = a1.drop_first();
    let b2 = b1.drop_first();
    let a3 = a2.drop_first();
    let b3 = b2.drop_first();
    let a4 = a3.drop_first();
    let b4 = b3.drop_first();
    let a5 = a4.drop_first();
    let b5 = b4.drop_first();
    assert(a5.drop_first().len() == 0);
    assert(a1[0] == a[1] && a2[0] == a[2] && a3[0] == a[3] && a4[0] == a[4] && a5[0] == a[5]);
    assert(b1[0] == b[1] && b2[0] == b[2] && b3[0] == b[3] && b4[0] == b[4] && b5[0] == b[5]);
}

/// How two hands compare, by the numbers of their keys.
pub proof fn lemma_loses(a: HandEvaluation, b: HandEvaluation)
    ensures
        a.key().len() == 6,
        b.key().len() == 6,
        a.key()[0] == a.kind(),
        a.loses_to(b) <==> {
            let x = a.key();
            let y = b.key();
            x[0] < y[0] || (x[0] == y[0] && (x[1] < y[1] || (x[1] == y[1] && (x[2] < y[2] || (x[2]
                == y[2] && (x[3] < y[3] || (x[3] == y[3] && (x[4] < y[4] || (x[4] == y[4] && x[5]
                < y[5])))))))))
        },
{
    lemma_key_order(a.key(), b.key());
}

/// The hand holds `count` cards of `rank` or more.
pub open spec fn has(cards: Set<Card>, rank: Rank, count: nat) -> bool {
    rank_count(cards, rank) >= count
}

/// The hand holds the cards of the suit that make the straight with the top
/// `top`: the five ranks from the top down, or, for the five, the ranks from
/// the five down to the two and the ace.
pub open spec fn straight_of_suit(cards: Set<Card>, suit: Suit, top: Rank) -> bool {
    if top == Rank::Five {
        &&& cards.contains(Card { rank: Rank::Ace, suit })
        &&& cards.contains(Card { rank: Rank::Five, suit })
        &&& cards.contains(Card { rank: Rank::Four, suit })
        &&& cards.contains(Card { rank: Rank::Three, suit })
        &&& cards.contains(Card { rank: Rank::Two, suit })
    } else {
        &&& top.ord() >= 4
        &&& cards.contains(Card { rank: top, suit })
        &&& cards.contains(Card { rank: Rank::at(top.ord() - 1), suit })
        &&& cards.contains(Card { rank: Rank::at(top.ord() - 2), suit })
        &&& cards.contains(Card { rank: Rank::at(top.ord() - 3), suit })
        &&& cards.contains(Card { rank: Rank::at(top.ord() - 4), suit })
    }
}

/// The hand holds a card of each rank of the straight with the top `top`.
pub open spec fn straight_ranks(cards: Set<Card>, top: Rank) -> bool {
    if top == Rank::Five {
        &&& has(cards, Rank::Ace, 1)
        &&& has(cards, Rank::Five, 1)
        &&& has(cards, Rank::Four, 1)
        &&& has(cards, Rank::Three, 1)
        &&& has(cards, Rank::Two, 1)
    } else {
        &&& top.ord() >= 4
        &&& has(cards, top, 1)
        &&& has(cards, Rank::at(top.ord() - 1), 1)
        &&& has(cards, Rank::at(top.ord() - 2), 1)
        &&& has(cards, Rank::at(top.ord() - 3), 1)
        &&& has(cards, Rank::at(top.ord() - 4), 1)
    }
}

/// The hand holds the five cards of the suit with the ranks of `ranks`,
/// which fall.
pub open spec fn flush_of_suit(cards: Set<Card>, suit: Suit, ranks: [Rank; 5]) -> bool {
    &&& ranks[0].ord() > ranks[1].ord() > ranks[2].ord() > ranks[3].ord() > ranks[4].ord()
    &&& cards.contains(Card { rank: ranks[0], suit })
    &&& cards.contains(Card { rank: ranks[1], suit })
    &&& cards.contains(Card { rank: ranks[2], suit })
    &&& cards.contains(Card { rank: ranks[3], suit })
    &&& cards.contains(Card { rank: ranks[4], suit })
}

/// The hand holds five cards that make the hand `value`.
pub open spec fn makes(cards: Set<Card>, value: HandEvaluation) -> bool {
    match value {
        HandEvaluation::StraightFlush { highest_rank } => {
            ||| straight_of_suit(cards, Suit::Club, highest_rank)
            ||| straight_of_suit(cards, Suit::Diamond, highest_rank)
            ||| straight_of_suit(cards, Suit::Heart, highest_rank)
            ||| straight_of_suit(cards, Suit::Spade, highest_rank)
        },
        HandEvaluation::FourOfAKind { rank, kicker } => {
            &&& has(cards, rank, 4)
            &&& kicker != rank
            &&& has(cards, kicker, 1)
        },
        HandEvaluation::FullHouse { triple, pair } => {
            &&& has(cards, triple, 3)
            &&& pair != triple
            &&& has(cards, pair, 2)
        },
        HandEvaluation::Flush { ranks_sorted_desc } => {
            ||| flush_of_suit(cards, Suit::Club, ranks_sorted_desc)
            ||| flush_of_suit(cards, Suit::Diamond, ranks_sorted_desc)
            ||| flush_of_suit(cards, Suit::Heart, ranks_sorted_desc)
            ||| flush_of_suit(cards, Suit::Spade, ranks_sorted_desc)
        },
        HandEvaluation::Straight { highest_rank } => straight_ranks(cards, highest_rank),
        HandEvaluation::ThreeOfAKind { rank, kickers_sorted_desc: k } => {
            &&& has(cards, rank, 3)
            &&& k[0].ord() > k[1].ord()
            &&& k[0] != rank && k[1] != rank
            &&& has(cards, k[0], 1)
            &&& has(cards, k[1], 1)
        },
        HandEvaluation::TwoPair { higher_rank, lower_rank, kicker } => {
            &&& higher_rank.ord() > lower_rank.ord()
            &&& has(cards, higher_rank, 2)
            &&& has(cards, lower_rank, 2)
            &&& kicker != higher_rank && kicker != lower_rank
            &&& has(cards, kicker, 1)
        },
        HandEvaluation::Pair { rank, kickers_sorted_desc: k } => {
            &&& has(cards, rank, 2)
            &&& k[0].ord() > k[1].ord() > k[2].ord()
            &&& k[0] != rank && k[1] != rank && k[2] != rank
            &&& has(cards, k[0], 1)
            &&& has(cards, k[1], 1)
            &&& has(cards, k[2], 1)
        },
        HandEvaluation::HighCard { rank, kickers_sorted_desc: k } => {
            &&& rank.ord() > k[0].ord() > k[1].ord() > k[2].ord() > k[3].ord()
            &&& has(cards, rank, 1)
            &&& has(cards, k[0], 1)
            &&& has(cards, k[1], 1)
            &&& has(cards, k[2], 1)
            &&& has(cards, k[3], 1)
        },
    }
}

/// A hand that holds the cards of another holds the five cards that the
/// other holds.
pub proof fn lemma_makes_more(cards: Set<Card>, more: Set<Card>, value: HandEvaluation)
    requires
        cards.subset_of(more),
        makes(cards, value),
    ensures
        makes(more, value),
{
    assert forall|rank: Rank| rank_count(cards, rank) <= rank_count(more, rank) by {}
}

/// The ranks of a hand of seven cards or fewer, sorted by how often they
/// occur: what the lists of the evaluator hold.
pub proof fn lemma_classes(hand: CardSet)
    requires
        hand.wf(),
        hand@.len() <= 7,
    ensures
        forall|rank: Rank| count_rank(hand.desc(), rank) == rank_count(hand@, rank),
        forall|rank: Rank| rank_count(hand@, rank) <= 4,
        rank_classes(hand.desc()).trips == ranks_counted(hand.desc(), 3, 0),
        rank_classes(hand.desc()).pairs == ranks_counted(hand.desc(), 2, 0),
        rank_classes(hand.desc()).singles == capped(ranks_counted(hand.desc(), 1, 0), 5),
        rank_classes(hand.desc()).four == four_of(hand.desc()),
        hand@.len() == 4 * ranks_counted(hand.desc(), 4, 0).len() + 3 * ranks_counted(
            hand.desc(),
            3,
            0,
        ).len() + 2 * ranks_counted(hand.desc(), 2, 0).len() + ranks_counted(
            hand.desc(),
            1,
            0,
        ).len(),
{
    hand.lemma_model();
    assert forall|rank: Rank| count_rank(hand.desc(), rank) == rank_count(hand@, rank)
        && rank_count(hand@, rank) <= 4 by {
        lemma_count_rank_of_set(hand.desc(), hand@, rank);
    }
    lemma_classes_add_up(hand);
}

/// What the evaluator finds in the suits of a hand is a flush or a straight
/// flush, and nothing else.
pub proof fn lemma_suit_kinds(cards: Seq<Card>)
    requires
        cards.len() <= 7,
    ensures
        straight_flush_of(suit_lists(cards), 0) matches Some(value) ==> value.kind() == 8,
        flush_of(suit_lists(cards), 0) matches Some(value) ==> value.kind() == 5,
{
    let long = lemma_one_long(cards);
    lemma_long_suit_decides(suit_lists(cards), long);
}

/// The kinds of the hands that the evaluator finds, and the hand that it
/// gives: the first that it finds, from the straight flush down.
pub proof fn lemma_first_found(cards: Seq<Card>)
    requires
        cards.len() <= 7,
    ensures
        ({
            let classes = rank_classes(cards);
            let lists = suit_lists(cards);
            let value = hand_value(cards);
            &&& straight_flush_of(lists, 0) is Some ==> value == straight_flush_of(
                lists,
                0,
            ).unwrap() && value.kind() == 8
            &&& straight_flush_of(lists, 0) is None ==> value.kind() <= 7
            &&& four_of_a_kind_of(classes) is Some ==> value.kind() >= 7
            &&& value.kind() == 7 ==> four_of_a_kind_of(classes) == Some(value)
            &&& full_house_of(classes) is Some ==> value.kind() >= 6
            &&& value.kind() == 6 ==> full_house_of(classes) == Some(value)
            &&& flush_of(lists, 0) is Some ==> value.kind() >= 5
            &&& value.kind() == 5 ==> flush_of(lists, 0) == Some(value)
            &&& straight_of(ranks_of(cards)) is Some ==> value.kind() >= 4
            &&& value.kind() == 4 ==> straight_of(ranks_of(cards)) == Some(value)
            &&& trips_of(classes) is Some ==> value.kind() >= 3
            &&& value.kind() == 3 ==> trips_of(classes) == Some(value)
            &&& two_pair_of(classes) is Some ==> value.kind() >= 2
            &&& value.kind() == 2 ==> two_pair_of(classes) == Some(value)
            &&& pair_of(classes) is Some ==> value.kind() >= 1
            &&& value.kind() == 1 ==> pair_of(classes) == Some(value)
            &&& value.kind() == 0 ==> value == high_card_of(classes)
            &&& value.kind() < 8 ==> straight_flush_of(lists, 0) is None
            &&& value.kind() < 7 ==> four_of_a_kind_of(classes) is None
            &&& value.kind() < 6 ==> full_house_of(classes) is None
            &&& value.kind() < 5 ==> flush_of(lists, 0) is None
            &&& value.kind() < 4 ==> straight_of(ranks_of(cards)) is None
            &&& value.kind() < 3 ==> trips_of(classes) is None
            &&& value.kind() < 2 ==> two_pair_of(classes) is None
            &&& value.kind() < 1 ==> pair_of(classes) is None
        }),
{
    lemma_suit_kinds(cards);
}

/// The best single ranks of a hand are no lower, place by place, than any
/// single ranks of the hand that fall.
proof fn lemma_singles_top(hand: CardSet, part: Seq<Rank>)
    requires
        hand.wf(),
        hand@.len() <= 7,
        strictly_falling(part),
        part.len() <= 5,
        forall|k: int|
            0 <= k < part.len() ==> ranks_counted(hand.desc(), 1, 0).contains(#[trigger] part[k]),
    ensures
        rank_classes(hand.desc()).singles.len() >= part.len(),
        forall|i: int|
            0 <= i < part.len() ==> (#[trigger] rank_classes(hand.desc()).singles[i]).ord()
                >= part[i].ord(),
{
    let cards = hand.desc();
    let all = ranks_counted(cards, 1, 0);
    lemma_counted_list(cards, 1, 0);
    let singles = rank_classes(cards).singles;
    assert(singles == capped(all, 5));
    assert forall|i: int| 0 <= i < part.len() implies singles.len() > i && (
    #[trigger] singles[i]).ord() >= part[i].ord() by {
        let place = lemma_dominates(all, part, i);
        assert(singles[i] == all[i]);
    }
    if part.len() > 0 {
        let place = lemma_dominates(all, part, part.len() - 1);
    }
}

/// A hand that holds five single ranks is worth no less than the high card
/// of these ranks.
proof fn lemma_beats_high_card(hand: CardSet, value: HandEvaluation)
    requires
        hand.wf(),
        5 <= hand@.len() <= 7,
        value is HighCard,
        makes(hand@, value),
    ensures
        !value_of(hand).loses_to(value),
{
    let cards = hand.desc();
    hand.lemma_model();
    lemma_first_found(cards);
    lemma_loses(value_of(hand), value);
    if value_of(hand).kind() == 0 {
        let singles = rank_classes(cards).singles;
        match value {
            HandEvaluation::HighCard { rank, kickers_sorted_desc: k } => {
                let part = seq![rank, k[0], k[1], k[2], k[3]];
                lemma_single(hand, rank);
                lemma_single(hand, k[0]);
                lemma_single(hand, k[1]);
                lemma_single(hand, k[2]);
                lemma_single(hand, k[3]);
                lemma_singles_top(hand, part);
                assert(singles[0].ord() >= part[0].ord());
                assert(singles[1].ord() >= part[1].ord());
                assert(singles[2].ord() >= part[2].ord());
                assert(singles[3].ord() >= part[3].ord());
                assert(singles[4].ord() >= part[4].ord());
            },
            _ => {},
        }
    }
}

/// In a hand that holds no pair, no triple and no four of a rank, a rank
/// that it holds is a single rank.
proof fn lemma_single(hand: CardSet, rank: Rank)
    requires
        hand.wf(),
        hand@.len() <= 7,
        has(hand@, rank, 1),
        pair_of(rank_classes(hand.desc())) is None,
        trips_of(rank_classes(hand.desc())) is None,
        four_of_a_kind_of(rank_classes(hand.desc())) is None,
    ensures
        ranks_counted(hand.desc(), 1, 0).contains(rank),
{
    let cards = hand.desc();
    lemma_classes(hand);
    lemma_counted_list(cards, 1, 0);
    lemma_counted_list(cards, 2, 0);
    lemma_counted_list(cards, 3, 0);
    lemma_counted_list(cards, 4, 0);
    assert(count_rank(cards, rank) == rank_count(hand@, rank));
    if count_rank(cards, rank) == 2 {
        assert(ranks_counted(cards, 2, 0).contains(rank));
    }
    if count_rank(cards, rank) == 3 {
        assert(ranks_counted(cards, 3, 0).contains(rank));
    }
    if count_rank(cards, rank) == 4 {
        assert(ranks_counted(cards, 4, 0).contains(rank));
    }
}

/// The list of the evaluator in which a rank of a hand stands says how
/// often the hand holds the rank.
proof fn lemma_in_class(hand: CardSet, rank: Rank)
    requires
        hand.wf(),
        hand@.len() <= 7,
    ensures
        rank_count(hand@, rank) <= 4,
        ranks_counted(hand.desc(), 1, 0).contains(rank) <==> rank_count(hand@, rank) == 1,
        ranks_counted(hand.desc(), 2, 0).contains(rank) <==> rank_count(hand@, rank) == 2,
        ranks_counted(hand.desc(), 3, 0).contains(rank) <==> rank_count(hand@, rank) == 3,
        ranks_counted(hand.desc(), 4, 0).contains(rank) <==> rank_count(hand@, rank) == 4,
{
    let cards = hand.desc();
    lemma_classes(hand);
    lemma_counted_list(cards, 1, 0);
    lemma_counted_list(cards, 2, 0);
    lemma_counted_list(cards, 3, 0);
    lemma_counted_list(cards, 4, 0);
    assert(count_rank(cards, rank) == rank_count(hand@, rank));
}

/// The lists of the evaluator fall, and those of the triples and the pairs
/// are not cut.
proof fn lemma_lists_fall(hand: CardSet)
    requires
        hand.wf(),
        hand@.len() <= 7,
    ensures
        strictly_falling(ranks_counted(hand.desc(), 1, 0)),
        strictly_falling(ranks_counted(hand.desc(), 2, 0)),
        strictly_falling(ranks_counted(hand.desc(), 3, 0)),
        strictly_falling(ranks_counted(hand.desc(), 4, 0)),
        rank_classes(hand.desc()).trips == ranks_counted(hand.desc(), 3, 0),
        rank_classes(hand.desc()).pairs == ranks_counted(hand.desc(), 2, 0),
        rank_classes(hand.desc()).singles == capped(ranks_counted(hand.desc(), 1, 0), 5),
        rank_classes(hand.desc()).four is Some <==> ranks_counted(hand.desc(), 4, 0).len() > 0,
        rank_classes(hand.desc()).four is Some ==> rank_classes(hand.desc()).four == Some(
            ranks_counted(hand.desc(), 4, 0).last(),
        ),
        hand@.len() == 4 * ranks_counted(hand.desc(), 4, 0).len() + 3 * ranks_counted(
            hand.desc(),
            3,
            0,
        ).len() + 2 * ranks_counted(hand.desc(), 2, 0).len() + ranks_counted(
            hand.desc(),
            1,
            0,
        ).len(),
{
    let cards = hand.desc();
    lemma_classes(hand);
    lemma_counted_list(cards, 1, 0);
    lemma_counted_list(cards, 2, 0);
    lemma_counted_list(cards, 3, 0);
    lemma_counted_list(cards, 4, 0);
}

/// A falling list that holds a rank begins with a rank that is no lower.
proof fn lemma_head(list: Seq<Rank>, rank: Rank)
    requires
        strictly_falling(list),
        list.contains(rank),
    ensures
        list.len() >= 1,
        list[0].ord() >= rank.ord(),
        list[0] != rank ==> list.len() >= 2 && list[1].ord() >= rank.ord(),
{
    let place = choose|p: int| 0 <= p < list.len() && list[p] == rank;
    if place > 0 {
        assert(list[0].ord() > list[place].ord());
        if place > 1 {
            assert(list[1].ord() > list[place].ord());
        }
    }
}

/// A falling list that holds two ranks begins with ranks that are no lower.
proof fn lemma_two_heads(list: Seq<Rank>, high: Rank, low: Rank)
    requires
        strictly_falling(list),
        list.contains(high),
        list.contains(low),
        high.ord() > low.ord(),
    ensures
        list.len() >= 2,
        list[0].ord() >= high.ord(),
        list[1].ord() >= low.ord(),
        list[0] == high && list[1] != low ==> list.len() >= 3 && list[2].ord() >= low.ord(),
{
    let part = seq![high, low];
    let first = lemma_dominates(list, part, 0);
    let second = lemma_dominates(list, part, 1);
    if list[0] == high && list[1] != low {
        if second == 0 {
            assert(list[0] == low);
        }
        if second > 2 {
            assert(list[2].ord() > list[second].ord());
        }
    }
}

/// The highest of the first ranks of three lists is no lower than the first
/// rank of any of them.
proof fn lemma_highest_head(a: Seq<Rank>, b: Seq<Rank>, c: Seq<Rank>)
    ensures
        a.len() > 0 ==> highest(heads(a, b, c)).ord() >= a[0].ord(),
        b.len() > 0 ==> highest(heads(a, b, c)).ord() >= b[0].ord(),
        c.len() > 0 ==> highest(heads(a, b, c)).ord() >= c[0].ord(),
        a.len() + b.len() + c.len() > 0 ==> {
            ||| a.len() > 0 && highest(heads(a, b, c)) == a[0]
            ||| b.len() > 0 && highest(heads(a, b, c)) == b[0]
            ||| c.len() > 0 && highest(heads(a, b, c)) == c[0]
        },
{
    reveal_with_fuel(highest, 4);
    let all = heads(a, b, c);
    if all.len() == 3 {
        assert(all.drop_last().drop_last() =~= seq![a[0]]);
        assert(all.drop_last() =~= seq![a[0], b[0]]);
        assert(all.drop_last().last() == b[0]);
        assert(all.last() == c[0]);
    } else if all.len() == 2 {
        assert(all.drop_last().len() == 1);
    }
}

/// A hand lists as many cards as it holds.
proof fn lemma_size(hand: CardSet)
    ensures
        hand.desc().len() == hand@.len(),
{
    hand.lemma_model();
}

/// A hand that holds a pair and three other ranks is worth no less than the
/// pair with these kickers.
proof fn lemma_beats_pair(hand: CardSet, value: HandEvaluation)
    requires
        hand.wf(),
        5 <= hand@.len() <= 7,
        value is Pair,
        makes(hand@, value),
    ensures
        !value_of(hand).loses_to(value),
{
    let cards = hand.desc();
    lemma_size(hand);
    lemma_first_found(cards);
    lemma_loses(value_of(hand), value);
    lemma_lists_fall(hand);
    let classes = rank_classes(cards);
    match value {
        HandEvaluation::Pair { rank, kickers_sorted_desc: k } => {
            lemma_in_class(hand, rank);
            lemma_in_class(hand, k[0]);
            lemma_in_class(hand, k[1]);
            lemma_in_class(hand, k[2]);
            if rank_count(hand@, rank) == 2 {
                lemma_head(classes.pairs, rank);
            }
            if rank_count(hand@, rank) == 3 {
                lemma_head(classes.trips, rank);
            }
            assert(value_of(hand).kind() >= 1);
            if value_of(hand).kind() == 1 {
                assert(classes.pairs.len() < 2);
                assert(classes.trips.len() == 0);
                assert(classes.pairs[0] == rank);
                lemma_not_paired(hand, rank, k[0]);
                lemma_not_paired(hand, rank, k[1]);
                lemma_not_paired(hand, rank, k[2]);
                let part = seq![k[0], k[1], k[2]];
                lemma_singles_top(hand, part);
                assert(classes.singles[0].ord() >= part[0].ord());
                assert(classes.singles[1].ord() >= part[1].ord());
                assert(classes.singles[2].ord() >= part[2].ord());
            }
        },
        _ => {},
    }
}

/// In a hand with one pair, no triple and no four of a rank, every other
/// rank that the hand holds is a single rank.
proof fn lemma_not_paired(hand: CardSet, pair: Rank, rank: Rank)
    requires
        hand.wf(),
        hand@.len() <= 7,
        has(hand@, rank, 1),
        rank != pair,
        ranks_counted(hand.desc(), 2, 0).len() < 2,
        ranks_counted(hand.desc(), 2, 0).contains(pair),
        ranks_counted(hand.desc(), 3, 0).len() == 0,
        ranks_counted(hand.desc(), 4, 0).len() == 0,
    ensures
        ranks_counted(hand.desc(), 1, 0).contains(rank),
{
    lemma_in_class(hand, rank);
    lemma_lists_fall(hand);
    let pairs = ranks_counted(hand.desc(), 2, 0);
    if pairs.contains(rank) {
        lemma_head(pairs, rank);
        lemma_head(pairs, pair);
    }
    if ranks_counted(hand.desc(), 3, 0).contains(rank) {
        lemma_head(ranks_counted(hand.desc(), 3, 0), rank);
    }
    if ranks_counted(hand.desc(), 4, 0).contains(rank) {
        lemma_head(ranks_counted(hand.desc(), 4, 0), rank);
    }
}

/// A falling list that begins with two ranks and holds a third has a third
/// place, with a rank that is no lower than the third.
proof fn lemma_third(list: Seq<Rank>, rank: Rank)
    requires
        strictly_falling(list),
        list.len() >= 2,
        list.contains(rank),
        rank != list[0],
        rank != list[1],
    ensures
        list.len() >= 3,
        list[2].ord() >= rank.ord(),
{
    let place = choose|p: int| 0 <= p < list.len() && list[p] == rank;
    if place > 2 {
        assert(list[2].ord() > list[place].ord());
    }
}

/// A hand that holds two pairs and another rank is worth no less than the
/// two pairs with this kicker.
proof fn lemma_beats_two_pair(hand: CardSet, value: HandEvaluation)
    requires
        hand.wf(),
        5 <= hand@.len() <= 7,
        value is TwoPair,
        makes(hand@, value),
    ensures
        !value_of(hand).loses_to(value),
{
    let cards = hand.desc();
    lemma_size(hand);
    lemma_first_found(cards);
    lemma_loses(value_of(hand), value);
    lemma_lists_fall(hand);
    let classes = rank_classes(cards);
    match value {
        HandEvaluation::TwoPair { higher_rank, lower_rank, kicker } => {
            lemma_in_class(hand, higher_rank);
            lemma_in_class(hand, lower_rank);
            lemma_in_class(hand, kicker);
            if rank_count(hand@, higher_rank) == 3 {
                lemma_head(classes.trips, higher_rank);
                if rank_count(hand@, lower_rank) == 3 {
                    lemma_two_heads(classes.trips, higher_rank, lower_rank);
                }
                if rank_count(hand@, lower_rank) == 2 {
                    lemma_head(classes.pairs, lower_rank);
                }
            }
            if rank_count(hand@, lower_rank) == 3 {
                lemma_head(classes.trips, lower_rank);
                if rank_count(hand@, higher_rank) == 2 {
                    lemma_head(classes.pairs, higher_rank);
                }
            }
            if rank_count(hand@, higher_rank) == 4 {
                lemma_head(ranks_counted(cards, 4, 0), higher_rank);
            }
            if rank_count(hand@, lower_rank) == 4 {
                lemma_head(ranks_counted(cards, 4, 0), lower_rank);
            }
            if rank_count(hand@, higher_rank) == 2 && rank_count(hand@, lower_rank) == 2 {
                lemma_two_heads(classes.pairs, higher_rank, lower_rank);
            }
            assert(value_of(hand).kind() >= 2);
            if value_of(hand).kind() == 2 {
                assert(classes.trips.len() == 0);
                let found = highest(heads(classes.pairs.skip(2), classes.singles, Seq::empty()));
                lemma_highest_head(classes.pairs.skip(2), classes.singles, Seq::empty());
                if classes.pairs[0] == higher_rank && classes.pairs[1] == lower_rank {
                    if rank_count(hand@, kicker) == 2 {
                        lemma_third(classes.pairs, kicker);
                        assert(classes.pairs.skip(2)[0] == classes.pairs[2]);
                    } else {
                        if rank_count(hand@, kicker) == 3 {
                            lemma_head(classes.trips, kicker);
                        }
                        if rank_count(hand@, kicker) == 4 {
                            lemma_head(ranks_counted(cards, 4, 0), kicker);
                        }
                        lemma_singles_top(hand, seq![kicker]);
                        assert(classes.singles[0].ord() >= seq![kicker][0].ord());
                    }
                    assert(found.ord() >= kicker.ord());
                }
            }
        },
        _ => {},
    }
}

/// A hand that holds a triple and two other ranks is worth no less than the
/// triple with these kickers.
proof fn lemma_beats_trips(hand: CardSet, value: HandEvaluation)
    requires
        hand.wf(),
        5 <= hand@.len() <= 7,
        value is ThreeOfAKind,
        makes(hand@, value),
    ensures
        !value_of(hand).loses_to(value),
{
    let cards = hand.desc();
    lemma_size(hand);
    lemma_first_found(cards);
    lemma_loses(value_of(hand), value);
    lemma_lists_fall(hand);
    let classes = rank_classes(cards);
    match value {
        HandEvaluation::ThreeOfAKind { rank, kickers_sorted_desc: k } => {
            lemma_in_class(hand, rank);
            lemma_in_class(hand, k[0]);
            lemma_in_class(hand, k[1]);
            if rank_count(hand@, rank) == 3 {
                lemma_head(classes.trips, rank);
            }
            if rank_count(hand@, rank) == 4 {
                lemma_head(ranks_counted(cards, 4, 0), rank);
            }
            assert(value_of(hand).kind() >= 3);
            if value_of(hand).kind() == 3 {
                assert(classes.trips.len() == 1);
                assert(classes.pairs.len() == 0);
                assert(classes.trips[0] == rank);
                lemma_lone(hand, k[0]);
                lemma_lone(hand, k[1]);
                let part = seq![k[0], k[1]];
                lemma_singles_top(hand, part);
                assert(classes.singles[0].ord() >= part[0].ord());
                assert(classes.singles[1].ord() >= part[1].ord());
            }
        },
        _ => {},
    }
}

/// In a hand with one triple, no pair and no four of a rank, every rank
/// that the hand holds, but that of the triple, is a single rank.
proof fn lemma_lone(hand: CardSet, rank: Rank)
    requires
        hand.wf(),
        hand@.len() <= 7,
        has(hand@, rank, 1),
        ranks_counted(hand.desc(), 3, 0).len() == 1,
        ranks_counted(hand.desc(), 3, 0)[0] != rank,
        ranks_counted(hand.desc(), 2, 0).len() == 0,
        ranks_counted(hand.desc(), 4, 0).len() == 0,
    ensures
        ranks_counted(hand.desc(), 1, 0).contains(rank),
{
    lemma_in_class(hand, rank);
    lemma_lists_fall(hand);
    if ranks_counted(hand.desc(), 2, 0).contains(rank) {
        lemma_head(ranks_counted(hand.desc(), 2, 0), rank);
    }
    if ranks_counted(hand.desc(), 3, 0).contains(rank) {
        lemma_head(ranks_counted(hand.desc(), 3, 0), rank);
    }
    if ranks_counted(hand.desc(), 4, 0).contains(rank) {
        lemma_head(ranks_counted(hand.desc(), 4, 0), rank);
    }
}

/// A hand that holds a triple and a pair is worth no less than the full
/// house of the two.
proof fn lemma_beats_full_house(hand: CardSet, value: HandEvaluation)
    requires
        hand.wf(),
        5 <= hand@.len() <= 7,
        value is FullHouse,
        makes(hand@, value),
    ensures
        !value_of(hand).loses_to(value),
{
    let cards = hand.desc();
    lemma_size(hand);
    lemma_first_found(cards);
    lemma_loses(value_of(hand), value);
    lemma_lists_fall(hand);
    let classes = rank_classes(cards);
    match value {
        HandEvaluation::FullHouse { triple, pair } => {
            lemma_in_class(hand, triple);
            lemma_in_class(hand, pair);
            if rank_count(hand@, triple) == 4 {
                lemma_head(ranks_counted(cards, 4, 0), triple);
            }
            if rank_count(hand@, pair) == 4 {
                lemma_head(ranks_counted(cards, 4, 0), pair);
            }
            if rank_count(hand@, triple) == 3 {
                lemma_head(classes.trips, triple);
                if rank_count(hand@, pair) == 3 {
                    lemma_head(classes.trips, pair);
                }
                if rank_count(hand@, pair) == 2 {
                    lemma_head(classes.pairs, pair);
                }
            }
            assert(value_of(hand).kind() >= 6);
        },
        _ => {},
    }
}

/// A hand that holds four of a rank and another rank is worth no less than
/// the four with this kicker.
proof fn lemma_beats_four(hand: CardSet, value: HandEvaluation)
    requires
        hand.wf(),
        5 <= hand@.len() <= 7,
        value is FourOfAKind,
        makes(hand@, value),
    ensures
        !value_of(hand).loses_to(value),
{
    let cards = hand.desc();
    lemma_size(hand);
    lemma_first_found(cards);
    lemma_loses(value_of(hand), value);
    lemma_lists_fall(hand);
    let classes = rank_classes(cards);
    match value {
        HandEvaluation::FourOfAKind { rank, kicker } => {
            lemma_in_class(hand, rank);
            lemma_in_class(hand, kicker);
            let fours = ranks_counted(cards, 4, 0);
            lemma_head(fours, rank);
            assert(fours.len() == 1);
            assert(classes.four == Some(rank));
            assert(value_of(hand).kind() >= 7);
            if value_of(hand).kind() == 7 {
                lemma_highest_head(classes.trips, classes.pairs, classes.singles);
                if rank_count(hand@, kicker) == 3 {
                    lemma_head(classes.trips, kicker);
                } else if rank_count(hand@, kicker) == 2 {
                    lemma_head(classes.pairs, kicker);
                } else {
                    if rank_count(hand@, kicker) == 4 {
                        lemma_head(fours, kicker);
                    }
                    lemma_singles_top(hand, seq![kicker]);
                    assert(classes.singles[0].ord() >= seq![kicker][0].ord());
                }
            }
        },
        _ => {},
    }
}

/// The suit of which a hand of seven cards or fewer holds five cards is the
/// one that decides its flush and its straight flush.
proof fn lemma_long_suit(hand: CardSet, suit: Suit)
    requires
        hand.wf(),
        hand@.len() <= 7,
        suited(hand.desc(), suit).len() >= 5,
    ensures
        flush_of(suit_lists(hand.desc()), 0) == flush_in(suited(hand.desc(), suit)),
        straight_flush_of(suit_lists(hand.desc()), 0) == straight_flush_in(
            suited(hand.desc(), suit),
        ),
{
    lemma_size(hand);
    lemma_suit_list(hand, suit);
    let long = lemma_one_long(hand.desc());
    lemma_long_suit_decides(suit_lists(hand.desc()), long);
    assert(suit_lists(hand.desc())[suit.ord()].len() >= 5);
    assert(long == suit.ord());
}

/// A hand that holds five cards of a suit is worth no less than the flush
/// of these cards.
proof fn lemma_beats_flush_of_suit(hand: CardSet, suit: Suit, ranks: [Rank; 5])
    requires
        hand.wf(),
        5 <= hand@.len() <= 7,
        flush_of_suit(hand@, suit, ranks),
    ensures
        !value_of(hand).loses_to(HandEvaluation::Flush { ranks_sorted_desc: ranks }),
{
    let cards = hand.desc();
    let value = HandEvaluation::Flush { ranks_sorted_desc: ranks };
    lemma_size(hand);
    lemma_first_found(cards);
    lemma_loses(value_of(hand), value);
    lemma_suit_list(hand, suit);
    let list = suited(cards, suit);
    let part = seq![ranks[0], ranks[1], ranks[2], ranks[3], ranks[4]];
    assert forall|k: int| 0 <= k < part.len() implies list.contains(#[trigger] part[k]) by {}
    lemma_dominates(list, part, 0);
    lemma_dominates(list, part, 1);
    lemma_dominates(list, part, 2);
    lemma_dominates(list, part, 3);
    lemma_dominates(list, part, 4);
    lemma_long_suit(hand, suit);
    assert(value_of(hand).kind() >= 5);
}

/// A hand that holds five cards of a suit is worth no less than the flush
/// of these cards.
proof fn lemma_beats_flush(hand: CardSet, value: HandEvaluation)
    requires
        hand.wf(),
        5 <= hand@.len() <= 7,
        value is Flush,
        makes(hand@, value),
    ensures
        !value_of(hand).loses_to(value),
{
    match value {
        HandEvaluation::Flush { ranks_sorted_desc } => {
            if flush_of_suit(hand@, Suit::Club, ranks_sorted_desc) {
                lemma_beats_flush_of_suit(hand, Suit::Club, ranks_sorted_desc);
            } else if flush_of_suit(hand@, Suit::Diamond, ranks_sorted_desc) {
                lemma_beats_flush_of_suit(hand, Suit::Diamond, ranks_sorted_desc);
            } else if flush_of_suit(hand@, Suit::Heart, ranks_sorted_desc) {
                lemma_beats_flush_of_suit(hand, Suit::Heart, ranks_sorted_desc);
            } else {
                lemma_beats_flush_of_suit(hand, Suit::Spade, ranks_sorted_desc);
            }
        },
        _ => {},
    }
}

/// The highest run of a list is no lower than any run of the list.
proof fn lemma_run_found(ranks: Seq<Rank>, t: int, from: int)
    requires
        run_at(ranks, t),
        t <= from <= 12,
    ensures
        highest_run(ranks, from) is Some,
        highest_run(ranks, from).unwrap().ord() >= t,
    decreases from,
{
    if !run_at(ranks, from) {
        lemma_run_found(ranks, t, from - 1);
    }
}

/// The top of the highest run of a list is the top of a run of the list.
proof fn lemma_run_held(ranks: Seq<Rank>, from: int)
    requires
        from <= 12,
    ensures
        highest_run(ranks, from) matches Some(top) ==> run_at(ranks, top.ord()) && 4
            <= top.ord() <= from,
    decreases from,
{
    if from >= 4 && !run_at(ranks, from) {
        lemma_run_held(ranks, from - 1);
    }
}

/// A falling list that holds the ranks of a straight holds a straight that
/// is no lower.
proof fn lemma_straight_found(ranks: Seq<Rank>, top: Rank)
    requires
        falling(ranks),
        if top == Rank::Five {
            wheel(ranks)
        } else {
            run_at(ranks, top.ord())
        },
    ensures
        straight_top(ranks) is Some,
        straight_top(ranks).unwrap().ord() >= top.ord(),
{
    lemma_scanner_finds_best(ranks);
    lemma_run_held(ranks, 12);
    if top != Rank::Five {
        lemma_run_found(ranks, top.ord(), 12);
    }
}

/// A hand that holds a card of each rank of a straight is worth no less
/// than the straight.
proof fn lemma_beats_straight(hand: CardSet, value: HandEvaluation)
    requires
        hand.wf(),
        5 <= hand@.len() <= 7,
        value is Straight,
        makes(hand@, value),
    ensures
        !value_of(hand).loses_to(value),
{
    let cards = hand.desc();
    lemma_size(hand);
    lemma_first_found(cards);
    lemma_loses(value_of(hand), value);
    lemma_hand_ranks_fall(hand);
    match value {
        HandEvaluation::Straight { highest_rank } => {
            let ranks = ranks_of(cards);
            if highest_rank != Rank::Five {
                let t = highest_rank.ord();
                assert(Rank::at(t) == highest_rank);
                assert(holds(ranks, t));
                assert(holds(ranks, t - 1));
                assert(holds(ranks, t - 2));
                assert(holds(ranks, t - 3));
                assert(holds(ranks, t - 4));
            } else {
                assert(Rank::at(12) == Rank::Ace);
                assert(Rank::at(3) == Rank::Five);
                assert(Rank::at(2) == Rank::Four);
                assert(Rank::at(1) == Rank::Three);
                assert(Rank::at(0) == Rank::Two);
                assert(holds(ranks, 12));
                assert(holds(ranks, 3));
                assert(holds(ranks, 2));
                assert(holds(ranks, 1));
                assert(holds(ranks, 0));
            }
            lemma_straight_found(ranks, highest_rank);
            assert(value_of(hand).kind() >= 4);
        },
        _ => {},
    }
}

/// A falling list holds the rank at a place where it holds the rank.
proof fn lemma_holds_rank(list: Seq<Rank>, rank: Rank)
    ensures
        list.contains(rank) ==> holds(list, rank.ord()),
{
    if list.contains(rank) {
        let j = choose|j: int| 0 <= j < list.len() && list[j] == rank;
        assert(list[j].ord() == rank.ord());
    }
}

/// The ranks of the straight with the top `top`, from the highest down, with
/// the ace first for the straight to the five.
spec fn straight_list(top: Rank) -> Seq<Rank> {
    if top == Rank::Five {
        seq![Rank::Ace, Rank::Five, Rank::Four, Rank::Three, Rank::Two]
    } else {
        seq![
            top,
            Rank::at(top.ord() - 1),
            Rank::at(top.ord() - 2),
            Rank::at(top.ord() - 3),
            Rank::at(top.ord() - 4),
        ]
    }
}

/// A falling list that holds the ranks of a straight holds five ranks, and
/// the straight.
proof fn lemma_list_holds_straight(list: Seq<Rank>, top: Rank)
    requires
        strictly_falling(list),
        top == Rank::Five || top.ord() >= 4,
        forall|k: int| 0 <= k < 5 ==> list.contains(#[trigger] straight_list(top)[k]),
    ensures
        list.len() >= 5,
        falling(list),
        if top == Rank::Five {
            wheel(list)
        } else {
            run_at(list, top.ord())
        },
{
    let part = straight_list(top);
    let place = lemma_dominates(list, part, 4);
    assert(list.contains(part[0]));
    assert(list.contains(part[1]));
    assert(list.contains(part[2]));
    assert(list.contains(part[3]));
    assert(list.contains(part[4]));
    lemma_holds_rank(list, part[0]);
    lemma_holds_rank(list, part[1]);
    lemma_holds_rank(list, part[2]);
    lemma_holds_rank(list, part[3]);
    lemma_holds_rank(list, part[4]);
}

/// The ranks of a suit of which a hand holds the cards of a straight: five
/// or more, with a straight that is no lower.
proof fn lemma_suit_holds_straight(hand: CardSet, suit: Suit, top: Rank)
    requires
        hand.wf(),
        hand@.len() <= 7,
        straight_of_suit(hand@, suit, top),
    ensures
        suited(hand.desc(), suit).len() >= 5,
        straight_top(suited(hand.desc(), suit)) is Some,
        straight_top(suited(hand.desc(), suit)).unwrap().ord() >= top.ord(),
{
    lemma_suit_list(hand, suit);
    let list = suited(hand.desc(), suit);
    let part = straight_list(top);
    assert(list.contains(part[0]));
    assert(list.contains(part[1]));
    assert(list.contains(part[2]));
    assert(list.contains(part[3]));
    assert(list.contains(part[4]));
    lemma_list_holds_straight(list, top);
    lemma_straight_found(list, top);
}

/// A hand that holds the cards of a straight of one suit is worth no less
/// than the straight flush.
proof fn lemma_beats_straight_of_suit(hand: CardSet, suit: Suit, top: Rank)
    requires
        hand.wf(),
        5 <= hand@.len() <= 7,
        straight_of_suit(hand@, suit, top),
    ensures
        !value_of(hand).loses_to(HandEvaluation::StraightFlush { highest_rank: top }),
{
    let cards = hand.desc();
    let value = HandEvaluation::StraightFlush { highest_rank: top };
    lemma_size(hand);
    lemma_first_found(cards);
    lemma_loses(value_of(hand), value);
    lemma_suit_holds_straight(hand, suit, top);
    lemma_long_suit(hand, suit);
}

/// A hand that holds the cards of a straight of one suit is worth no less
/// than the straight flush.
proof fn lemma_beats_straight_flush(hand: CardSet, value: HandEvaluation)
    requires
        hand.wf(),
        5 <= hand@.len() <= 7,
        value is StraightFlush,
        makes(hand@, value),
    ensures
        !value_of(hand).loses_to(value),
{
    match value {
        HandEvaluation::StraightFlush { highest_rank } => {
            if straight_of_suit(hand@, Suit::Club, highest_rank) {
                lemma_beats_straight_of_suit(hand, Suit::Club, highest_rank);
            } else if straight_of_suit(hand@, Suit::Diamond, highest_rank) {
                lemma_beats_straight_of_suit(hand, Suit::Diamond, highest_rank);
            } else if straight_of_suit(hand@, Suit::Heart, highest_rank) {
                lemma_beats_straight_of_suit(hand, Suit::Heart, highest_rank);
            } else {
                lemma_beats_straight_of_suit(hand, Suit::Spade, highest_rank);
            }
        },
        _ => {},
    }
}

/// A hand that holds five cards that make a hand is worth no less than that
/// hand.
pub proof fn lemma_worth_what_it_holds(hand: CardSet, value: HandEvaluation)
    requires
        hand.wf(),
        5 <= hand@.len() <= 7,
        makes(hand@, value),
    ensures
        !value_of(hand).loses_to(value),
{
    match value {
        HandEvaluation::HighCard { .. } => lemma_beats_high_card(hand, value),
        HandEvaluation::Pair { .. } => lemma_beats_pair(hand, value),
        HandEvaluation::TwoPair { .. } => lemma_beats_two_pair(hand, value),
        HandEvaluation::ThreeOfAKind { .. } => lemma_beats_trips(hand, value),
        HandEvaluation::Straight { .. } => lemma_beats_straight(hand, value),
        HandEvaluation::Flush { .. } => lemma_beats_flush(hand, value),
        HandEvaluation::FullHouse { .. } => lemma_beats_full_house(hand, value),
        HandEvaluation::FourOfAKind { .. } => lemma_beats_four(hand, value),
        HandEvaluation::StraightFlush { .. } => lemma_beats_straight_flush(hand, value),
    }
}

/// A rank that stands in one of the lists of the evaluator is a rank of the
/// hand, as often as the list says.
proof fn lemma_listed(hand: CardSet, times: nat, i: int)
    requires
        hand.wf(),
        hand@.len() <= 7,
        1 <= times <= 4,
        0 <= i < ranks_counted(hand.desc(), times, 0).len(),
    ensures
        rank_count(hand@, ranks_counted(hand.desc(), times, 0)[i]) == times,
{
    let list = ranks_counted(hand.desc(), times, 0);
    assert(list.contains(list[i]));
    lemma_in_class(hand, list[i]);
}

/// The lists of a hand of which the evaluator makes a hand with its pairs
/// or with its single ranks alone.
proof fn lemma_plain_lists(hand: CardSet)
    requires
        hand.wf(),
        5 <= hand@.len() <= 7,
        value_of(hand).kind() <= 3,
    ensures
        ranks_counted(hand.desc(), 4, 0).len() == 0,
        ranks_counted(hand.desc(), 3, 0).len() == if value_of(hand).kind() == 3 {
            1nat
        } else {
            0nat
        },
        value_of(hand).kind() == 3 ==> ranks_counted(hand.desc(), 2, 0).len() == 0,
        value_of(hand).kind() == 2 ==> ranks_counted(hand.desc(), 2, 0).len() >= 2,
        value_of(hand).kind() == 1 ==> ranks_counted(hand.desc(), 2, 0).len() == 1,
        value_of(hand).kind() == 0 ==> ranks_counted(hand.desc(), 2, 0).len() == 0,
        rank_classes(hand.desc()).singles.len() >= 5 - 3 * ranks_counted(hand.desc(), 3, 0).len()
            - 2 * ranks_counted(hand.desc(), 2, 0).len(),
        forall|i: int|
            0 <= i < rank_classes(hand.desc()).singles.len() ==> #[trigger] rank_classes(
                hand.desc(),
            ).singles[i] == ranks_counted(hand.desc(), 1, 0)[i],
        rank_classes(hand.desc()).singles.len() <= ranks_counted(hand.desc(), 1, 0).len(),
{
    lemma_size(hand);
    lemma_first_found(hand.desc());
    lemma_lists_fall(hand);
}

/// The five cards of a high card, a pair, two pairs or a triple with its
/// kickers are cards of the hand that is worth so much.
proof fn lemma_makes_plain(hand: CardSet)
    requires
        hand.wf(),
        5 <= hand@.len() <= 7,
        value_of(hand).kind() <= 3,
    ensures
        makes(hand@, value_of(hand)),
{
    let cards = hand.desc();
    let classes = rank_classes(cards);
    let singles = ranks_counted(cards, 1, 0);
    let pairs = ranks_counted(cards, 2, 0);
    let trips = ranks_counted(cards, 3, 0);
    lemma_size(hand);
    lemma_first_found(cards);
    lemma_lists_fall(hand);
    lemma_plain_lists(hand);
    let kind = value_of(hand).kind();
    if kind == 0 {
        lemma_listed(hand, 1, 0);
        lemma_listed(hand, 1, 1);
        lemma_listed(hand, 1, 2);
        lemma_listed(hand, 1, 3);
        lemma_listed(hand, 1, 4);
        assert(classes.singles[0] == singles[0]);
        assert(classes.singles[1] == singles[1]);
        assert(classes.singles[2] == singles[2]);
        assert(classes.singles[3] == singles[3]);
        assert(classes.singles[4] == singles[4]);
    } else if kind == 1 {
        lemma_listed(hand, 2, 0);
        lemma_listed(hand, 1, 0);
        lemma_listed(hand, 1, 1);
        lemma_listed(hand, 1, 2);
        assert(classes.singles[0] == singles[0]);
        assert(classes.singles[1] == singles[1]);
        assert(classes.singles[2] == singles[2]);
    } else if kind == 2 {
        lemma_listed(hand, 2, 0);
        lemma_listed(hand, 2, 1);
        lemma_highest_head(classes.pairs.skip(2), classes.singles, Seq::empty());
        if pairs.len() >= 3 {
            lemma_listed(hand, 2, 2);
            assert(classes.pairs.skip(2)[0] == pairs[2]);
        }
        if classes.singles.len() > 0 {
            lemma_listed(hand, 1, 0);
            assert(classes.singles[0] == singles[0]);
        }
    } else {
        lemma_listed(hand, 3, 0);
        lemma_listed(hand, 1, 0);
        lemma_listed(hand, 1, 1);
        assert(classes.singles[0] == singles[0]);
        assert(classes.singles[1] == singles[1]);
    }
}

/// The cards of a full house or of four of a rank with their kicker are
/// cards of the hand that is worth so much.
proof fn lemma_makes_full(hand: CardSet)
    requires
        hand.wf(),
        5 <= hand@.len() <= 7,
        value_of(hand).kind() == 6 || value_of(hand).kind() == 7,
    ensures
        makes(hand@, value_of(hand)),
{
    let cards = hand.desc();
    let classes = rank_classes(cards);
    let singles = ranks_counted(cards, 1, 0);
    let pairs = ranks_counted(cards, 2, 0);
    let trips = ranks_counted(cards, 3, 0);
    let fours = ranks_counted(cards, 4, 0);
    lemma_size(hand);
    lemma_first_found(cards);
    lemma_lists_fall(hand);
    if value_of(hand).kind() == 6 {
        lemma_listed(hand, 3, 0);
        if trips.len() >= 2 {
            lemma_listed(hand, 3, 1);
        } else {
            lemma_listed(hand, 2, 0);
        }
    } else {
        lemma_listed(hand, 4, fours.len() - 1);
        lemma_highest_head(classes.trips, classes.pairs, classes.singles);
        if trips.len() > 0 {
            lemma_listed(hand, 3, 0);
        }
        if pairs.len() > 0 {
            lemma_listed(hand, 2, 0);
        }
        if singles.len() > 0 {
            lemma_listed(hand, 1, 0);
            assert(classes.singles[0] == singles[0]);
        }
    }
}

/// A list holds the rank at a place at which it holds a rank.
proof fn lemma_rank_held(list: Seq<Rank>, q: int)
    requires
        0 <= q < 13,
    ensures
        holds(list, q) ==> list.contains(Rank::at(q)),
{
    if holds(list, q) {
        let j = choose|j: int| 0 <= j < list.len() && (#[trigger] list[j]).ord() == q;
        assert(list[j] == Rank::at(q));
    }
}

/// What a falling list holds where the scanner finds a straight in it: the
/// ranks of the straight.
proof fn lemma_straight_held(list: Seq<Rank>)
    requires
        falling(list),
        straight_top(list) is Some,
    ensures
        ({
            let top = straight_top(list).unwrap();
            &&& top == Rank::Five || top.ord() >= 4
            &&& forall|k: int| 0 <= k < 5 ==> list.contains(#[trigger] straight_list(top)[k])
        }),
{
    lemma_scanner_finds_best(list);
    lemma_run_held(list, 12);
    let top = straight_top(list).unwrap();
    lemma_rank_held(list, 12);
    lemma_rank_held(list, 3);
    lemma_rank_held(list, 2);
    lemma_rank_held(list, 1);
    lemma_rank_held(list, 0);
    if top != Rank::Five {
        assert(run_at(list, top.ord()));
        lemma_rank_held(list, top.ord());
        lemma_rank_held(list, top.ord() - 1);
        lemma_rank_held(list, top.ord() - 2);
        lemma_rank_held(list, top.ord() - 3);
        lemma_rank_held(list, top.ord() - 4);
        assert(Rank::at(top.ord()) == top);
    }
    let part = straight_list(top);
    assert(list.contains(part[0]));
    assert(list.contains(part[1]));
    assert(list.contains(part[2]));
    assert(list.contains(part[3]));
    assert(list.contains(part[4]));
}

/// The cards of a straight are cards of the hand that is worth so much.
proof fn lemma_makes_straight(hand: CardSet)
    requires
        hand.wf(),
        5 <= hand@.len() <= 7,
        value_of(hand).kind() == 4,
    ensures
        makes(hand@, value_of(hand)),
{
    let cards = hand.desc();
    let ranks = ranks_of(cards);
    lemma_size(hand);
    lemma_first_found(cards);
    lemma_hand_ranks_fall(hand);
    lemma_straight_held(ranks);
    let top = straight_top(ranks).unwrap();
    let part = straight_list(top);
    assert forall|k: int| 0 <= k < 5 implies has(hand@, #[trigger] part[k], 1) by {
        assert(ranks.contains(part[k]));
        lemma_holds_rank(ranks, part[k]);
        assert(Rank::at(part[k].ord()) == part[k]);
    }
    assert(has(hand@, part[0], 1));
    assert(has(hand@, part[1], 1));
    assert(has(hand@, part[2], 1));
    assert(has(hand@, part[3], 1));
    assert(has(hand@, part[4], 1));
}

/// The cards of a flush or a straight flush are cards of the hand that is
/// worth so much.
proof fn lemma_makes_suited(hand: CardSet)
    requires
        hand.wf(),
        5 <= hand@.len() <= 7,
        value_of(hand).kind() == 5 || value_of(hand).kind() == 8,
    ensures
        makes(hand@, value_of(hand)),
{
    let cards = hand.desc();
    lemma_size(hand);
    lemma_first_found(cards);
    let long = lemma_one_long(cards);
    lemma_long_suit_decides(suit_lists(cards), long);
    let suit = Suit::at(long);
    assert(suit.ord() == long);
    lemma_suit_list(hand, suit);
    let list = suited(cards, suit);
    if value_of(hand).kind() == 5 {
        assert(list.contains(list[0]));
        assert(list.contains(list[1]));
        assert(list.contains(list[2]));
        assert(list.contains(list[3]));
        assert(list.contains(list[4]));
        let ranks = [list[0], list[1], list[2], list[3], list[4]];
        assert(flush_of_suit(hand@, suit, ranks));
        assert(value_of(hand) == (HandEvaluation::Flush { ranks_sorted_desc: ranks }));
    } else {
        lemma_straight_needs(list);
        lemma_straight_held(list);
        let top = straight_top(list).unwrap();
        let part = straight_list(top);
        assert(list.contains(part[0]));
        assert(list.contains(part[1]));
        assert(list.contains(part[2]));
        assert(list.contains(part[3]));
        assert(list.contains(part[4]));
        assert(straight_of_suit(hand@, suit, top));
    }
}

/// A list that falls strictly falls.
proof fn lemma_straight_needs(list: Seq<Rank>)
    requires
        strictly_falling(list),
    ensures
        falling(list),
{
}

/// The five cards that make what a hand is worth are cards of the hand.
pub proof fn lemma_holds_what_it_is_worth(hand: CardSet)
    requires
        hand.wf(),
        5 <= hand@.len() <= 7,
    ensures
        makes(hand@, value_of(hand)),
{
    let kind = value_of(hand).kind();
    if kind <= 3 {
        lemma_makes_plain(hand);
    } else if kind == 4 {
        lemma_makes_straight(hand);
    } else if kind == 5 || kind == 8 {
        lemma_makes_suited(hand);
    } else {
        lemma_makes_full(hand);
    }
}

/// The suit of the card of `rank` that the hand holds behind `n` others,
/// going through the suits from the place `from` on.
pub open spec fn nth_suit(cards: Set<Card>, rank: Rank, n: int, from: int) -> Suit
    decreases 4 - from,
{
    if from >= 3 {
        Suit::Spade
    } else if cards.contains(Card { rank, suit: Suit::at(from) }) {
        if n <= 0 {
            Suit::at(from)
        } else {
            nth_suit(cards, rank, n - 1, from + 1)
        }
    } else {
        nth_suit(cards, rank, n, from + 1)
    }
}

/// The card of `rank` that the hand holds behind `n` others of the rank,
/// going through the suits from clubs to spades.
pub open spec fn pick(cards: Set<Card>, rank: Rank, n: int) -> Card {
    Card { rank, suit: nth_suit(cards, rank, n, 0) }
}

/// A hand holds the cards that are picked from it, and they differ.
proof fn lemma_pick(cards: Set<Card>, rank: Rank)
    ensures
        has(cards, rank, 1) ==> cards.contains(pick(cards, rank, 0)),
        has(cards, rank, 2) ==> cards.contains(pick(cards, rank, 1)) && pick(cards, rank, 1)
            != pick(cards, rank, 0),
        has(cards, rank, 3) ==> cards.contains(pick(cards, rank, 2)) && pick(cards, rank, 2)
            != pick(cards, rank, 0) && pick(cards, rank, 2) != pick(cards, rank, 1),
        has(cards, rank, 4) ==> cards.contains(pick(cards, rank, 3)) && pick(cards, rank, 3)
            != pick(cards, rank, 0) && pick(cards, rank, 3) != pick(cards, rank, 1) && pick(
            cards,
            rank,
            3,
        ) != pick(cards, rank, 2),
        pick(cards, rank, 0).rank == rank,
        pick(cards, rank, 1).rank == rank,
        pick(cards, rank, 2).rank == rank,
        pick(cards, rank, 3).rank == rank,
{
    reveal_with_fuel(nth_suit, 5);
}

/// A value that holds five cards that differ, of which a hand holds every
/// one, holds five cards of the hand and no others.
proof fn lemma_five_of(hand: CardSet, a: Card, b: Card, c: Card, d: Card, e: Card) -> (five:
    CardSet)
    requires
        hand@.contains(a),
        hand@.contains(b),
        hand@.contains(c),
        hand@.contains(d),
        hand@.contains(e),
        a != b && a != c && a != d && a != e,
        b != c && b != d && b != e,
        c != d && c != e,
        d != e,
    ensures
        five.wf(),
        five@.len() == 5,
        five@.subset_of(hand@),
        five@ == set![a, b, c, d, e],
{
    let cards = seq![a, b, c, d, e];
    let five = lemma_set_of(cards);
    assert(cards.no_duplicates());
    cards.unique_seq_to_set();
    assert(cards.to_set() =~= set![a, b, c, d, e]) by {
        assert forall|x: Card| cards.to_set().contains(x) <==> set![a, b, c, d, e].contains(
            x,
        ) by {
            if cards.contains(x) {
                let k = choose|k: int| 0 <= k < cards.len() && cards[k] == x;
            }
            assert(cards[0] == a && cards[1] == b && cards[2] == c && cards[3] == d && cards[4]
                == e);
        }
    }
    five
}

/// A hand that holds a rank holds it after more cards come to it.
proof fn lemma_has_cards(five: Set<Card>, rank: Rank, a: Card)
    requires
        five.contains(a),
        a.rank == rank,
    ensures
        has(five, rank, 1),
{
    assert(a == Card { rank, suit: a.suit });
}

/// A hand that holds two cards of a rank holds the rank twice.
proof fn lemma_has_two(five: Set<Card>, rank: Rank, a: Card, b: Card)
    requires
        five.contains(a),
        five.contains(b),
        a.rank == rank,
        b.rank == rank,
        a != b,
    ensures
        has(five, rank, 2),
{
    assert(a == Card { rank, suit: a.suit });
    assert(b == Card { rank, suit: b.suit });
}

/// A hand that holds three cards of a rank holds the rank three times.
proof fn lemma_has_three(five: Set<Card>, rank: Rank, a: Card, b: Card, c: Card)
    requires
        five.contains(a),
        five.contains(b),
        five.contains(c),
        a.rank == rank,
        b.rank == rank,
        c.rank == rank,
        a != b && a != c && b != c,
    ensures
        has(five, rank, 3),
{
    assert(a == Card { rank, suit: a.suit });
    assert(b == Card { rank, suit: b.suit });
    assert(c == Card { rank, suit: c.suit });
}

/// A hand that holds four cards of a rank holds the rank four times.
proof fn lemma_has_four(five: Set<Card>, rank: Rank, a: Card, b: Card, c: Card, d: Card)
    requires
        five.contains(a),
        five.contains(b),
        five.contains(c),
        five.contains(d),
        a.rank == rank,
        b.rank == rank,
        c.rank == rank,
        d.rank == rank,
        a != b && a != c && a != d && b != c && b != d && c != d,
    ensures
        has(five, rank, 4),
{
    assert(a == Card { rank, suit: a.suit });
    assert(b == Card { rank, suit: b.suit });
    assert(c == Card { rank, suit: c.suit });
    assert(d == Card { rank, suit: d.suit });
}

/// Five cards of a hand that make a hand of single ranks: a high card or a
/// straight.
proof fn lemma_five_singles(hand: CardSet, r0: Rank, r1: Rank, r2: Rank, r3: Rank, r4: Rank) -> (five:
    CardSet)
    requires
        r0 != r1 && r0 != r2 && r0 != r3 && r0 != r4,
        r1 != r2 && r1 != r3 && r1 != r4,
        r2 != r3 && r2 != r4,
        r3 != r4,
        has(hand@, r0, 1),
        has(hand@, r1, 1),
        has(hand@, r2, 1),
        has(hand@, r3, 1),
        has(hand@, r4, 1),
    ensures
        five.wf(),
        five@.len() == 5,
        five@.subset_of(hand@),
        has(five@, r0, 1),
        has(five@, r1, 1),
        has(five@, r2, 1),
        has(five@, r3, 1),
        has(five@, r4, 1),
{
    let set = hand@;
    lemma_pick(set, r0);
    lemma_pick(set, r1);
    lemma_pick(set, r2);
    lemma_pick(set, r3);
    lemma_pick(set, r4);
    let a = pick(set, r0, 0);
    let b = pick(set, r1, 0);
    let c = pick(set, r2, 0);
    let d = pick(set, r3, 0);
    let e = pick(set, r4, 0);
    let five = lemma_five_of(hand, a, b, c, d, e);
    lemma_has_cards(five@, r0, a);
    lemma_has_cards(five@, r1, b);
    lemma_has_cards(five@, r2, c);
    lemma_has_cards(five@, r3, d);
    lemma_has_cards(five@, r4, e);
    five
}

/// Five cards of a hand that make a pair with three kickers.
proof fn lemma_five_pair(hand: CardSet, pair: Rank, k0: Rank, k1: Rank, k2: Rank) -> (five: CardSet)
    requires
        pair != k0 && pair != k1 && pair != k2,
        k0 != k1 && k0 != k2 && k1 != k2,
        has(hand@, pair, 2),
        has(hand@, k0, 1),
        has(hand@, k1, 1),
        has(hand@, k2, 1),
    ensures
        five.wf(),
        five@.len() == 5,
        five@.subset_of(hand@),
        has(five@, pair, 2),
        has(five@, k0, 1),
        has(five@, k1, 1),
        has(five@, k2, 1),
{
    let set = hand@;
    lemma_pick(set, pair);
    lemma_pick(set, k0);
    lemma_pick(set, k1);
    lemma_pick(set, k2);
    let a = pick(set, pair, 0);
    let b = pick(set, pair, 1);
    let c = pick(set, k0, 0);
    let d = pick(set, k1, 0);
    let e = pick(set, k2, 0);
    let five = lemma_five_of(hand, a, b, c, d, e);
    lemma_has_two(five@, pair, a, b);
    lemma_has_cards(five@, k0, c);
    lemma_has_cards(five@, k1, d);
    lemma_has_cards(five@, k2, e);
    five
}

/// Five cards of a hand that make two pairs with a kicker.
proof fn lemma_five_two_pair(hand: CardSet, high: Rank, low: Rank, kicker: Rank) -> (five: CardSet)
    requires
        high != low && high != kicker && low != kicker,
        has(hand@, high, 2),
        has(hand@, low, 2),
        has(hand@, kicker, 1),
    ensures
        five.wf(),
        five@.len() == 5,
        five@.subset_of(hand@),
        has(five@, high, 2),
        has(five@, low, 2),
        has(five@, kicker, 1),
{
    let set = hand@;
    lemma_pick(set, high);
    lemma_pick(set, low);
    lemma_pick(set, kicker);
    let a = pick(set, high, 0);
    let b = pick(set, high, 1);
    let c = pick(set, low, 0);
    let d = pick(set, low, 1);
    let e = pick(set, kicker, 0);
    let five = lemma_five_of(hand, a, b, c, d, e);
    lemma_has_two(five@, high, a, b);
    lemma_has_two(five@, low, c, d);
    lemma_has_cards(five@, kicker, e);
    five
}

/// Five cards of a hand that make a triple with two other ranks: with two
/// kickers, or with a pair of one rank.
proof fn lemma_five_triple(hand: CardSet, triple: Rank, k0: Rank, k1: Rank) -> (five: CardSet)
    requires
        triple != k0 && triple != k1,
        has(hand@, triple, 3),
        has(hand@, k0, 1),
        k0 != k1 ==> has(hand@, k1, 1),
        k0 == k1 ==> has(hand@, k0, 2),
    ensures
        five.wf(),
        five@.len() == 5,
        five@.subset_of(hand@),
        has(five@, triple, 3),
        has(five@, k0, 1),
        k0 != k1 ==> has(five@, k1, 1),
        k0 == k1 ==> has(five@, k0, 2),
{
    let set = hand@;
    lemma_pick(set, triple);
    lemma_pick(set, k0);
    lemma_pick(set, k1);
    let a = pick(set, triple, 0);
    let b = pick(set, triple, 1);
    let c = pick(set, triple, 2);
    let d = pick(set, k0, 0);
    let e = if k0 == k1 {
        pick(set, k0, 1)
    } else {
        pick(set, k1, 0)
    };
    let five = lemma_five_of(hand, a, b, c, d, e);
    lemma_has_three(five@, triple, a, b, c);
    lemma_has_cards(five@, k0, d);
    if k0 == k1 {
        lemma_has_two(five@, k0, d, e);
    } else {
        lemma_has_cards(five@, k1, e);
    }
    five
}

/// Five cards of a hand that make four of a rank with a kicker.
proof fn lemma_five_four(hand: CardSet, rank: Rank, kicker: Rank) -> (five: CardSet)
    requires
        rank != kicker,
        has(hand@, rank, 4),
        has(hand@, kicker, 1),
    ensures
        five.wf(),
        five@.len() == 5,
        five@.subset_of(hand@),
        has(five@, rank, 4),
        has(five@, kicker, 1),
{
    let set = hand@;
    lemma_pick(set, rank);
    lemma_pick(set, kicker);
    let a = pick(set, rank, 0);
    let b = pick(set, rank, 1);
    let c = pick(set, rank, 2);
    let d = pick(set, rank, 3);
    let e = pick(set, kicker, 0);
    let five = lemma_five_of(hand, a, b, c, d, e);
    lemma_has_four(five@, rank, a, b, c, d);
    lemma_has_cards(five@, kicker, e);
    five
}

/// Five cards of one suit of a hand.
proof fn lemma_five_suited(
    hand: CardSet,
    suit: Suit,
    r0: Rank,
    r1: Rank,
    r2: Rank,
    r3: Rank,
    r4: Rank,
) -> (five: CardSet)
    requires
        r0 != r1 && r0 != r2 && r0 != r3 && r0 != r4,
        r1 != r2 && r1 != r3 && r1 != r4,
        r2 != r3 && r2 != r4,
        r3 != r4,
        hand@.contains(Card { rank: r0, suit }),
        hand@.contains(Card { rank: r1, suit }),
        hand@.contains(Card { rank: r2, suit }),
        hand@.contains(Card { rank: r3, suit }),
        hand@.contains(Card { rank: r4, suit }),
    ensures
        five.wf(),
        five@.len() == 5,
        five@.subset_of(hand@),
        five@.contains(Card { rank: r0, suit }),
        five@.contains(Card { rank: r1, suit }),
        five@.contains(Card { rank: r2, suit }),
        five@.contains(Card { rank: r3, suit }),
        five@.contains(Card { rank: r4, suit }),
{
    lemma_five_of(
        hand,
        Card { rank: r0, suit },
        Card { rank: r1, suit },
        Card { rank: r2, suit },
        Card { rank: r3, suit },
        Card { rank: r4, suit },
    )
}

/// The ranks of a straight differ.
proof fn lemma_straight_list(top: Rank)
    requires
        top == Rank::Five || top.ord() >= 4,
    ensures
        ({
            let part = straight_list(top);
            &&& part.len() == 5
            &&& part[0] != part[1] && part[0] != part[2] && part[0] != part[3] && part[0]
                != part[4]
            &&& part[1] != part[2] && part[1] != part[3] && part[1] != part[4]
            &&& part[2] != part[3] && part[2] != part[4]
            &&& part[3] != part[4]
        }),
{
}

/// Five cards of the hand make what the hand can make.
pub proof fn lemma_five_make_it(hand: CardSet, value: HandEvaluation) -> (five: CardSet)
    requires
        hand.wf(),
        makes(hand@, value),
    ensures
        five.wf(),
        five@.len() == 5,
        five@.subset_of(hand@),
        makes(five@, value),
{
    match value {
        HandEvaluation::HighCard { rank, kickers_sorted_desc: k } => {
            lemma_five_singles(hand, rank, k[0], k[1], k[2], k[3])
        },
        HandEvaluation::Pair { rank, kickers_sorted_desc: k } => {
            lemma_five_pair(hand, rank, k[0], k[1], k[2])
        },
        HandEvaluation::TwoPair { higher_rank, lower_rank, kicker } => {
            lemma_five_two_pair(hand, higher_rank, lower_rank, kicker)
        },
        HandEvaluation::ThreeOfAKind { rank, kickers_sorted_desc: k } => {
            lemma_five_triple(hand, rank, k[0], k[1])
        },
        HandEvaluation::Straight { highest_rank } => {
            let part = straight_list(highest_rank);
            lemma_straight_list(highest_rank);
            lemma_five_singles(hand, part[0], part[1], part[2], part[3], part[4])
        },
        HandEvaluation::Flush { ranks_sorted_desc: r } => {
            let suit = if flush_of_suit(hand@, Suit::Club, r) {
                Suit::Club
            } else if flush_of_suit(hand@, Suit::Diamond, r) {
                Suit::Diamond
            } else if flush_of_suit(hand@, Suit::Heart, r) {
                Suit::Heart
            } else {
                Suit::Spade
            };
            lemma_five_suited(hand, suit, r[0], r[1], r[2], r[3], r[4])
        },
        HandEvaluation::FullHouse { triple, pair } => lemma_five_triple(hand, triple, pair, pair),
        HandEvaluation::FourOfAKind { rank, kicker } => lemma_five_four(hand, rank, kicker),
        HandEvaluation::StraightFlush { highest_rank } => {
            let suit = if straight_of_suit(hand@, Suit::Club, highest_rank) {
                Suit::Club
            } else if straight_of_suit(hand@, Suit::Diamond, highest_rank) {
                Suit::Diamond
            } else if straight_of_suit(hand@, Suit::Heart, highest_rank) {
                Suit::Heart
            } else {
                Suit::Spade
            };
            let part = straight_list(highest_rank);
            lemma_straight_list(highest_rank);
            lemma_five_suited(hand, suit, part[0], part[1], part[2], part[3], part[4])
        },
    }
}

/// `five` holds five cards of `hand`, and no five cards of `hand` are worth
/// more.
pub open spec fn best_five(five: CardSet, hand: CardSet) -> bool {
    &&& five.wf()
    &&& five@.len() == 5
    &&& five@.subset_of(hand@)
    &&& forall|other: CardSet|
        #![trigger other@]
        other.wf() && other@.len() == 5 && other@.subset_of(hand@) ==> !value_of(five).loses_to(
            value_of(other),
        )
}

/// Two hands of which neither loses to the other are worth the same.
pub proof fn lemma_neither_loses(a: HandEvaluation, b: HandEvaluation)
    requires
        !a.loses_to(b),
        !b.loses_to(a),
    ensures
        a == b,
{
    lemma_loses(a, b);
    lemma_order_total(a.key(), b.key());
    a.lemma_key_decides(b);
}

/// A hand that loses to none that loses to a third does not lose to the
/// third.
pub proof fn lemma_no_less(a: HandEvaluation, b: HandEvaluation, c: HandEvaluation)
    requires
        !a.loses_to(b),
        !b.loses_to(c),
    ensures
        !a.loses_to(c),
{
    lemma_loses(a, b);
    lemma_loses(b, c);
    lemma_order_total(a.key(), b.key());
    lemma_order_total(b.key(), c.key());
    if a.loses_to(c) {
        if a.key() == b.key() {
        } else if b.key() == c.key() {
        } else {
            lemma_order_transitive(c.key(), b.key(), a.key());
            lemma_order_total(a.key(), c.key());
        }
    }
}

/// No five cards of a hand are worth more than the hand.
pub proof fn lemma_no_five_worth_more(hand: CardSet, five: CardSet)
    requires
        hand.wf(),
        5 <= hand@.len() <= 7,
        five.wf(),
        five@.len() == 5,
        five@.subset_of(hand@),
    ensures
        !value_of(hand).loses_to(value_of(five)),
{
    lemma_holds_what_it_is_worth(five);
    lemma_makes_more(five@, hand@, value_of(five));
    lemma_worth_what_it_holds(hand, value_of(five));
}

/// Five cards of a hand are worth what the hand is worth.
pub proof fn lemma_five_worth_as_much(hand: CardSet) -> (five: CardSet)
    requires
        hand.wf(),
        5 <= hand@.len() <= 7,
    ensures
        five.wf(),
        five@.len() == 5,
        five@.subset_of(hand@),
        value_of(five) == value_of(hand),
{
    lemma_holds_what_it_is_worth(hand);
    let five = lemma_five_make_it(hand, value_of(hand));
    lemma_worth_what_it_holds(five, value_of(hand));
    lemma_no_five_worth_more(hand, five);
    lemma_neither_loses(value_of(five), value_of(hand));
    five
}

/// A hand of five to seven cards is worth what its best five cards are
/// worth.
pub proof fn lemma_worth_its_best_five(hand: CardSet, five: CardSet)
    requires
        hand.wf(),
        5 <= hand@.len() <= 7,
        best_five(five, hand),
    ensures
        value_of(hand) == value_of(five),
{
    let as_much = lemma_five_worth_as_much(hand);
    assert(as_much@.len() == 5);
    assert(!value_of(five).loses_to(value_of(as_much)));
    lemma_no_five_worth_more(hand, five);
    lemma_neither_loses(value_of(hand), value_of(five));
}

/// Two hands of five to seven cards whose best five cards are the same five
/// cards are worth the same.
pub proof fn lemma_same_best_five(a: CardSet, b: CardSet, five: CardSet)
    requires
        a.wf(),
        b.wf(),
        5 <= a@.len() <= 7,
        5 <= b@.len() <= 7,
        best_five(five, a),
        best_five(five, b),
    ensures
        postflop_value(a) == postflop_value(b),
{
    lemma_worth_its_best_five(a, five);
    lemma_worth_its_best_five(b, five);
}

} // verus!
