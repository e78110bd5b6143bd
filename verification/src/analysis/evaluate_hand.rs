use crate::analysis::rank_counter::RankCounter;
use crate::analysis::suit_grouping::SuitGrouping;
use crate::cards::card::{Card, Rank, Suit, NUM_RANKS, NUM_SUITS};
use crate::cards::cardset::{lists_descending, CardSet};
use crate::datastructures::stack_vec::StackVec;
use vstd::prelude::*;

verus! {

/// The most cards that a hand holds.
pub const MAX_HAND_SIZE: usize = 7;

/// What a hand of five to seven cards is worth. The variants stand from the
/// weakest to the strongest; inside one variant the fields decide, the first
/// field first.
#[derive(Debug, PartialEq, Eq, Hash, PartialOrd, Ord, Clone, Copy)]
#[allow(inconsistent_fields)]
pub enum HandEvaluation {
    HighCard { rank: Rank, kickers_sorted_desc: [Rank; 4] },
    Pair { rank: Rank, kickers_sorted_desc: [Rank; 3] },
    TwoPair { higher_rank: Rank, lower_rank: Rank, kicker: Rank },
    ThreeOfAKind { rank: Rank, kickers_sorted_desc: [Rank; 2] },
    Straight { highest_rank: Rank },
    Flush { ranks_sorted_desc: [Rank; 5] },
    FullHouse { triple: Rank, pair: Rank },
    FourOfAKind { rank: Rank, kicker: Rank },
    StraightFlush { highest_rank: Rank },
}

/// How many cards of `cards` have the rank `rank`.
pub open spec fn count_rank(cards: Seq<Card>, rank: Rank) -> nat
    decreases cards.len(),
{
    if cards.len() == 0 {
        0
    } else {
        count_rank(cards.drop_last(), rank) + if cards.last().rank == rank {
            1nat
        } else {
            0nat
        }
    }
}

/// How often `card` stands in `cards`.
pub open spec fn count_card(cards: Seq<Card>, card: Card) -> nat
    decreases cards.len(),
{
    if cards.len() == 0 {
        0
    } else {
        count_card(cards.drop_last(), card) + if cards.last() == card {
            1nat
        } else {
            0nat
        }
    }
}

/// The ranks of the cards of `cards` that have the suit `suit`, in the order
/// of `cards`.
pub open spec fn suit_filter(cards: Seq<Card>, suit: Suit) -> Seq<Rank>
    decreases cards.len(),
{
    if cards.len() == 0 {
        Seq::empty()
    } else if cards.last().suit == suit {
        suit_filter(cards.drop_last(), suit).push(cards.last().rank)
    } else {
        suit_filter(cards.drop_last(), suit)
    }
}

/// The ranks of `cards`, card by card.
pub open spec fn ranks_of(cards: Seq<Card>) -> Seq<Rank> {
    Seq::new(cards.len(), |i: int| cards[i].rank)
}

/// The first `cap` elements of `s`, or all of `s` where it has fewer.
pub open spec fn capped<T>(s: Seq<T>, cap: int) -> Seq<T> {
    if s.len() <= cap {
        s
    } else {
        s.take(cap)
    }
}

/// The ranks from `from` up that `cards` holds exactly `times` times, the
/// highest rank first.
pub open spec fn ranks_counted(cards: Seq<Card>, times: nat, from: int) -> Seq<Rank>
    decreases 13 - from,
{
    if from >= 13 {
        Seq::empty()
    } else if count_rank(cards, Rank::at(from)) == times {
        ranks_counted(cards, times, from + 1).push(Rank::at(from))
    } else {
        ranks_counted(cards, times, from + 1)
    }
}

/// The number of cards of `cards` whose rank is `from` or higher.
pub open spec fn cards_ranked_from(cards: Seq<Card>, from: int) -> nat
    decreases 13 - from,
{
    if from >= 13 {
        0
    } else {
        cards_ranked_from(cards, from + 1) + count_rank(cards, Rank::at(from))
    }
}

/// A run of consecutive ranks, as the straight scanner holds it: the rank at
/// its top, its length, and the rank seen last.
pub struct Run {
    pub high: Rank,
    pub len: nat,
    pub last: Rank,
}

/// The run after one more rank: a rank equal to the last one changes nothing,
/// the rank just below the run lengthens it, any other rank starts a new run.
pub open spec fn scan_step(run: Run, rank: Rank) -> Run {
    if rank == run.last {
        run
    } else if run.high.ord() > rank.ord() && run.high.ord() - rank.ord() == run.len {
        Run { high: run.high, len: run.len + 1, last: rank }
    } else {
        Run { high: rank, len: 1, last: rank }
    }
}

/// The run after the ranks of `ranks`; a run of five is kept as it is.
pub open spec fn scan(run: Run, ranks: Seq<Rank>) -> Run
    decreases ranks.len(),
{
    if ranks.len() == 0 || run.len == 5 {
        run
    } else {
        scan(scan_step(run, ranks[0]), ranks.drop_first())
    }
}

/// The top rank of the straight that the scanner finds in `ranks`: the first
/// run of five consecutive ranks, or the wheel (five, four, three and two at
/// the end of the scan, with an ace as the first rank), whose top is the five.
pub open spec fn straight_top(ranks: Seq<Rank>) -> Option<Rank> {
    if ranks.len() == 0 {
        None
    } else {
        let run = scan(Run { high: ranks[0], len: 1, last: ranks[0] }, ranks.drop_first());
        if run.len == 5 || (run.len == 4 && run.high == Rank::Five && ranks[0] == Rank::Ace) {
            Some(run.high)
        } else {
            None
        }
    }
}

/// The ranks of one suit as the evaluator keeps them: at most seven.
pub open spec fn suited(cards: Seq<Card>, suit: Suit) -> Seq<Rank> {
    capped(suit_filter(cards, suit), 7)
}

/// For each of the four suits, from clubs to spades, the ranks of that suit.
pub open spec fn suit_lists(cards: Seq<Card>) -> Seq<Seq<Rank>> {
    Seq::new(4, |i: int| suited(cards, Suit::at(i)))
}

/// The higher of two ranks.
pub open spec fn higher(a: Rank, b: Rank) -> Rank {
    if a.ord() >= b.ord() {
        a
    } else {
        b
    }
}

/// The highest rank of a list that is not empty.
pub open spec fn highest(ranks: Seq<Rank>) -> Rank
    decreases ranks.len(),
{
    if ranks.len() <= 1 {
        ranks[0]
    } else {
        higher(highest(ranks.drop_last()), ranks.last())
    }
}

/// The ranks of a hand by how often they occur. Each list has the highest
/// rank first; the evaluator keeps two triples, three pairs and five single
/// ranks at most.
pub struct RankClasses {
    pub four: Option<Rank>,
    pub trips: Seq<Rank>,
    pub pairs: Seq<Rank>,
    pub singles: Seq<Rank>,
}

/// The lowest rank that `cards` holds four times.
pub open spec fn four_of(cards: Seq<Card>) -> Option<Rank> {
    if ranks_counted(cards, 4, 0).len() > 0 {
        Some(ranks_counted(cards, 4, 0).last())
    } else {
        None
    }
}

/// The ranks of `cards` by how often they occur, as the evaluator keeps
/// them.
pub open spec fn rank_classes(cards: Seq<Card>) -> RankClasses {
    RankClasses {
        four: four_of(cards),
        trips: capped(ranks_counted(cards, 3, 0), 2),
        pairs: capped(ranks_counted(cards, 2, 0), 3),
        singles: capped(ranks_counted(cards, 1, 0), 5),
    }
}

/// The first elements of the lists that are not empty.
pub open spec fn heads(a: Seq<Rank>, b: Seq<Rank>, c: Seq<Rank>) -> Seq<Rank> {
    (if a.len() > 0 {
        seq![a[0]]
    } else {
        Seq::empty()
    }) + (if b.len() > 0 {
        seq![b[0]]
    } else {
        Seq::empty()
    }) + (if c.len() > 0 {
        seq![c[0]]
    } else {
        Seq::empty()
    })
}

/// The straight flush of the first suit, from `from` to spades, whose ranks
/// hold a straight.
pub open spec fn straight_flush_of(lists: Seq<Seq<Rank>>, from: int) -> Option<HandEvaluation>
    decreases 4 - from,
{
    if from >= 4 {
        None
    } else if straight_top(lists[from]) is Some {
        Some(HandEvaluation::StraightFlush { highest_rank: straight_top(lists[from]).unwrap() })
    } else {
        straight_flush_of(lists, from + 1)
    }
}

/// Four of a kind: the rank held four times, and the highest other rank.
pub open spec fn four_of_a_kind_of(classes: RankClasses) -> Option<HandEvaluation> {
    match classes.four {
        Some(rank) => Some(
            HandEvaluation::FourOfAKind {
                rank,
                kicker: highest(heads(classes.trips, classes.pairs, classes.singles)),
            },
        ),
        None => None,
    }
}

/// A full house: the two highest triples, or the highest triple and the
/// highest pair.
pub open spec fn full_house_of(classes: RankClasses) -> Option<HandEvaluation> {
    if classes.trips.len() >= 2 {
        Some(HandEvaluation::FullHouse { triple: classes.trips[0], pair: classes.trips[1] })
    } else if classes.trips.len() >= 1 && classes.pairs.len() >= 1 {
        Some(HandEvaluation::FullHouse { triple: classes.trips[0], pair: classes.pairs[0] })
    } else {
        None
    }
}

/// The flush of the first suit, from `from` to spades, that holds five ranks
/// or more: its first five ranks.
pub open spec fn flush_of(lists: Seq<Seq<Rank>>, from: int) -> Option<HandEvaluation>
    decreases 4 - from,
{
    if from >= 4 {
        None
    } else if lists[from].len() >= 5 {
        let ranks = lists[from];
        Some(
            HandEvaluation::Flush {
                ranks_sorted_desc: [ranks[0], ranks[1], ranks[2], ranks[3], ranks[4]],
            },
        )
    } else {
        flush_of(lists, from + 1)
    }
}

/// The straight that the scanner finds in `ranks`.
pub open spec fn straight_of(ranks: Seq<Rank>) -> Option<HandEvaluation> {
    match straight_top(ranks) {
        Some(highest_rank) => Some(HandEvaluation::Straight { highest_rank }),
        None => None,
    }
}

/// The kickers of three of a kind: the two highest among the rank of the
/// second triple, where there is one, and the two best single ranks.
pub open spec fn trips_kickers(trips: Seq<Rank>, singles: Seq<Rank>) -> (Rank, Rank) {
    if trips.len() >= 2 {
        let second = trips[1];
        if second.ord() >= singles[0].ord() {
            (second, singles[0])
        } else if singles.len() >= 2 && singles[1].ord() > second.ord() {
            (singles[0], singles[1])
        } else {
            (singles[0], second)
        }
    } else {
        (singles[0], singles[1])
    }
}

/// Three of a kind: the highest triple and its two kickers.
pub open spec fn trips_of(classes: RankClasses) -> Option<HandEvaluation> {
    if classes.trips.len() == 0 {
        None
    } else {
        let kickers = trips_kickers(classes.trips, classes.singles);
        Some(
            HandEvaluation::ThreeOfAKind {
                rank: classes.trips[0],
                kickers_sorted_desc: [kickers.0, kickers.1],
            },
        )
    }
}

/// Two pair: the two highest pairs, and the higher of the third pair's rank
/// and the best single rank.
pub open spec fn two_pair_of(classes: RankClasses) -> Option<HandEvaluation> {
    if classes.pairs.len() < 2 {
        None
    } else {
        Some(
            HandEvaluation::TwoPair {
                higher_rank: classes.pairs[0],
                lower_rank: classes.pairs[1],
                kicker: highest(heads(classes.pairs.skip(2), classes.singles, Seq::empty())),
            },
        )
    }
}

/// A pair: the highest pair and the three best single ranks.
pub open spec fn pair_of(classes: RankClasses) -> Option<HandEvaluation> {
    if classes.pairs.len() == 0 {
        None
    } else {
        let singles = classes.singles;
        Some(
            HandEvaluation::Pair {
                rank: classes.pairs[0],
                kickers_sorted_desc: [singles[0], singles[1], singles[2]],
            },
        )
    }
}

/// A high card: the five best single ranks.
pub open spec fn high_card_of(classes: RankClasses) -> HandEvaluation {
    let singles = classes.singles;
    HandEvaluation::HighCard {
        rank: singles[0],
        kickers_sorted_desc: [singles[1], singles[2], singles[3], singles[4]],
    }
}

/// `first`, or `second` where `first` is nothing.
pub open spec fn or_else(
    first: Option<HandEvaluation>,
    second: Option<HandEvaluation>,
) -> Option<HandEvaluation> {
    if first is Some {
        first
    } else {
        second
    }
}

/// The value of the hand whose cards, from the highest place in the deck
/// down, are `cards`: the first of the nine kinds, from the straight flush
/// down to the high card, that the hand holds.
pub open spec fn hand_value(cards: Seq<Card>) -> HandEvaluation {
    let classes = rank_classes(cards);
    let lists = suit_lists(cards);
    let found = or_else(
        straight_flush_of(lists, 0),
        or_else(
            four_of_a_kind_of(classes),
            or_else(
                full_house_of(classes),
                or_else(
                    flush_of(lists, 0),
                    or_else(
                        straight_of(ranks_of(cards)),
                        or_else(
                            trips_of(classes),
                            or_else(two_pair_of(classes), pair_of(classes)),
                        ),
                    ),
                ),
            ),
        ),
    );
    match found {
        Some(value) => value,
        None => high_card_of(classes),
    }
}

/// What `evaluate_postflop` returns for `hand`: the value of a hand of five
/// to seven cards, and nothing for any other number of cards.
pub open spec fn postflop_value(hand: CardSet) -> Option<HandEvaluation> {
    if 5 <= hand@.len() <= 7 {
        Some(hand_value(hand.desc()))
    } else {
        None
    }
}

/// Counting one more card counts its rank once more.
proof fn lemma_count_rank_push(cards: Seq<Card>, card: Card, rank: Rank)
    ensures
        count_rank(cards.push(card), rank) == count_rank(cards, rank) + if card.rank == rank {
            1nat
        } else {
            0nat
        },
        count_rank(cards.push(card), rank) <= cards.len() + 1,
        count_rank(cards, rank) <= cards.len(),
{
    assert(cards.push(card).drop_last() =~= cards);
    lemma_count_rank_bound(cards, rank);
}

proof fn lemma_count_rank_bound(cards: Seq<Card>, rank: Rank)
    ensures
        count_rank(cards, rank) <= cards.len(),
    decreases cards.len(),
{
    if cards.len() > 0 {
        lemma_count_rank_bound(cards.drop_last(), rank);
    }
}

proof fn lemma_suit_filter_push(cards: Seq<Card>, card: Card, suit: Suit)
    ensures
        suit_filter(cards.push(card), suit) == if card.suit == suit {
            suit_filter(cards, suit).push(card.rank)
        } else {
            suit_filter(cards, suit)
        },
{
    assert(cards.push(card).drop_last() =~= cards);
}

/// Pushing onto a vector that drops what does not fit keeps the first `cap`
/// elements of what was pushed.
pub proof fn lemma_capped_push<T>(s: Seq<T>, x: T, cap: int)
    requires
        cap >= 0,
    ensures
        capped(s.push(x), cap) == if capped(s, cap).len() < cap {
            capped(s, cap).push(x)
        } else {
            capped(s, cap)
        },
{
    if s.len() < cap {
        assert(capped(s.push(x), cap) =~= s.push(x));
    } else {
        assert(s.push(x).take(cap) =~= s.take(cap));
        assert(s.take(cap) =~= capped(s, cap));
    }
}

/// In a list without repetitions a card occurs once or not at all.
proof fn lemma_count_card(cards: Seq<Card>, card: Card)
    requires
        forall|i: int, j: int| 0 <= i < j < cards.len() ==> cards[i].ord() > cards[j].ord(),
    ensures
        count_card(cards, card) == if cards.contains(card) {
            1nat
        } else {
            0nat
        },
    decreases cards.len(),
{
    if cards.len() > 0 {
        let front = cards.drop_last();
        lemma_count_card(front, card);
        if cards.last() == card {
            if front.contains(card) {
                let i = choose|i: int| 0 <= i < front.len() && front[i] == card;
                assert(cards[i].ord() > cards[cards.len() - 1].ord());
            }
            assert(cards[cards.len() - 1] == card);
        } else {
            if cards.contains(card) {
                let i = choose|i: int| 0 <= i < cards.len() && cards[i] == card;
                assert(front[i] == card);
            }
            if front.contains(card) {
                let i = choose|i: int| 0 <= i < front.len() && front[i] == card;
                assert(cards[i] == card);
            }
        }
    }
}

/// The cards of one rank are the cards of that rank in the four suits.
proof fn lemma_count_rank_by_suit(cards: Seq<Card>, rank: Rank)
    ensures
        count_rank(cards, rank) == count_card(cards, Card { rank, suit: Suit::Club }) + count_card(
            cards,
            Card { rank, suit: Suit::Diamond },
        ) + count_card(cards, Card { rank, suit: Suit::Heart }) + count_card(
            cards,
            Card { rank, suit: Suit::Spade },
        ),
    decreases cards.len(),
{
    if cards.len() > 0 {
        lemma_count_rank_by_suit(cards.drop_last(), rank);
    }
}

/// How many of the four cards of `rank` the set holds.
pub open spec fn rank_count(cards: Set<Card>, rank: Rank) -> nat {
    (if cards.contains(Card { rank, suit: Suit::Club }) {
        1nat
    } else {
        0nat
    }) + (if cards.contains(Card { rank, suit: Suit::Diamond }) {
        1nat
    } else {
        0nat
    }) + (if cards.contains(Card { rank, suit: Suit::Heart }) {
        1nat
    } else {
        0nat
    }) + (if cards.contains(Card { rank, suit: Suit::Spade }) {
        1nat
    } else {
        0nat
    })
}

/// A listing of a set counts, for each rank, the cards of that rank in the
/// set: never more than four.
pub proof fn lemma_count_rank_of_set(cards: Seq<Card>, set: Set<Card>, rank: Rank)
    requires
        lists_descending(cards, set),
    ensures
        count_rank(cards, rank) == rank_count(set, rank),
        count_rank(cards, rank) <= 4,
{
    lemma_count_rank_by_suit(cards, rank);
    lemma_count_card(cards, Card { rank, suit: Suit::Club });
    lemma_count_card(cards, Card { rank, suit: Suit::Diamond });
    lemma_count_card(cards, Card { rank, suit: Suit::Heart });
    lemma_count_card(cards, Card { rank, suit: Suit::Spade });
}

/// One more card is one more card of its rank, among the ranks from `from` up.
proof fn lemma_cards_ranked_push(cards: Seq<Card>, card: Card, from: int)
    requires
        0 <= from <= 13,
    ensures
        cards_ranked_from(cards.push(card), from) == cards_ranked_from(cards, from) + if card.rank.ord()
            >= from {
            1nat
        } else {
            0nat
        },
    decreases 13 - from,
{
    if from < 13 {
        lemma_cards_ranked_push(cards, card, from + 1);
        lemma_count_rank_push(cards, card, Rank::at(from));
        assert(Rank::at(from).ord() == from);
        assert(card.rank == Rank::at(from) <==> card.rank.ord() == from);
    }
}

/// Every card has one of the thirteen ranks.
pub proof fn lemma_cards_ranked(cards: Seq<Card>)
    ensures
        cards_ranked_from(cards, 0) == cards.len(),
    decreases cards.len(),
{
    if cards.len() == 0 {
        lemma_no_cards_ranked(cards, 0);
    } else {
        lemma_cards_ranked(cards.drop_last());
        lemma_cards_ranked_push(cards.drop_last(), cards.last(), 0);
        assert(cards.drop_last().push(cards.last()) =~= cards);
    }
}

proof fn lemma_no_cards_ranked(cards: Seq<Card>, from: int)
    requires
        cards.len() == 0,
        0 <= from <= 13,
    ensures
        cards_ranked_from(cards, from) == 0,
    decreases 13 - from,
{
    if from < 13 {
        lemma_no_cards_ranked(cards, from + 1);
    }
}

/// Where no rank occurs more than four times, the cards are four for each
/// rank that occurs four times, three for each that occurs three times, two
/// for each pair and one for each single rank.
pub proof fn lemma_cards_by_class(cards: Seq<Card>, from: int)
    requires
        0 <= from <= 13,
        forall|rank: Rank| count_rank(cards, rank) <= 4,
    ensures
        cards_ranked_from(cards, from) == 4 * ranks_counted(cards, 4, from).len() + 3
            * ranks_counted(cards, 3, from).len() + 2 * ranks_counted(cards, 2, from).len()
            + ranks_counted(cards, 1, from).len(),
    decreases 13 - from,
{
    if from < 13 {
        lemma_cards_by_class(cards, from + 1);
    }
}

/// Counts, for each rank, the cards of `cards` that have it.
pub fn count_ranks(cards: CardSet) -> (counter: RankCounter)
    ensures
        forall|rank: Rank| counter.count(rank) == count_rank(cards.desc(), rank),
{
    let mut counter = RankCounter::new();
    let mut iter = cards.iter_desc();
    let ghost mut seen = Seq::<Card>::empty();
    proof {
        cards.lemma_model();
        assert(seen + iter.remaining() =~= cards.desc());
    }
    loop
        invariant
            seen + iter.remaining() == cards.desc(),
            cards.desc().len() <= 52,
            forall|rank: Rank| counter.count(rank) == count_rank(seen, rank),
        decreases iter.remaining().len(),
    {
        let ghost rest = iter.remaining();
        match iter.next() {
            None => {
                proof {
                    assert(seen + rest =~= seen);
                }
                return counter;
            },
            Some(card) => {
                proof {
                    assert forall|rank: Rank|
                        count_rank(seen.push(card), rank) == count_rank(seen, rank) + if card.rank
                            == rank {
                            1nat
                        } else {
                            0nat
                        } && count_rank(seen, rank) <= seen.len() by {
                        lemma_count_rank_push(seen, card, rank);
                    }
                    assert(seen.push(card) + rest.drop_first() =~= seen + rest);
                    assert((seen + rest).len() == seen.len() + rest.len());
                    lemma_count_rank_bound(seen, card.rank);
                    assert(counter.count(card.rank) <= 52);
                }
                counter.inc(card.rank);
                proof {
                    seen = seen.push(card);
                }
            },
        }
    }
}

/// Sorts the ranks of `cards` by suit: each suit gets its ranks from the
/// highest down, seven at most.
pub fn group_by_suit(cards: CardSet) -> (groupings: SuitGrouping)
    ensures
        forall|suit: Suit| groupings.ranks(suit) == suited(cards.desc(), suit),
        groupings.lists() == suit_lists(cards.desc()),
{
    let mut groupings = SuitGrouping::new();
    let mut iter = cards.iter_desc();
    let ghost mut seen = Seq::<Card>::empty();
    proof {
        assert(seen + iter.remaining() =~= cards.desc());
    }
    loop
        invariant
            seen + iter.remaining() == cards.desc(),
            forall|suit: Suit| groupings.ranks(suit) == suited(seen, suit),
        decreases iter.remaining().len(),
    {
        let ghost rest = iter.remaining();
        match iter.next() {
            None => {
                proof {
                    assert(seen + rest =~= seen);
                    assert(groupings.lists() =~= suit_lists(cards.desc()));
                }
                return groupings;
            },
            Some(card) => {
                proof {
                    assert forall|suit: Suit|
                        suited(seen.push(card), suit) == if card.suit == suit {
                            if suited(seen, suit).len() < 7 {
                                suited(seen, suit).push(card.rank)
                            } else {
                                suited(seen, suit)
                            }
                        } else {
                            suited(seen, suit)
                        } by {
                        lemma_suit_filter_push(seen, card, suit);
                        lemma_capped_push(suit_filter(seen, suit), card.rank, 7);
                    }
                    assert(seen.push(card) + rest.drop_first() =~= seen + rest);
                }
                groupings.insert(card);
                proof {
                    seen = seen.push(card);
                }
            },
        }
    }
}

/// The top rank of the straight in `ranks`, which come from the highest
/// down and may repeat: the top of the first run of five consecutive ranks,
/// or the five where the ranks begin with an ace and end in five, four,
/// three and two.
pub fn straight_high_rank(ranks: &[Rank]) -> (top: Option<Rank>)
    ensures
        top == straight_top(ranks@),
{
    let n = ranks.len();
    if n == 0 {
        return None;
    }
    let first = ranks[0];
    let mut high_rank = first;
    let mut straight_len: usize = 1;
    let mut last_rank = first;
    let mut i: usize = 1;
    proof {
        assert(ranks@.skip(1) =~= ranks@.drop_first());
    }
    while i < n && straight_len < 5
        invariant
            1 <= i <= n,
            n == ranks@.len(),
            1 <= straight_len <= 5,
            scan(
                Run { high: high_rank, len: straight_len as nat, last: last_rank },
                ranks@.skip(i as int),
            ) == scan(Run { high: first, len: 1, last: first }, ranks@.drop_first()),
        decreases n - i,
    {
        let rank = ranks[i];
        proof {
            assert(ranks@.skip(i as int).drop_first() =~= ranks@.skip(i + 1));
            assert(ranks@.skip(i as int)[0] == rank);
        }
        if rank != last_rank {
            last_rank = rank;
            if high_rank.index() > rank.index() && high_rank.index() - rank.index()
                == straight_len {
                straight_len += 1;
            } else {
                high_rank = rank;
                straight_len = 1;
            }
        }
        i += 1;
    }
    if straight_len == 5 || (straight_len == 4 && high_rank == Rank::Five && first == Rank::Ace) {
        Some(high_rank)
    } else {
        None
    }
}

/// The ranks of a hand by how often they occur.
pub struct Cardinalities {
    pub four: Option<Rank>,
    pub trips: StackVec<Rank, 2>,
    pub pairs: StackVec<Rank, 3>,
    pub kickers: StackVec<Rank, 5>,
}

impl View for Cardinalities {
    type V = RankClasses;

    open spec fn view(&self) -> RankClasses {
        RankClasses {
            four: self.four,
            trips: self.trips@,
            pairs: self.pairs@,
            singles: self.kickers@,
        }
    }
}

impl Cardinalities {
    /// Sorts the ranks of `cards` by how often they occur, walking from the
    /// ace down to the two.
    pub fn new(cards: CardSet) -> (cardinalities: Self)
        ensures
            cardinalities@ == rank_classes(cards.desc()),
    {
        let by_rank = count_ranks(cards);
        let mut cardinalities = Self {
            four: None,
            trips: StackVec::new(),
            pairs: StackVec::new(),
            kickers: StackVec::new(),
        };
        let ghost desc = cards.desc();
        proof {
            cards.lemma_model();
            assert forall|rank: Rank| count_rank(desc, rank) <= 4 by {
                lemma_count_rank_of_set(desc, cards@, rank);
            }
        }
        let mut r: usize = NUM_RANKS;
        while r > 0
            invariant
                r <= 13,
                desc == cards.desc(),
                forall|rank: Rank| by_rank.count(rank) == count_rank(desc, rank),
                forall|rank: Rank| count_rank(desc, rank) <= 4,
                cardinalities.four == (if ranks_counted(desc, 4, r as int).len() > 0 {
                    Some(ranks_counted(desc, 4, r as int).last())
                } else {
                    None
                }),
                cardinalities.trips@ == capped(ranks_counted(desc, 3, r as int), 2),
                cardinalities.pairs@ == capped(ranks_counted(desc, 2, r as int), 3),
                cardinalities.kickers@ == capped(ranks_counted(desc, 1, r as int), 5),
            decreases r,
        {
            r -= 1;
            let rank = Rank::from_index(r);
            let count = by_rank.get(rank);
            proof {
                lemma_capped_push(ranks_counted(desc, 3, r + 1), rank, 2);
                lemma_capped_push(ranks_counted(desc, 2, r + 1), rank, 3);
                lemma_capped_push(ranks_counted(desc, 1, r + 1), rank, 5);
            }
            if count == 4 {
                cardinalities.four = Some(rank);
            } else if count == 3 {
                cardinalities.trips.push(rank);
            } else if count == 2 {
                cardinalities.pairs.push(rank);
            } else if count == 1 {
                cardinalities.kickers.push(rank);
            }
        }
        cardinalities
    }
}

/// The higher of two ranks.
pub fn higher_rank(a: Rank, b: Rank) -> (rank: Rank)
    ensures
        rank == higher(a, b),
{
    if a.index() >= b.index() {
        a
    } else {
        b
    }
}

/// The highest of the first elements of three lists, one of which is not
/// empty.
fn highest_head(a: &[Rank], b: &[Rank], c: &[Rank]) -> (rank: Rank)
    requires
        a@.len() + b@.len() + c@.len() > 0,
    ensures
        rank == highest(heads(a@, b@, c@)),
{
    let mut best: Option<Rank> = None;
    let ghost mut seen = Seq::<Rank>::empty();
    if a.len() > 0 {
        best = Some(a[0]);
        proof {
            seen = seq![a@[0]];
        }
    }
    assert(best == if seen.len() > 0 {
        Some(highest(seen))
    } else {
        None
    });
    if b.len() > 0 {
        let ghost before = seen;
        best =
        match best {
            Some(rank) => Some(higher_rank(rank, b[0])),
            None => Some(b[0]),
        };
        proof {
            seen = before.push(b@[0]);
            assert(seen.drop_last() =~= before);
        }
    }
    assert(best == if seen.len() > 0 {
        Some(highest(seen))
    } else {
        None
    });
    if c.len() > 0 {
        let ghost before = seen;
        best =
        match best {
            Some(rank) => Some(higher_rank(rank, c[0])),
            None => Some(c[0]),
        };
        proof {
            seen = before.push(c@[0]);
            assert(seen.drop_last() =~= before);
        }
    }
    proof {
        assert(seen =~= heads(a@, b@, c@));
    }
    match best {
        Some(rank) => rank,
        None => a[0],
    }
}

/// The straight flush of the first suit, from clubs to spades, that holds
/// one.
pub fn match_straight_flush(by_suit: &SuitGrouping) -> (found: Option<HandEvaluation>)
    ensures
        found == straight_flush_of(by_suit.lists(), 0),
{
    let mut i: usize = 0;
    while i < NUM_SUITS
        invariant
            i <= 4,
            straight_flush_of(by_suit.lists(), 0) == straight_flush_of(by_suit.lists(), i as int),
        decreases NUM_SUITS - i,
    {
        let suit = Suit::from_index(i);
        if let Some(highest_rank) = straight_high_rank(by_suit.get(suit)) {
            return Some(HandEvaluation::StraightFlush { highest_rank });
        }
        i += 1;
    }
    None
}

/// Four of a kind, where a rank occurs four times.
pub fn match_four_of_a_kind(cardinalities: &Cardinalities) -> (found: Option<HandEvaluation>)
    requires
        cardinalities.four is Some ==> cardinalities.trips@.len() + cardinalities.pairs@.len()
            + cardinalities.kickers@.len() > 0,
    ensures
        found == four_of_a_kind_of(cardinalities@),
{
    if let Some(rank) = cardinalities.four {
        let kicker = highest_head(
            cardinalities.trips.as_slice(),
            cardinalities.pairs.as_slice(),
            cardinalities.kickers.as_slice(),
        );
        return Some(HandEvaluation::FourOfAKind { rank, kicker });
    }
    None
}

/// A full house, where there are two triples, or a triple and a pair.
pub fn match_full_house(cardinalities: &Cardinalities) -> (found: Option<HandEvaluation>)
    ensures
        found == full_house_of(cardinalities@),
{
    if cardinalities.trips.len() >= 2 {
        Some(
            HandEvaluation::FullHouse {
                triple: *cardinalities.trips.get(0),
                pair: *cardinalities.trips.get(1),
            },
        )
    } else if !cardinalities.trips.is_empty() && !cardinalities.pairs.is_empty() {
        Some(
            HandEvaluation::FullHouse {
                triple: *cardinalities.trips.get(0),
                pair: *cardinalities.pairs.get(0),
            },
        )
    } else {
        None
    }
}

/// The flush of the first suit, from clubs to spades, that holds five ranks.
pub fn match_flush(by_suit: &SuitGrouping) -> (found: Option<HandEvaluation>)
    ensures
        found == flush_of(by_suit.lists(), 0),
{
    let mut i: usize = 0;
    while i < NUM_SUITS
        invariant
            i <= 4,
            flush_of(by_suit.lists(), 0) == flush_of(by_suit.lists(), i as int),
        decreases NUM_SUITS - i,
    {
        let suit = Suit::from_index(i);
        let ranks = by_suit.get(suit);
        if ranks.len() >= 5 {
            return Some(
                HandEvaluation::Flush {
                    ranks_sorted_desc: [ranks[0], ranks[1], ranks[2], ranks[3], ranks[4]],
                },
            );
        }
        i += 1;
    }
    None
}

/// The straight among the ranks of `cards`, a hand of seven cards at most.
pub fn match_straight(cards: CardSet) -> (found: Option<HandEvaluation>)
    requires
        cards@.len() <= 7,
    ensures
        found == straight_of(ranks_of(cards.desc())),
{
    let mut ranks: StackVec<Rank, 7> = StackVec::new();
    let mut iter = cards.iter_desc();
    let ghost mut seen = Seq::<Card>::empty();
    proof {
        cards.lemma_model();
        assert(seen + iter.remaining() =~= cards.desc());
        assert(ranks@ =~= ranks_of(seen));
    }
    loop
        invariant
            seen + iter.remaining() == cards.desc(),
            cards.desc().len() <= 7,
            ranks@ == ranks_of(seen),
        decreases iter.remaining().len(),
    {
        let ghost rest = iter.remaining();
        match iter.next() {
            None => {
                proof {
                    assert(seen + rest =~= seen);
                }
                return match straight_high_rank(ranks.as_slice()) {
                    Some(highest_rank) => Some(HandEvaluation::Straight { highest_rank }),
                    None => None,
                };
            },
            Some(card) => {
                proof {
                    assert(seen.push(card) + rest.drop_first() =~= seen + rest);
                    assert(ranks_of(seen.push(card)) =~= ranks_of(seen).push(card.rank));
                    assert((seen + rest).len() == seen.len() + rest.len());
                }
                ranks.push(card.rank);
                proof {
                    seen = seen.push(card);
                }
            },
        }
    }
}

/// Three of a kind, where there is a triple.
pub fn match_trips(cardinalities: &Cardinalities) -> (found: Option<HandEvaluation>)
    requires
        cardinalities.trips@.len() == 1 ==> cardinalities.kickers@.len() >= 2,
        cardinalities.trips@.len() >= 2 ==> cardinalities.kickers@.len() >= 1,
    ensures
        found == trips_of(cardinalities@),
{
    if cardinalities.trips.is_empty() {
        None
    } else {
        let best = *cardinalities.kickers.get(0);
        let kickers = if cardinalities.trips.len() >= 2 {
            let second = *cardinalities.trips.get(1);
            if second.index() >= best.index() {
                [second, best]
            } else if cardinalities.kickers.len() >= 2 && cardinalities.kickers.get(1).index()
                > second.index() {
                [best, *cardinalities.kickers.get(1)]
            } else {
                [best, second]
            }
        } else {
            [best, *cardinalities.kickers.get(1)]
        };
        Some(
            HandEvaluation::ThreeOfAKind {
                rank: *cardinalities.trips.get(0),
                kickers_sorted_desc: kickers,
            },
        )
    }
}

/// Two pair, where there are two pairs.
pub fn match_two_pair(cardinalities: &Cardinalities) -> (found: Option<HandEvaluation>)
    requires
        cardinalities.pairs@.len() == 2 ==> cardinalities.kickers@.len() >= 1,
    ensures
        found == two_pair_of(cardinalities@),
{
    if cardinalities.pairs.len() < 2 {
        None
    } else {
        let pairs = cardinalities.pairs.as_slice();
        let third = vstd::slice::slice_subrange(pairs, 2, pairs.len());
        let nothing: [Rank; 0] = [];
        proof {
            assert(third@ =~= cardinalities.pairs@.skip(2));
            assert(nothing@ =~= Seq::<Rank>::empty());
        }
        let kicker = highest_head(third, cardinalities.kickers.as_slice(), nothing.as_slice());
        Some(
            HandEvaluation::TwoPair {
                higher_rank: *cardinalities.pairs.get(0),
                lower_rank: *cardinalities.pairs.get(1),
                kicker,
            },
        )
    }
}

/// A pair, where there is one.
pub fn match_pair(cardinalities: &Cardinalities) -> (found: Option<HandEvaluation>)
    requires
        cardinalities.pairs@.len() >= 1 ==> cardinalities.kickers@.len() >= 3,
    ensures
        found == pair_of(cardinalities@),
{
    if cardinalities.pairs.is_empty() {
        None
    } else {
        Some(
            HandEvaluation::Pair {
                rank: *cardinalities.pairs.get(0),
                kickers_sorted_desc: [
                    *cardinalities.kickers.get(0),
                    *cardinalities.kickers.get(1),
                    *cardinalities.kickers.get(2),
                ],
            },
        )
    }
}

/// A high card: the five best single ranks.
pub fn match_high_card(cardinalities: &Cardinalities) -> (found: HandEvaluation)
    requires
        cardinalities.kickers@.len() >= 5,
    ensures
        found == high_card_of(cardinalities@),
{
    HandEvaluation::HighCard {
        rank: *cardinalities.kickers.get(0),
        kickers_sorted_desc: [
            *cardinalities.kickers.get(1),
            *cardinalities.kickers.get(2),
            *cardinalities.kickers.get(3),
            *cardinalities.kickers.get(4),
        ],
    }
}

/// The cards of a hand are four for each rank that it holds four times,
/// three for each triple, two for each pair and one for each single rank.
pub proof fn lemma_classes_add_up(hand: CardSet)
    ensures
        hand@.len() == 4 * ranks_counted(hand.desc(), 4, 0).len() + 3 * ranks_counted(
            hand.desc(),
            3,
            0,
        ).len() + 2 * ranks_counted(hand.desc(), 2, 0).len() + ranks_counted(
            hand.desc(),
            1,
            0,
        ).len(),
{
    let desc = hand.desc();
    hand.lemma_model();
    assert forall|rank: Rank| count_rank(desc, rank) <= 4 by {
        lemma_count_rank_of_set(desc, hand@, rank);
    }
    lemma_cards_ranked(desc);
    lemma_cards_by_class(desc, 0);
}

impl HandEvaluation {
    /// The value of a hand of five to seven cards; nothing for a hand of any
    /// other size.
    pub fn evaluate_postflop(hand: CardSet) -> (value: Option<Self>)
        ensures
            value == postflop_value(hand),
            value is Some <==> 5 <= hand@.len() <= 7,
    {
        if hand.len() < 5 || hand.len() > 7 {
            return None;
        }
        let by_suit = group_by_suit(hand);
        let cardinalities = Cardinalities::new(hand);
        proof {
            lemma_classes_add_up(hand);
        }
        if let Some(value) = match_straight_flush(&by_suit) {
            return Some(value);
        }
        if let Some(value) = match_four_of_a_kind(&cardinalities) {
            return Some(value);
        }
        if let Some(value) = match_full_house(&cardinalities) {
            return Some(value);
        }
        if let Some(value) = match_flush(&by_suit) {
            return Some(value);
        }
        if let Some(value) = match_straight(hand) {
            return Some(value);
        }
        if let Some(value) = match_trips(&cardinalities) {
            return Some(value);
        }
        if let Some(value) = match_two_pair(&cardinalities) {
            return Some(value);
        }
        if let Some(value) = match_pair(&cardinalities) {
            return Some(value);
        }
        Some(match_high_card(&cardinalities))
    }
}

/// What two cards are worth before the flop: a pair, or two ranks.
#[derive(Debug, PartialEq, Eq, Hash, PartialOrd, Ord, Clone, Copy, Structural)]
pub enum PreflopEvaluation {
    PocketPair { rank: Rank },
    HighCard { higher_rank: Rank, lower_rank: Rank },
}

/// What `PreflopEvaluation::evaluate` returns for `pocket`: nothing unless it
/// holds two cards; a pocket pair where they have one rank; else the rank of
/// the card that stands higher in the deck, then the other rank.
pub open spec fn preflop_value(pocket: CardSet) -> Option<PreflopEvaluation> {
    if pocket@.len() != 2 {
        None
    } else {
        let cards = pocket.desc();
        if cards[0].rank == cards[1].rank {
            Some(PreflopEvaluation::PocketPair { rank: cards[0].rank })
        } else {
            Some(
                PreflopEvaluation::HighCard {
                    higher_rank: cards[0].rank,
                    lower_rank: cards[1].rank,
                },
            )
        }
    }
}

impl PreflopEvaluation {
    /// Sorts a pocket of two cards; nothing for any other number of cards.
    pub fn evaluate(pocket: CardSet) -> (value: Option<Self>)
        ensures
            value == preflop_value(pocket),
    {
        if pocket.len() != 2 {
            return None;
        }
        let cards = pocket.to_vec();
        let first = cards[0];
        let second = cards[1];
        Some(
            if first.rank == second.rank {
                PreflopEvaluation::PocketPair { rank: first.rank }
            } else {
                PreflopEvaluation::HighCard { higher_rank: first.rank, lower_rank: second.rank }
            },
        )
    }
}

/// Whether `a` comes before `b` in the order of the dictionary: at the first
/// place where they differ, `a` holds the smaller number.
pub open spec fn comes_before(a: Seq<int>, b: Seq<int>) -> bool
    decreases a.len(),
{
    a.len() > 0 && b.len() > 0 && (a[0] < b[0] || (a[0] == b[0] && comes_before(
        a.drop_first(),
        b.drop_first(),
    )))
}

impl HandEvaluation {
    /// The place of the kind of hand, from 0 (high card) to 8 (straight flush).
    pub open spec fn kind(self) -> int {
        match self {
            HandEvaluation::HighCard { .. } => 0,
            HandEvaluation::Pair { .. } => 1,
            HandEvaluation::TwoPair { .. } => 2,
            HandEvaluation::ThreeOfAKind { .. } => 3,
            HandEvaluation::Straight { .. } => 4,
            HandEvaluation::Flush { .. } => 5,
            HandEvaluation::FullHouse { .. } => 6,
            HandEvaluation::FourOfAKind { .. } => 7,
            HandEvaluation::StraightFlush { .. } => 8,
        }
    }

    /// The numbers by which two hands are compared: the kind, then the ranks
    /// of the fields in their order, then zeros up to six numbers.
    pub open spec fn key(self) -> Seq<int> {
        match self {
            HandEvaluation::HighCard { rank, kickers_sorted_desc: k } => seq![
                0,
                rank.ord(),
                k[0].ord(),
                k[1].ord(),
                k[2].ord(),
                k[3].ord(),
            ],
            HandEvaluation::Pair { rank, kickers_sorted_desc: k } => seq![
                1,
                rank.ord(),
                k[0].ord(),
                k[1].ord(),
                k[2].ord(),
                0,
            ],
            HandEvaluation::TwoPair { higher_rank, lower_rank, kicker } => seq![
                2,
                higher_rank.ord(),
                lower_rank.ord(),
                kicker.ord(),
                0,
                0,
            ],
            HandEvaluation::ThreeOfAKind { rank, kickers_sorted_desc: k } => seq![
                3,
                rank.ord(),
                k[0].ord(),
                k[1].ord(),
                0,
                0,
            ],
            HandEvaluation::Straight { highest_rank } => seq![4, highest_rank.ord(), 0, 0, 0, 0],
            HandEvaluation::Flush { ranks_sorted_desc: k } => seq![
                5,
                k[0].ord(),
                k[1].ord(),
                k[2].ord(),
                k[3].ord(),
                k[4].ord(),
            ],
            HandEvaluation::FullHouse { triple, pair } => seq![6, triple.ord(), pair.ord(), 0, 0, 0],
            HandEvaluation::FourOfAKind { rank, kicker } => seq![7, rank.ord(), kicker.ord(), 0, 0, 0],
            HandEvaluation::StraightFlush { highest_rank } => seq![
                8,
                highest_rank.ord(),
                0,
                0,
                0,
                0,
            ],
        }
    }

    /// Whether this hand loses to `other`: its kind is the weaker one, or the
    /// kinds are the same and the first field that differs is the lower one.
    pub open spec fn loses_to(self, other: HandEvaluation) -> bool {
        comes_before(self.key(), other.key())
    }

    /// Hands with the same key are the same hand.
    pub proof fn lemma_key_decides(self, other: HandEvaluation)
        requires
            self.key() == other.key(),
        ensures
            self == other,
    {
        let a = self.key();
        let b = other.key();
        assert(a[0] == b[0] && a[1] == b[1] && a[2] == b[2] && a[3] == b[3] && a[4] == b[4] && a[5]
            == b[5]);
        match (self, other) {
            (
                HandEvaluation::HighCard { rank: r1, kickers_sorted_desc: k1 },
                HandEvaluation::HighCard { rank: r2, kickers_sorted_desc: k2 },
            ) => {
                lemma_rank_ord(r1, r2);
                lemma_rank_ord(k1[0], k2[0]);
                lemma_rank_ord(k1[1], k2[1]);
                lemma_rank_ord(k1[2], k2[2]);
                lemma_rank_ord(k1[3], k2[3]);
                assert(k1@ =~= k2@);
                assert(k1 =~= k2);
            },
            (
                HandEvaluation::Pair { rank: r1, kickers_sorted_desc: k1 },
                HandEvaluation::Pair { rank: r2, kickers_sorted_desc: k2 },
            ) => {
                lemma_rank_ord(r1, r2);
                lemma_rank_ord(k1[0], k2[0]);
                lemma_rank_ord(k1[1], k2[1]);
                lemma_rank_ord(k1[2], k2[2]);
                assert(k1@ =~= k2@);
                assert(k1 =~= k2);
            },
            (
                HandEvaluation::TwoPair { higher_rank: h1, lower_rank: l1, kicker: c1 },
                HandEvaluation::TwoPair { higher_rank: h2, lower_rank: l2, kicker: c2 },
            ) => {
                lemma_rank_ord(h1, h2);
                lemma_rank_ord(l1, l2);
                lemma_rank_ord(c1, c2);
            },
            (
                HandEvaluation::ThreeOfAKind { rank: r1, kickers_sorted_desc: k1 },
                HandEvaluation::ThreeOfAKind { rank: r2, kickers_sorted_desc: k2 },
            ) => {
                lemma_rank_ord(r1, r2);
                lemma_rank_ord(k1[0], k2[0]);
                lemma_rank_ord(k1[1], k2[1]);
                assert(k1@ =~= k2@);
                assert(k1 =~= k2);
            },
            (
                HandEvaluation::Straight { highest_rank: r1 },
                HandEvaluation::Straight { highest_rank: r2 },
            ) => {
                lemma_rank_ord(r1, r2);
            },
            (
                HandEvaluation::Flush { ranks_sorted_desc: k1 },
                HandEvaluation::Flush { ranks_sorted_desc: k2 },
            ) => {
                lemma_rank_ord(k1[0], k2[0]);
                lemma_rank_ord(k1[1], k2[1]);
                lemma_rank_ord(k1[2], k2[2]);
                lemma_rank_ord(k1[3], k2[3]);
                lemma_rank_ord(k1[4], k2[4]);
                assert(k1@ =~= k2@);
                assert(k1 =~= k2);
            },
            (
                HandEvaluation::FullHouse { triple: t1, pair: u1 },
                HandEvaluation::FullHouse { triple: t2, pair: u2 },
            ) => {
                lemma_rank_ord(t1, t2);
                lemma_rank_ord(u1, u2);
            },
            (
                HandEvaluation::FourOfAKind { rank: r1, kicker: c1 },
                HandEvaluation::FourOfAKind { rank: r2, kicker: c2 },
            ) => {
                lemma_rank_ord(r1, r2);
                lemma_rank_ord(c1, c2);
            },
            (
                HandEvaluation::StraightFlush { highest_rank: r1 },
                HandEvaluation::StraightFlush { highest_rank: r2 },
            ) => {
                lemma_rank_ord(r1, r2);
            },
            _ => {},
        }
    }

    /// The key by which hands are compared.
    pub fn key_of(&self) -> (key: [u8; 6])
        ensures
            key@.len() == 6,
            forall|i: int| 0 <= i < 6 ==> key@[i] == self.key()[i],
    {
        match self {
            HandEvaluation::HighCard { rank, kickers_sorted_desc: k } => [
                0,
                rank_number(*rank),
                rank_number(k[0]),
                rank_number(k[1]),
                rank_number(k[2]),
                rank_number(k[3]),
            ],
            HandEvaluation::Pair { rank, kickers_sorted_desc: k } => [
                1,
                rank_number(*rank),
                rank_number(k[0]),
                rank_number(k[1]),
                rank_number(k[2]),
                0,
            ],
            HandEvaluation::TwoPair { higher_rank, lower_rank, kicker } => [
                2,
                rank_number(*higher_rank),
                rank_number(*lower_rank),
                rank_number(*kicker),
                0,
                0,
            ],
            HandEvaluation::ThreeOfAKind { rank, kickers_sorted_desc: k } => [
                3,
                rank_number(*rank),
                rank_number(k[0]),
                rank_number(k[1]),
                0,
                0,
            ],
            HandEvaluation::Straight { highest_rank } => [4, rank_number(*highest_rank), 0, 0, 0, 0],
            HandEvaluation::Flush { ranks_sorted_desc: k } => [
                5,
                rank_number(k[0]),
                rank_number(k[1]),
                rank_number(k[2]),
                rank_number(k[3]),
                rank_number(k[4]),
            ],
            HandEvaluation::FullHouse { triple, pair } => [
                6,
                rank_number(*triple),
                rank_number(*pair),
                0,
                0,
                0,
            ],
            HandEvaluation::FourOfAKind { rank, kicker } => [
                7,
                rank_number(*rank),
                rank_number(*kicker),
                0,
                0,
                0,
            ],
            HandEvaluation::StraightFlush { highest_rank } => [
                8,
                rank_number(*highest_rank),
                0,
                0,
                0,
                0,
            ],
        }
    }

    /// Whether this hand loses to `other`.
    pub fn is_weaker_than(&self, other: &HandEvaluation) -> (weaker: bool)
        ensures
            weaker == self.loses_to(*other),
    {
        let a = self.key_of();
        let b = other.key_of();
        let mut i: usize = 0;
        proof {
            assert(self.key().skip(0) =~= self.key());
            assert(other.key().skip(0) =~= other.key());
        }
        while i < 6
            invariant
                i <= 6,
                a@.len() == 6,
                b@.len() == 6,
                self.key().len() == 6,
                other.key().len() == 6,
                forall|k: int| 0 <= k < 6 ==> a@[k] == self.key()[k],
                forall|k: int| 0 <= k < 6 ==> b@[k] == other.key()[k],
                self.loses_to(*other) == comes_before(
                    self.key().skip(i as int),
                    other.key().skip(i as int),
                ),
            decreases 6 - i,
        {
            proof {
                assert(self.key().skip(i as int).drop_first() =~= self.key().skip(i + 1));
                assert(other.key().skip(i as int).drop_first() =~= other.key().skip(i + 1));
            }
            if a[i] < b[i] {
                return true;
            }
            if a[i] > b[i] {
                return false;
            }
            i += 1;
        }
        false
    }

    /// Whether the two hands are worth the same.
    pub fn ties_with(&self, other: &HandEvaluation) -> (same: bool)
        ensures
            same == (*self == *other),
    {
        let a = self.key_of();
        let b = other.key_of();
        let mut i: usize = 0;
        while i < 6
            invariant
                i <= 6,
                a@.len() == 6,
                b@.len() == 6,
                self.key().len() == 6,
                other.key().len() == 6,
                forall|k: int| 0 <= k < 6 ==> a@[k] == self.key()[k],
                forall|k: int| 0 <= k < 6 ==> b@[k] == other.key()[k],
                forall|k: int| 0 <= k < i ==> self.key()[k] == other.key()[k],
            decreases 6 - i,
        {
            if a[i] != b[i] {
                return false;
            }
            i += 1;
        }
        proof {
            assert(self.key() =~= other.key());
            self.lemma_key_decides(*other);
        }
        true
    }
}

/// Ranks with the same place are the same rank.
pub proof fn lemma_rank_ord(a: Rank, b: Rank)
    requires
        a.ord() == b.ord(),
    ensures
        a == b,
{
}

/// The place of a rank, as one byte.
fn rank_number(rank: Rank) -> (n: u8)
    ensures
        n == rank.ord(),
{
    rank.index() as u8
}

} // verus!
