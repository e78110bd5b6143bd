use crate::analysis::evaluate_hand::{
    capped, cards_ranked_from, count_rank, flush_of, hand_value, lemma_cards_ranked,
    lemma_count_rank_of_set, postflop_value, rank_classes, rank_count, ranks_counted, ranks_of,
    scan, scan_step, straight_flush_of, straight_top, suit_filter, suit_lists, suited,
    HandEvaluation, Run,
};
use crate::cards::card::{lemma_card_places, lemma_place_cards, Card, Rank, Suit};
use crate::cards::cardset::{bit, desc_below, CardSet};
use vstd::prelude::*;

verus! {

/// `turn` gives different suits for different suits: it exchanges the four
/// suits among themselves.
pub open spec fn exchanges_suits(turn: spec_fn(Suit) -> Suit) -> bool {
    &&& turn(Suit::Club) != turn(Suit::Diamond)
    &&& turn(Suit::Club) != turn(Suit::Heart)
    &&& turn(Suit::Club) != turn(Suit::Spade)
    &&& turn(Suit::Diamond) != turn(Suit::Heart)
    &&& turn(Suit::Diamond) != turn(Suit::Spade)
    &&& turn(Suit::Heart) != turn(Suit::Spade)
}

/// `turned` holds the cards of `hand` with their suits exchanged by `turn`.
pub open spec fn suits_turned(hand: CardSet, turned: CardSet, turn: spec_fn(Suit) -> Suit) -> bool {
    &&& exchanges_suits(turn)
    &&& forall|card: Card|
        hand@.contains(card) <==> #[trigger] turned@.contains(
            Card { rank: card.rank, suit: turn(card.suit) },
        )
}

/// The ranks of the cards of `bits` below place `n` that have the suit
/// `suit`, from the highest place down.
spec fn suit_ranks_below(bits: u64, suit: Suit, n: int) -> Seq<Rank>
    decreases n,
{
    if n <= 0 {
        Seq::empty()
    } else if bit(bits, n - 1) && Card::at(n - 1).suit == suit {
        seq![Card::at(n - 1).rank] + suit_ranks_below(bits, suit, n - 1)
    } else {
        suit_ranks_below(bits, suit, n - 1)
    }
}

/// The ranks of the cards of `bits` below place `n`, from the highest place
/// down.
spec fn all_ranks_below(bits: u64, n: int) -> Seq<Rank>
    decreases n,
{
    if n <= 0 {
        Seq::empty()
    } else if bit(bits, n - 1) {
        seq![Card::at(n - 1).rank] + all_ranks_below(bits, n - 1)
    } else {
        all_ranks_below(bits, n - 1)
    }
}

/// The ranks of one suit in a list that begins with `card`.
proof fn lemma_suit_filter_front(card: Card, rest: Seq<Card>, suit: Suit)
    ensures
        suit_filter(seq![card] + rest, suit) == if card.suit == suit {
            seq![card.rank] + suit_filter(rest, suit)
        } else {
            suit_filter(rest, suit)
        },
    decreases rest.len(),
{
    let whole = seq![card] + rest;
    if rest.len() == 0 {
        assert(whole.drop_last() =~= Seq::<Card>::empty());
        assert(whole.last() == card);
        assert(suit_filter(whole.drop_last(), suit) =~= Seq::<Rank>::empty());
        if card.suit == suit {
            assert(suit_filter(whole, suit) =~= seq![card.rank] + suit_filter(rest, suit));
        } else {
            assert(suit_filter(whole, suit) =~= suit_filter(rest, suit));
        }
    } else {
        lemma_suit_filter_front(card, rest.drop_last(), suit);
        assert(whole.drop_last() =~= seq![card] + rest.drop_last());
        assert(whole.last() == rest.last());
        let inner = suit_filter(rest.drop_last(), suit);
        if card.suit == suit {
            if rest.last().suit == suit {
                assert((seq![card.rank] + inner).push(rest.last().rank) =~= seq![card.rank]
                    + inner.push(rest.last().rank));
            }
        }
    }
}

/// The suits of a set, read place by place.
proof fn lemma_suit_filter_places(bits: u64, suit: Suit, n: int)
    requires
        0 <= n <= 52,
    ensures
        suit_filter(desc_below(bits, n), suit) == suit_ranks_below(bits, suit, n),
        ranks_of(desc_below(bits, n)) == all_ranks_below(bits, n),
    decreases n,
{
    if n > 0 {
        lemma_suit_filter_places(bits, suit, n - 1);
        let rest = desc_below(bits, n - 1);
        if bit(bits, n - 1) {
            lemma_suit_filter_front(Card::at(n - 1), rest, suit);
            assert(ranks_of(seq![Card::at(n - 1)] + rest) =~= seq![Card::at(n - 1).rank]
                + ranks_of(rest));
        }
    } else {
        assert(ranks_of(desc_below(bits, n)) =~= Seq::<Rank>::empty());
    }
}

/// The rank of `rank`, once where `present` says so.
pub open spec fn once(present: bool, rank: Rank) -> Seq<Rank> {
    if present {
        seq![rank]
    } else {
        Seq::empty()
    }
}

/// `rank`, `count` times.
pub open spec fn copies(rank: Rank, count: nat) -> Seq<Rank> {
    Seq::new(count, |i: int| rank)
}

/// The ranks below `k` of the cards of `set` that have the suit `suit`, the
/// highest rank first.
pub open spec fn suit_ranks(set: Set<Card>, suit: Suit, k: int) -> Seq<Rank>
    decreases k,
{
    if k <= 0 {
        Seq::empty()
    } else {
        once(set.contains(Card { rank: Rank::at(k - 1), suit }), Rank::at(k - 1)) + suit_ranks(
            set,
            suit,
            k - 1,
        )
    }
}

/// The ranks below `k` of the cards of `set`, each as often as the set
/// holds it, the highest rank first.
pub open spec fn spread(set: Set<Card>, k: int) -> Seq<Rank>
    decreases k,
{
    if k <= 0 {
        Seq::empty()
    } else {
        copies(Rank::at(k - 1), rank_count(set, Rank::at(k - 1))) + spread(set, k - 1)
    }
}

/// The places of one rank are the places of its four cards.
proof fn lemma_places_of_rank(k: int)
    requires
        0 <= k < 13,
    ensures
        Card::at(4 * k) == (Card { rank: Rank::at(k), suit: Suit::Club }),
        Card::at(4 * k + 1) == (Card { rank: Rank::at(k), suit: Suit::Diamond }),
        Card::at(4 * k + 2) == (Card { rank: Rank::at(k), suit: Suit::Heart }),
        Card::at(4 * k + 3) == (Card { rank: Rank::at(k), suit: Suit::Spade }),
        (Card { rank: Rank::at(k), suit: Suit::Club }).ord() == 4 * k,
        (Card { rank: Rank::at(k), suit: Suit::Diamond }).ord() == 4 * k + 1,
        (Card { rank: Rank::at(k), suit: Suit::Heart }).ord() == 4 * k + 2,
        (Card { rank: Rank::at(k), suit: Suit::Spade }).ord() == 4 * k + 3,
{
    lemma_place_cards(4 * k);
    lemma_place_cards(4 * k + 1);
    lemma_place_cards(4 * k + 2);
    lemma_place_cards(4 * k + 3);
}

/// A hand holds a card where the bit of its place is set.
proof fn lemma_holds(hand: CardSet, card: Card)
    ensures
        hand@.contains(card) == bit(hand.bits(), card.ord()),
{
    hand.lemma_model();
}

/// One place more is one card more, where the hand holds the card of the
/// place.
proof fn lemma_place_step(bits: u64, suit: Suit, n: int)
    requires
        0 <= n,
    ensures
        suit_ranks_below(bits, suit, n + 1) == once(
            bit(bits, n) && Card::at(n).suit == suit,
            Card::at(n).rank,
        ) + suit_ranks_below(bits, suit, n),
        all_ranks_below(bits, n + 1) == once(bit(bits, n), Card::at(n).rank) + all_ranks_below(
            bits,
            n,
        ),
{
    assert(once(false, Card::at(n).rank) + suit_ranks_below(bits, suit, n) =~= suit_ranks_below(
        bits,
        suit,
        n,
    ));
    assert(once(false, Card::at(n).rank) + all_ranks_below(bits, n) =~= all_ranks_below(bits, n));
}

/// The four places of one rank give the rank once for the suit, where the
/// hand holds the card of the rank and the suit.
proof fn lemma_rank_step_suit(hand: CardSet, suit: Suit, k: int)
    requires
        0 <= k < 13,
    ensures
        suit_ranks_below(hand.bits(), suit, 4 * k + 4) == once(
            hand@.contains(Card { rank: Rank::at(k), suit }),
            Rank::at(k),
        ) + suit_ranks_below(hand.bits(), suit, 4 * k),
{
    let bits = hand.bits();
    let rank = Rank::at(k);
    let base = 4 * k;
    lemma_places_of_rank(k);
    lemma_holds(hand, Card { rank, suit });
    lemma_place_step(bits, suit, base);
    lemma_place_step(bits, suit, base + 1);
    lemma_place_step(bits, suit, base + 2);
    lemma_place_step(bits, suit, base + 3);
    let lower = suit_ranks_below(bits, suit, base);
    let empty = Seq::<Rank>::empty();
    assert(empty + lower =~= lower);
    assert(empty + (seq![rank] + lower) =~= seq![rank] + lower);
}

/// The four places of one rank give the rank as often as the hand holds it.
proof fn lemma_rank_step_all(hand: CardSet, k: int)
    requires
        0 <= k < 13,
    ensures
        all_ranks_below(hand.bits(), 4 * k + 4) == copies(
            Rank::at(k),
            rank_count(hand@, Rank::at(k)),
        ) + all_ranks_below(hand.bits(), 4 * k),
{
    let bits = hand.bits();
    let rank = Rank::at(k);
    let base = 4 * k;
    lemma_places_of_rank(k);
    lemma_holds(hand, Card { rank, suit: Suit::Club });
    lemma_holds(hand, Card { rank, suit: Suit::Diamond });
    lemma_holds(hand, Card { rank, suit: Suit::Heart });
    lemma_holds(hand, Card { rank, suit: Suit::Spade });
    lemma_place_step(bits, Suit::Club, base);
    lemma_place_step(bits, Suit::Club, base + 1);
    lemma_place_step(bits, Suit::Club, base + 2);
    lemma_place_step(bits, Suit::Club, base + 3);
    let below = all_ranks_below(bits, base);
    let spade = bit(bits, base + 3);
    let heart = bit(bits, base + 2);
    let diamond = bit(bits, base + 1);
    let club = bit(bits, base);
    lemma_four_times(rank, spade, heart, diamond, club, below);
}

/// A rank that stands up to four times before a list stands there as often
/// as it is given.
proof fn lemma_four_times(rank: Rank, a: bool, b: bool, c: bool, d: bool, rest: Seq<Rank>)
    ensures
        once(a, rank) + (once(b, rank) + (once(c, rank) + (once(d, rank) + rest))) == copies(
            rank,
            (if d {
                1nat
            } else {
                0nat
            }) + (if c {
                1nat
            } else {
                0nat
            }) + (if b {
                1nat
            } else {
                0nat
            }) + (if a {
                1nat
            } else {
                0nat
            }),
        ) + rest,
{
    let count = (if d {
        1nat
    } else {
        0nat
    }) + (if c {
        1nat
    } else {
        0nat
    }) + (if b {
        1nat
    } else {
        0nat
    }) + (if a {
        1nat
    } else {
        0nat
    });
    assert(once(a, rank) + (once(b, rank) + (once(c, rank) + (once(d, rank) + rest))) =~= copies(
        rank,
        count,
    ) + rest);
}

/// The ranks of a hand, suit by suit and all together, as its set of cards
/// gives them.
proof fn lemma_ranks_of_set(hand: CardSet, suit: Suit, k: int)
    requires
        0 <= k <= 13,
    ensures
        suit_ranks_below(hand.bits(), suit, 4 * k) == suit_ranks(hand@, suit, k),
        all_ranks_below(hand.bits(), 4 * k) == spread(hand@, k),
    decreases k,
{
    if k > 0 {
        lemma_ranks_of_set(hand, suit, k - 1);
        lemma_rank_step_suit(hand, suit, k - 1);
        lemma_rank_step_all(hand, k - 1);
    }
}

/// Exchanging the suits keeps the number of cards of every rank.
proof fn lemma_counts_turned(
    hand: CardSet,
    turned: CardSet,
    turn: spec_fn(Suit) -> Suit,
    rank: Rank,
)
    requires
        suits_turned(hand, turned, turn),
    ensures
        rank_count(turned@, rank) == rank_count(hand@, rank),
{
    lemma_card_turned(hand, turned, turn, Card { rank, suit: Suit::Club });
    lemma_card_turned(hand, turned, turn, Card { rank, suit: Suit::Diamond });
    lemma_card_turned(hand, turned, turn, Card { rank, suit: Suit::Heart });
    lemma_card_turned(hand, turned, turn, Card { rank, suit: Suit::Spade });
}

/// The hand holds a card where the other hand holds the card with the suit
/// exchanged.
proof fn lemma_card_turned(
    hand: CardSet,
    turned: CardSet,
    turn: spec_fn(Suit) -> Suit,
    card: Card,
)
    requires
        suits_turned(hand, turned, turn),
    ensures
        hand@.contains(card) == turned@.contains(Card { rank: card.rank, suit: turn(card.suit) }),
{
}

/// Exchanging the suits exchanges the ranks of the suits.
proof fn lemma_suit_ranks_turned(
    hand: CardSet,
    turned: CardSet,
    turn: spec_fn(Suit) -> Suit,
    suit: Suit,
    k: int,
)
    requires
        suits_turned(hand, turned, turn),
        0 <= k <= 13,
    ensures
        suit_ranks(turned@, turn(suit), k) == suit_ranks(hand@, suit, k),
        spread(turned@, k) == spread(hand@, k),
    decreases k,
{
    if k > 0 {
        lemma_suit_ranks_turned(hand, turned, turn, suit, k - 1);
        lemma_card_turned(hand, turned, turn, Card { rank: Rank::at(k - 1), suit });
        lemma_counts_turned(hand, turned, turn, Rank::at(k - 1));
    }
}

/// The ranks of a hand, suit by suit and all together, are those that its
/// set of cards gives.
pub proof fn lemma_hand_ranks(hand: CardSet, suit: Suit)
    ensures
        suit_filter(hand.desc(), suit) == suit_ranks(hand@, suit, 13),
        ranks_of(hand.desc()) == spread(hand@, 13),
{
    hand.lemma_model();
    lemma_suit_filter_places(hand.bits(), suit, 52);
    lemma_ranks_of_set(hand, suit, 13);
}

/// The lists that count the same ranks hold the same ranks.
pub proof fn lemma_same_counts(a: Seq<Card>, b: Seq<Card>, times: nat, from: int)
    requires
        forall|rank: Rank| count_rank(a, rank) == count_rank(b, rank),
    ensures
        ranks_counted(a, times, from) == ranks_counted(b, times, from),
        cards_ranked_from(a, from) == cards_ranked_from(b, from),
    decreases 13 - from,
{
    if from < 13 {
        lemma_same_counts(a, b, times, from + 1);
    }
}

/// The scanner finds no run longer than the ranks allow: a run that it began
/// anew is no longer than the ranks that it was given.
proof fn lemma_scan_bound(run: Run, ranks: Seq<Rank>)
    ensures
        scan(run, ranks).len <= run.len + ranks.len(),
        scan(run, ranks).high != run.high ==> scan(run, ranks).len <= ranks.len(),
    decreases ranks.len(),
{
    if ranks.len() > 0 && run.len != 5 {
        lemma_scan_bound(scan_step(run, ranks[0]), ranks.drop_first());
    }
}

/// A straight takes five ranks.
pub proof fn lemma_straight_needs_five(ranks: Seq<Rank>)
    ensures
        straight_top(ranks) is Some ==> ranks.len() >= 5,
{
    if ranks.len() > 0 {
        lemma_scan_bound(Run { high: ranks[0], len: 1, last: ranks[0] }, ranks.drop_first());
    }
}

/// Every card has one of the four suits.
pub proof fn lemma_suits_add_up(cards: Seq<Card>)
    ensures
        suit_filter(cards, Suit::Club).len() + suit_filter(cards, Suit::Diamond).len()
            + suit_filter(cards, Suit::Heart).len() + suit_filter(cards, Suit::Spade).len()
            == cards.len(),
    decreases cards.len(),
{
    if cards.len() > 0 {
        lemma_suits_add_up(cards.drop_last());
    }
}

/// The list at `long` holds five ranks or more and no other list does; or,
/// where `long` is 4, no list does.
pub open spec fn one_long(lists: Seq<Seq<Rank>>, long: int) -> bool {
    &&& lists.len() == 4
    &&& 0 <= long <= 4
    &&& forall|i: int| 0 <= i < 4 ==> ((#[trigger] lists[i]).len() >= 5 <==> i == long)
}

/// The flush of the ranks of one suit.
pub open spec fn flush_in(ranks: Seq<Rank>) -> Option<HandEvaluation> {
    if ranks.len() >= 5 {
        Some(
            HandEvaluation::Flush {
                ranks_sorted_desc: [ranks[0], ranks[1], ranks[2], ranks[3], ranks[4]],
            },
        )
    } else {
        None
    }
}

/// The straight flush of the ranks of one suit.
pub open spec fn straight_flush_in(ranks: Seq<Rank>) -> Option<HandEvaluation> {
    match straight_top(ranks) {
        Some(highest_rank) => Some(HandEvaluation::StraightFlush { highest_rank }),
        None => None,
    }
}

/// Among the suits of seven cards or fewer no two hold five cards.
pub proof fn lemma_one_long(cards: Seq<Card>) -> (long: int)
    requires
        cards.len() <= 7,
    ensures
        one_long(suit_lists(cards), long),
{
    lemma_suits_add_up(cards);
    let lists = suit_lists(cards);
    assert(lists[0] == suited(cards, Suit::Club));
    assert(lists[1] == suited(cards, Suit::Diamond));
    assert(lists[2] == suited(cards, Suit::Heart));
    assert(lists[3] == suited(cards, Suit::Spade));
    if lists[0].len() >= 5 {
        0
    } else if lists[1].len() >= 5 {
        1
    } else if lists[2].len() >= 5 {
        2
    } else if lists[3].len() >= 5 {
        3
    } else {
        4
    }
}

/// Where one suit at most holds five cards, the flush and the straight
/// flush of a hand are those of that suit.
pub proof fn lemma_long_suit_decides(lists: Seq<Seq<Rank>>, long: int)
    requires
        one_long(lists, long),
    ensures
        long == 4 ==> flush_of(lists, 0) is None && straight_flush_of(lists, 0) is None,
        long < 4 ==> flush_of(lists, 0) == flush_in(lists[long]) && straight_flush_of(lists, 0)
            == straight_flush_in(lists[long]),
{
    reveal_with_fuel(flush_of, 5);
    reveal_with_fuel(straight_flush_of, 5);
    lemma_straight_needs_five(lists[0]);
    lemma_straight_needs_five(lists[1]);
    lemma_straight_needs_five(lists[2]);
    lemma_straight_needs_five(lists[3]);
}

/// Exchanging the suits exchanges the lists of ranks that the evaluator keeps
/// for the suits.
proof fn lemma_lists_turned(
    hand: CardSet,
    turned: CardSet,
    turn: spec_fn(Suit) -> Suit,
    suit: Suit,
)
    requires
        suits_turned(hand, turned, turn),
    ensures
        suited(turned.desc(), turn(suit)) == suited(hand.desc(), suit),
        suit_lists(turned.desc())[turn(suit).ord()] == suit_lists(hand.desc())[suit.ord()],
        ranks_of(turned.desc()) == ranks_of(hand.desc()),
{
    lemma_hand_ranks(hand, suit);
    lemma_hand_ranks(turned, turn(suit));
    lemma_suit_ranks_turned(hand, turned, turn, suit, 13);
    assert(Suit::at(turn(suit).ord()) == turn(suit));
    assert(Suit::at(suit.ord()) == suit);
}

/// The flush and the straight flush of a hand do not depend on which suit
/// is which.
proof fn lemma_flushes_turned(hand: CardSet, turned: CardSet, turn: spec_fn(Suit) -> Suit)
    requires
        suits_turned(hand, turned, turn),
        hand.desc().len() <= 7,
        turned.desc().len() <= 7,
    ensures
        flush_of(suit_lists(turned.desc()), 0) == flush_of(suit_lists(hand.desc()), 0),
        straight_flush_of(suit_lists(turned.desc()), 0) == straight_flush_of(
            suit_lists(hand.desc()),
            0,
        ),
{
    let here = suit_lists(hand.desc());
    let there = suit_lists(turned.desc());
    let long_here = lemma_one_long(hand.desc());
    let long_there = lemma_one_long(turned.desc());
    lemma_long_suit_decides(here, long_here);
    lemma_long_suit_decides(there, long_there);
    lemma_lists_turned(hand, turned, turn, Suit::Club);
    lemma_lists_turned(hand, turned, turn, Suit::Diamond);
    lemma_lists_turned(hand, turned, turn, Suit::Heart);
    lemma_lists_turned(hand, turned, turn, Suit::Spade);
    assert(here[0].len() >= 5 || here[1].len() >= 5 || here[2].len() >= 5 || here[3].len() >= 5
        <==> long_here < 4);
    assert(there[0].len() >= 5 || there[1].len() >= 5 || there[2].len() >= 5 || there[3].len() >= 5
        <==> long_there < 4);
    if long_here < 4 {
        let suit = Suit::at(long_here);
        assert(suit.ord() == long_here);
        assert(there[turn(suit).ord()] == here[long_here]);
        assert(long_there == turn(suit).ord());
    } else {
        if long_there < 4 {
            let suit = Suit::at(long_there);
            assert(suit.ord() == long_there);
            assert(turn(Suit::Club) == suit || turn(Suit::Diamond) == suit || turn(Suit::Heart)
                == suit || turn(Suit::Spade) == suit);
        }
    }
}

/// The value of a hand does not depend on which suit is which: a hand and
/// the hand with its suits exchanged among themselves are worth the same.
pub proof fn lemma_suits_do_not_matter(
    hand: CardSet,
    turned: CardSet,
    turn: spec_fn(Suit) -> Suit,
)
    requires
        hand.wf(),
        turned.wf(),
        suits_turned(hand, turned, turn),
    ensures
        postflop_value(turned) == postflop_value(hand),
        turned@.len() == hand@.len(),
{
    let here = hand.desc();
    let there = turned.desc();
    hand.lemma_model();
    turned.lemma_model();
    assert forall|rank: Rank| count_rank(there, rank) == count_rank(here, rank) by {
        lemma_count_rank_of_set(here, hand@, rank);
        lemma_count_rank_of_set(there, turned@, rank);
        lemma_counts_turned(hand, turned, turn, rank);
    }
    lemma_cards_ranked(here);
    lemma_cards_ranked(there);
    lemma_same_counts(there, here, 4, 0);
    lemma_same_counts(there, here, 3, 0);
    lemma_same_counts(there, here, 2, 0);
    lemma_same_counts(there, here, 1, 0);
    if 5 <= hand@.len() <= 7 {
        lemma_flushes_turned(hand, turned, turn);
        lemma_lists_turned(hand, turned, turn, Suit::Club);
        assert(rank_classes(there) == rank_classes(here));
    }
}

} // verus!
