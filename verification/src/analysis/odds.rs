use crate::analysis::hand_distribution::{count_kind, kind_of, HandDistribution};
use crate::analysis::math::{lemma_binomial_deck, lemma_binomial_grows};
use crate::analysis::outcomes::{showdown_ok, Outcome};
use crate::analysis::search_space::{
    all_disjoint, cards_error, combinations, dealt, lemma_subsets_members, pockets_have_two,
    set_views, subsets, undealt, undealt_cards,
};
use crate::cards::card::Card;
use crate::cards::cardset::CardSet;
use vstd::prelude::*;
use vstd::set_lib::lemma_set_disjoint_lens;

verus! {

/// Why the odds of a showdown cannot be computed.
#[derive(Debug, Clone, Copy, PartialEq, Eq, Hash, Structural)]
pub enum OddsError {
    TooFewPlayers,
    TooManyPlayers,
    PocketsMustHaveTwoCardsEach,
    BoardTooLarge,
    DuplicateCards,
}

/// The odds of one player of a showdown.
#[derive(Debug, Clone, PartialEq, Eq, Hash)]
pub struct OddsCalculation {
    pub pocket: CardSet,
    pub outcome: Outcome,
    pub hand_distribution: HandDistribution,
}

/// What is wrong with a showdown, if anything: first what is wrong with its
/// cards; else fewer than 2 players; else more than 23.
pub open spec fn odds_error(pockets: Seq<CardSet>, board: CardSet) -> Option<OddsError> {
    if cards_error(pockets, board) is Some {
        cards_error(pockets, board)
    } else if pockets.len() < 2 {
        Some(OddsError::TooFewPlayers)
    } else if pockets.len() > 23 {
        Some(OddsError::TooManyPlayers)
    } else {
        None
    }
}

/// Every way to fill the board up to five cards from the cards that were not
/// dealt, in the order of `subsets`.
pub open spec fn runouts(pockets: Seq<CardSet>, board: CardSet) -> Seq<Set<Card>> {
    subsets(
        CardSet::of_set(undealt(pockets, board)).desc(),
        Set::<Card>::empty(),
        (5 - board@.len()) as nat,
    )
}

/// Every board of five cards that the showdown can come to.
pub open spec fn full_boards(pockets: Seq<CardSet>, board: CardSet) -> Seq<CardSet> {
    Seq::new(
        runouts(pockets, board).len(),
        |i: int| CardSet::of_set(runouts(pockets, board)[i].union(board@)),
    )
}

/// The hands that a pocket makes with the boards.
pub open spec fn player_hands(pocket: CardSet, boards: Seq<CardSet>) -> Seq<CardSet> {
    Seq::new(boards.len(), |i: int| CardSet::of_set(boards[i]@.union(pocket@)))
}

/// A board that is filled up from the cards that were not dealt holds five
/// cards, and none of a pocket.
proof fn lemma_full_board(pockets: Seq<CardSet>, board: CardSet, left: CardSet, i: int)
    requires
        odds_error(pockets, board) is None,
        left.wf(),
        left@ == undealt(pockets, board),
        0 <= i < runouts(pockets, board).len(),
    ensures
        runouts(pockets, board)[i].finite(),
        runouts(pockets, board)[i].union(board@).finite(),
        runouts(pockets, board)[i].union(board@).len() == 5,
        forall|p: int|
            0 <= p < pockets.len() ==> runouts(pockets, board)[i].union(board@).disjoint(
                (#[trigger] pockets[p])@,
            ),
{
    let cards = left.desc();
    let none = Set::<Card>::empty();
    let k = (5 - board@.len()) as nat;
    left.lemma_of_set();
    left.lemma_model();
    board.lemma_model();
    assert forall|a: int, b: int| 0 <= a < b < cards.len() implies cards[a] != cards[b] by {
        assert(cards[a].ord() > cards[b].ord());
    }
    lemma_subsets_members(cards, none, k, i);
    let runout = runouts(pockets, board)[i];
    assert(runout.disjoint(board@)) by {
        assert forall|card: Card| runout.contains(card) implies !board@.contains(card) by {
            assert(cards.contains(card));
            if board@.contains(card) {
                lemma_dealt_grows(pockets, board, pockets.len() as int, card);
            }
        }
    }
    lemma_set_disjoint_lens(runout, board@);
    assert forall|p: int| 0 <= p < pockets.len() implies runout.union(board@).disjoint(
        (#[trigger] pockets[p])@,
    ) by {
        assert forall|card: Card| runout.union(board@).contains(card) implies !pockets[p]@.contains(
            card,
        ) by {
            if runout.contains(card) {
                assert(cards.contains(card));
                if pockets[p]@.contains(card) {
                    lemma_dealt_pocket(pockets, board, pockets.len() as int, p, card);
                }
            } else {
                assert(board@.disjoint(pockets[p]@));
            }
        }
    }
}

/// The cards of the board were dealt.
proof fn lemma_dealt_grows(pockets: Seq<CardSet>, board: CardSet, i: int, card: Card)
    requires
        0 <= i <= pockets.len(),
        board@.contains(card),
    ensures
        dealt(pockets, board, i).contains(card),
    decreases i,
{
    if i > 0 {
        lemma_dealt_grows(pockets, board, i - 1, card);
    }
}

/// The cards of a pocket were dealt.
proof fn lemma_dealt_pocket(pockets: Seq<CardSet>, board: CardSet, i: int, p: int, card: Card)
    requires
        0 <= p < i <= pockets.len(),
        pockets[p]@.contains(card),
    ensures
        dealt(pockets, board, i).contains(card),
    decreases i,
{
    if p < i - 1 {
        lemma_dealt_pocket(pockets, board, i - 1, p, card);
    }
}

/// A hand of two cards and a board of five that share no card is a hand of
/// a kind: it is not discarded.
proof fn lemma_hand_has_value(pocket: CardSet, board: CardSet)
    requires
        pocket@.len() == 2,
        board@.len() == 5,
        board@.disjoint(pocket@),
        pocket.wf(),
        board.wf(),
    ensures
        kind_of(CardSet::of_set(board@.union(pocket@))) != 9,
{
    pocket.lemma_model();
    board.lemma_model();
    lemma_set_disjoint_lens(board@, pocket@);
    lemma_of_set_view(board@.union(pocket@), board, pocket);
}

/// The value that holds the cards of two sets holds their union.
proof fn lemma_of_set_view(cards: Set<Card>, a: CardSet, b: CardSet)
    requires
        a.wf(),
        b.wf(),
        cards == a@.union(b@),
    ensures
        CardSet::of_set(cards)@ == cards,
        CardSet::of_set(cards).wf(),
{
    a.lemma_union(b);
}

/// No hand of `hands` is discarded where each is of some kind.
proof fn lemma_none_discarded(hands: Seq<CardSet>)
    requires
        forall|i: int| 0 <= i < hands.len() ==> kind_of(#[trigger] hands[i]) != 9,
    ensures
        count_kind(hands, 9) == 0,
    decreases hands.len(),
{
    if hands.len() > 0 {
        assert(kind_of(hands[hands.len() - 1]) != 9);
        assert forall|i: int| 0 <= i < hands.drop_last().len() implies kind_of(
            #[trigger] hands.drop_last()[i],
        ) != 9 by {
            assert(hands.drop_last()[i] == hands[i]);
        }
        lemma_none_discarded(hands.drop_last());
    }
}

/// `odds` are the odds of the showdown: the error where something is wrong
/// with it; else, for each player in the order of the pockets, the pocket,
/// how the player fares on every board that the showdown can come to, and
/// the kinds of the hands that the player makes with those boards.
pub open spec fn odds_of(
    pockets: Seq<CardSet>,
    board: CardSet,
    odds: Result<Vec<OddsCalculation>, OddsError>,
) -> bool {
    match odds_error(pockets, board) {
        Some(error) => odds == Err::<Vec<OddsCalculation>, OddsError>(error),
        None => odds is Ok && {
            let results = odds.unwrap()@;
            let boards = full_boards(pockets, board);
            &&& results.len() == pockets.len()
            &&& forall|p: int|
                0 <= p < results.len() ==> {
                    &&& (#[trigger] results[p]).pocket == pockets[p]
                    &&& results[p].outcome.counts(pockets, boards, p)
                    &&& results[p].hand_distribution.counts(player_hands(pockets[p], boards))
                    &&& results[p].hand_distribution.discarded_hands == 0
                }
        },
    }
}

/// For each player of a showdown the odds over every way in which the board
/// can be filled up to five cards; or what is wrong with the showdown.
pub fn calculate_odds(pockets: &[CardSet], board: CardSet) -> (odds: Result<
    Vec<OddsCalculation>,
    OddsError,
>)
    ensures
        odds_of(pockets@, board, odds),
{
    let left = match undealt_cards(pockets, board) {
        Ok(left) => left,
        Err(error) => {
            return Err(error);
        },
    };
    if pockets.len() < 2 {
        return Err(OddsError::TooFewPlayers);
    }
    if pockets.len() > 23 {
        return Err(OddsError::TooManyPlayers);
    }
    let n = pockets.len();
    let missing = 5 - board.len();
    proof {
        use_type_invariant(&left);
        use_type_invariant(&board);
        left.lemma_of_set();
        left.lemma_model();
        lemma_binomial_deck();
        lemma_binomial_grows(left@.len(), 52, missing as nat);
    }
    let run = combinations(left, missing);
    let ghost target = full_boards(pockets@, board);
    let mut boards: Vec<CardSet> = Vec::new();
    let mut i: usize = 0;
    while i < run.len()
        invariant
            i <= run@.len(),
            boards@.len() == i,
            target == full_boards(pockets@, board),
            set_views(run@) == runouts(pockets@, board),
            forall|b: int|
                0 <= b < i ==> boards@[b] == target[b] && (#[trigger] boards@[b]).wf()
                    && boards@[b]@ == runouts(pockets@, board)[b].union(board@),
        decreases run@.len() - i,
    {
        let full = run[i].union(board);
        proof {
            assert(set_views(run@)[i as int] == run@[i as int]@);
            use_type_invariant(&full);
        }
        boards.push(full);
        i += 1;
    }
    proof {
        assert(boards@ =~= target);
        assert forall|b: int| 0 <= b < target.len() implies (#[trigger] target[b])@.len() == 5
            && cards_error(pockets@, target[b]) is None && target[b].wf() by {
            lemma_full_board(pockets@, board, left, b);
            assert(boards@[b].wf());
            boards@[b].lemma_of_set();
            assert(all_disjoint(pockets@, board));
            assert(pockets_have_two(pockets@));
            assert forall|p: int| 0 <= p < pockets@.len() implies target[b]@.disjoint(
                (#[trigger] pockets@[p])@,
            ) by {}
            assert(all_disjoint(pockets@, target[b]));
        }
        assert(showdown_ok(pockets@, boards@));
    }
    let outcomes = Outcome::tally(pockets, boards.as_slice());
    let mut results: Vec<OddsCalculation> = Vec::new();
    let mut p: usize = 0;
    while p < n
        invariant
            p <= n,
            n == pockets@.len(),
            boards@ == target,
            outcomes@.len() == n,
            results@.len() == p,
            pockets_have_two(pockets@),
            forall|b: int|
                0 <= b < target.len() ==> (#[trigger] target[b])@.len() == 5 && cards_error(
                    pockets@,
                    target[b],
                ) is None && target[b].wf(),
            forall|q: int|
                0 <= q < n ==> (#[trigger] outcomes@[q]).counts(pockets@, target, q),
            forall|q: int|
                0 <= q < p ==> {
                    &&& (#[trigger] results@[q]).pocket == pockets@[q]
                    &&& results@[q].outcome.counts(pockets@, target, q)
                    &&& results@[q].hand_distribution.counts(player_hands(pockets@[q], target))
                    &&& results@[q].hand_distribution.discarded_hands == 0
                },
        decreases n - p,
    {
        let pocket = pockets[p];
        let ghost wanted = player_hands(pocket, target);
        let mut hands: Vec<CardSet> = Vec::new();
        let mut b: usize = 0;
        while b < boards.len()
            invariant
                b <= boards@.len(),
                boards@ == target,
                hands@.len() == b,
                wanted == player_hands(pocket, target),
                forall|h: int| 0 <= h < b ==> hands@[h] == wanted[h],
            decreases boards@.len() - b,
        {
            hands.push(boards[b].union(pocket));
            b += 1;
        }
        let distribution = HandDistribution::evaluate(hands.as_slice());
        proof {
            assert(hands@ =~= wanted);
            use_type_invariant(&pocket);
            assert forall|h: int| 0 <= h < wanted.len() implies kind_of(#[trigger] wanted[h])
                != 9 by {
                assert(pockets@[p as int]@.len() == 2);
                assert(cards_error(pockets@, target[h]) is None);
                assert(all_disjoint(pockets@, target[h]));
                assert(target[h]@.disjoint(pockets@[p as int]@));
                lemma_hand_has_value(pocket, target[h]);
            }
            lemma_none_discarded(wanted);
        }
        proof {
            assert(outcomes@[p as int].counts(pockets@, target, p as int));
        }
        results.push(
            OddsCalculation {
                pocket,
                outcome: outcomes[p].duplicate(),
                hand_distribution: distribution,
            },
        );
        p += 1;
    }
    Ok(results)
}

} // verus!
