use crate::analysis::evaluate_hand::{comes_before, hand_value, HandEvaluation};
use crate::analysis::math::SatisfactionFraction;
use crate::analysis::search_space::{all_disjoint, cards_error, pockets_have_two};
use crate::cards::cardset::CardSet;
use vstd::prelude::*;
use vstd::set_lib::lemma_set_disjoint_lens;
use vstd::std_specs::convert::FromSpecImpl;

verus! {

/// The value of the hand that a player makes with a board of five cards.
pub open spec fn player_value(player: CardSet, board: CardSet) -> HandEvaluation {
    hand_value(CardSet::of_set(board@.union(player@)).desc())
}

/// The value of every player's hand on one board.
pub open spec fn board_values(players: Seq<CardSet>, board: CardSet) -> Seq<HandEvaluation> {
    Seq::new(players.len(), |i: int| player_value(players[i], board))
}

/// Player `i` holds a hand that loses to no other hand.
pub open spec fn is_top(values: Seq<HandEvaluation>, i: int) -> bool {
    forall|j: int| 0 <= j < values.len() ==> !values[i].loses_to(#[trigger] values[j])
}

/// How many of the first `n` players hold a hand that loses to no other.
pub open spec fn top_count(values: Seq<HandEvaluation>, n: int) -> nat
    decreases n,
{
    if n <= 0 {
        0
    } else {
        top_count(values, n - 1) + if is_top(values, n - 1) {
            1nat
        } else {
            0nat
        }
    }
}

/// Player `i` shares the best hand of the board with `k` other players.
pub open spec fn draws_with(players: Seq<CardSet>, board: CardSet, i: int, k: int) -> bool {
    let values = board_values(players, board);
    is_top(values, i) && top_count(values, players.len() as int) == k + 1
}

/// On how many of the boards player `i` shares the best hand with `k` other
/// players; with none, the player wins outright.
pub open spec fn draws_on(players: Seq<CardSet>, boards: Seq<CardSet>, i: int, k: int) -> nat
    decreases boards.len(),
{
    if boards.len() == 0 {
        0
    } else {
        draws_on(players, boards.drop_last(), i, k) + if draws_with(players, boards.last(), i, k) {
            1nat
        } else {
            0nat
        }
    }
}

/// On how many of the boards player `i` does not hold the best hand.
pub open spec fn losses_on(players: Seq<CardSet>, boards: Seq<CardSet>, i: int) -> nat
    decreases boards.len(),
{
    if boards.len() == 0 {
        0
    } else {
        losses_on(players, boards.drop_last(), i) + if is_top(
            board_values(players, boards.last()),
            i,
        ) {
            0nat
        } else {
            1nat
        }
    }
}

/// On how many of the boards player `i` shares the best hand with fewer
/// than `n` other players.
pub open spec fn draws_below(players: Seq<CardSet>, boards: Seq<CardSet>, i: int, n: int) -> nat
    decreases n,
{
    if n <= 0 {
        0
    } else {
        draws_below(players, boards, i, n - 1) + draws_on(players, boards, i, n - 1)
    }
}

/// The players and boards of a showdown: between 2 and 23 players, five
/// cards on every board, two in every pocket, and no card dealt twice.
pub open spec fn showdown_ok(players: Seq<CardSet>, boards: Seq<CardSet>) -> bool {
    &&& 2 <= players.len() <= 23
    &&& forall|b: int|
        0 <= b < boards.len() ==> (#[trigger] boards[b])@.len() == 5 && cards_error(
            players,
            boards[b],
        ) is None
}

/// The sum of the numbers of `s`.
pub open spec fn sum(s: Seq<usize>) -> int
    decreases s.len(),
{
    if s.len() == 0 {
        0
    } else {
        sum(s.drop_last()) + s.last()
    }
}

/// Of two lists of equal length one comes before the other, or they are the
/// same list; never two of these at once.
pub proof fn lemma_order_total(a: Seq<int>, b: Seq<int>)
    requires
        a.len() == b.len(),
    ensures
        a == b || comes_before(a, b) || comes_before(b, a),
        !(comes_before(a, b) && comes_before(b, a)),
        a == b ==> !comes_before(a, b),
    decreases a.len(),
{
    if a.len() == 0 {
        assert(a =~= b);
    } else {
        lemma_order_total(a.drop_first(), b.drop_first());
        if a[0] == b[0] && a.drop_first() == b.drop_first() {
            assert(a =~= seq![a[0]] + a.drop_first());
            assert(b =~= seq![b[0]] + b.drop_first());
        }
    }
}

/// What comes before a list comes before what that list comes before.
pub proof fn lemma_order_transitive(a: Seq<int>, b: Seq<int>, c: Seq<int>)
    requires
        comes_before(a, b),
        comes_before(b, c),
    ensures
        comes_before(a, c),
    decreases a.len(),
{
    if a[0] == b[0] && b[0] == c[0] {
        lemma_order_transitive(a.drop_first(), b.drop_first(), c.drop_first());
    }
}

/// The hands that lose to no other are the hands that are as good as any
/// one of them.
pub proof fn lemma_top_ties(values: Seq<HandEvaluation>, best: int, i: int)
    requires
        0 <= best < values.len(),
        0 <= i < values.len(),
        is_top(values, best),
    ensures
        is_top(values, i) <==> values[i] == values[best],
{
    let top = values[best];
    if is_top(values, i) {
        assert(!values[i].loses_to(values[best]));
        assert(!values[best].loses_to(values[i]));
        lemma_order_total(values[i].key(), top.key());
        values[i].lemma_key_decides(top);
    }
    if values[i] == top {
        assert forall|j: int| 0 <= j < values.len() implies !values[i].loses_to(
            #[trigger] values[j],
        ) by {
            assert(!values[best].loses_to(values[j]));
        }
    }
}

/// Never more of the first `n` players hold the best hand than there are.
pub proof fn lemma_top_count_bound(values: Seq<HandEvaluation>, n: int)
    requires
        0 <= n,
    ensures
        top_count(values, n) <= n,
    decreases n,
{
    if n > 0 {
        lemma_top_count_bound(values, n - 1);
    }
}

/// A player who holds the best hand is counted among those who do.
pub proof fn lemma_top_counted(values: Seq<HandEvaluation>, n: int, i: int)
    requires
        0 <= i < n,
        is_top(values, i),
    ensures
        1 <= top_count(values, n) <= n,
    decreases n,
{
    lemma_top_count_bound(values, n);
    if i < n - 1 {
        lemma_top_counted(values, n - 1, i);
    } else {
        lemma_top_count_bound(values, n - 1);
    }
}

/// Player `i` holds the best hand of the board together with fewer than `n`
/// others.
pub open spec fn draws_upto(players: Seq<CardSet>, board: CardSet, i: int, n: int) -> bool {
    let values = board_values(players, board);
    is_top(values, i) && top_count(values, players.len() as int) <= n
}

proof fn lemma_draws_below_push(players: Seq<CardSet>, boards: Seq<CardSet>, i: int, n: int)
    requires
        boards.len() > 0,
        0 <= i < players.len(),
        0 <= n,
    ensures
        draws_below(players, boards, i, n) == draws_below(players, boards.drop_last(), i, n) + if
            draws_upto(players, boards.last(), i, n) {
            1nat
        } else {
            0nat
        },
    decreases n,
{
    let values = board_values(players, boards.last());
    if is_top(values, i) {
        lemma_top_counted(values, players.len() as int, i);
    }
    if n > 0 {
        lemma_draws_below_push(players, boards, i, n - 1);
        assert(draws_on(players, boards, i, n - 1) == draws_on(
            players,
            boards.drop_last(),
            i,
            n - 1,
        ) + if draws_with(players, boards.last(), i, n - 1) {
            1nat
        } else {
            0nat
        });
    }
}

/// Every board is counted once for every player: as a loss, or as a hand
/// that the player shares with some number of others.
pub proof fn lemma_every_board_counted(players: Seq<CardSet>, boards: Seq<CardSet>, i: int)
    requires
        0 <= i < players.len(),
    ensures
        draws_below(players, boards, i, players.len() as int) + losses_on(players, boards, i)
            == boards.len(),
    decreases boards.len(),
{
    let n = players.len() as int;
    if boards.len() == 0 {
        lemma_no_draws(players, boards, i, n);
    } else {
        lemma_every_board_counted(players, boards.drop_last(), i);
        lemma_draws_below_push(players, boards, i, n);
        let values = board_values(players, boards.last());
        if is_top(values, i) {
            lemma_top_counted(values, n, i);
        }
    }
}

proof fn lemma_no_draws(players: Seq<CardSet>, boards: Seq<CardSet>, i: int, n: int)
    requires
        boards.len() == 0,
    ensures
        draws_below(players, boards, i, n) == 0,
    decreases n,
{
    if n > 0 {
        lemma_no_draws(players, boards, i, n - 1);
    }
}

/// No count is larger than the number of boards.
pub proof fn lemma_counts_bounded(players: Seq<CardSet>, boards: Seq<CardSet>, i: int, k: int)
    ensures
        draws_on(players, boards, i, k) <= boards.len(),
        losses_on(players, boards, i) <= boards.len(),
    decreases boards.len(),
{
    if boards.len() > 0 {
        lemma_counts_bounded(players, boards.drop_last(), i, k);
    }
}

/// The sum of the first `n` counts of draws of a player.
proof fn lemma_sum_draws(players: Seq<CardSet>, boards: Seq<CardSet>, i: int, draws: Seq<usize>)
    requires
        forall|k: int| 0 <= k < draws.len() ==> draws[k] == draws_on(players, boards, i, k),
    ensures
        sum(draws) == draws_below(players, boards, i, draws.len() as int),
    decreases draws.len(),
{
    if draws.len() > 0 {
        lemma_sum_draws(players, boards, i, draws.drop_last());
    }
}

/// How a player fared over a number of boards: `draws_with[k]` counts the
/// boards on which the player shared the best hand with `k` others (so
/// `draws_with[0]` counts the wins), `losses` the boards on which another
/// hand was better.
#[derive(Debug, Clone, PartialEq, Eq, Hash)]
pub struct Outcome {
    pub draws_with: Vec<usize>,
    pub losses: usize,
}

/// The hands of the players on one board.
fn values_on_board(players: &[CardSet], board: CardSet) -> (values: Vec<HandEvaluation>)
    requires
        board@.len() == 5,
        cards_error(players@, board) is None,
    ensures
        values@ == board_values(players@, board),
{
    let mut values: Vec<HandEvaluation> = Vec::new();
    let mut i: usize = 0;
    while i < players.len()
        invariant
            i <= players@.len(),
            board@.len() == 5,
            cards_error(players@, board) is None,
            values@.len() == i,
            forall|k: int| 0 <= k < i ==> values@[k] == player_value(players@[k], board),
        decreases players@.len() - i,
    {
        let pocket = players[i];
        let hand = board.union(pocket);
        proof {
            board.lemma_model();
            pocket.lemma_model();
            assert(pockets_have_two(players@));
            assert(all_disjoint(players@, board));
            assert(players@[i as int]@.len() == 2);
            assert(board@.disjoint(players@[i as int]@));
            lemma_set_disjoint_lens(board@, pocket@);
        }
        match HandEvaluation::evaluate_postflop(hand) {
            Some(value) => {
                values.push(value);
            },
            None => {
                proof {
                    assert(false);
                }
            },
        }
        i += 1;
    }
    proof {
        assert(values@ =~= board_values(players@, board));
    }
    values
}

/// The place of a hand that loses to no other, and the number of hands that
/// lose to no other.
fn best_hands(values: &Vec<HandEvaluation>) -> (found: (usize, usize))
    requires
        values@.len() > 0,
    ensures
        found.0 < values@.len(),
        is_top(values@, found.0 as int),
        found.1 == top_count(values@, values@.len() as int),
        1 <= found.1 <= values@.len(),
{
    let n = values.len();
    let mut best: usize = 0;
    let mut i: usize = 1;
    proof {
        lemma_order_total(values@[0].key(), values@[0].key());
    }
    while i < n
        invariant
            1 <= i <= n,
            n == values@.len(),
            best < i,
            forall|j: int| 0 <= j < i ==> !values@[best as int].loses_to(#[trigger] values@[j]),
        decreases n - i,
    {
        if values[best].is_weaker_than(&values[i]) {
            proof {
                let old_best = values@[best as int];
                let new_best = values@[i as int];
                assert forall|j: int| 0 <= j <= i implies !new_best.loses_to(
                    #[trigger] values@[j],
                ) by {
                    if new_best.loses_to(values@[j]) {
                        if j == i {
                            lemma_order_total(new_best.key(), new_best.key());
                        } else {
                            lemma_order_transitive(old_best.key(), new_best.key(), values@[j].key());
                        }
                    }
                }
            }
            best = i;
        }
        i += 1;
    }
    let mut group: usize = 0;
    let mut i: usize = 0;
    while i < n
        invariant
            i <= n,
            n == values@.len(),
            best < n,
            is_top(values@, best as int),
            group == top_count(values@, i as int),
            group <= i,
        decreases n - i,
    {
        proof {
            lemma_top_ties(values@, best as int, i as int);
        }
        if values[i].ties_with(&values[best]) {
            group += 1;
        }
        i += 1;
    }
    proof {
        lemma_top_counted(values@, n as int, best as int);
    }
    (best, group)
}

/// Counts one more board for a player: a board on which the player is one
/// of `group` players with the best hand, or a board lost.
fn credit(outcome: &mut Outcome, shares: bool, group: usize)
    requires
        1 <= group <= old(outcome).draws_with@.len(),
        shares ==> old(outcome).draws_with@[group - 1] < usize::MAX,
        !shares ==> old(outcome).losses < usize::MAX,
    ensures
        shares ==> final(outcome).losses == old(outcome).losses && final(outcome).draws_with@
            == old(outcome).draws_with@.update(
            group - 1,
            (old(outcome).draws_with@[group - 1] + 1) as usize,
        ),
        !shares ==> final(outcome).losses == old(outcome).losses + 1 && final(outcome).draws_with@
            == old(outcome).draws_with@,
{
    if shares {
        outcome.draws_with[group - 1] = outcome.draws_with[group - 1] + 1;
    } else {
        outcome.losses = outcome.losses + 1;
    }
}

/// An outcome that counted the boards before the last one counts all of
/// them once the last board is credited.
proof fn lemma_credited(
    players: Seq<CardSet>,
    boards: Seq<CardSet>,
    p: int,
    group: int,
    before: Outcome,
    after: Outcome,
)
    requires
        boards.len() > 0,
        0 <= p < players.len(),
        before.counts(players, boards.drop_last(), p),
        group == top_count(board_values(players, boards.last()), players.len() as int),
        1 <= group <= players.len(),
        is_top(board_values(players, boards.last()), p) ==> after.losses == before.losses
            && after.draws_with@ == before.draws_with@.update(
            group - 1,
            (before.draws_with@[group - 1] + 1) as usize,
        ),
        !is_top(board_values(players, boards.last()), p) ==> after.losses == before.losses + 1
            && after.draws_with@ == before.draws_with@,
        before.draws_with@[group - 1] < usize::MAX,
    ensures
        after.counts(players, boards, p),
{
    reveal(Outcome::counts);
    assert forall|k: int| 0 <= k < players.len() implies after.draws_with@[k] == draws_on(
        players,
        boards,
        p,
        k,
    ) by {
        assert(before.draws_with@[k] == draws_on(players, boards.drop_last(), p, k));
    }
}

/// What an outcome that counts boards holds: one count of draws for each
/// player, and no count above the number of boards.
proof fn lemma_counts_hold(
    players: Seq<CardSet>,
    boards: Seq<CardSet>,
    p: int,
    k: int,
    outcome: Outcome,
)
    requires
        outcome.counts(players, boards, p),
        0 <= k < players.len(),
    ensures
        outcome.draws_with@.len() == players.len(),
        outcome.draws_with@[k] == draws_on(players, boards, p, k),
        outcome.draws_with@[k] <= boards.len(),
        outcome.losses == losses_on(players, boards, p),
        outcome.losses <= boards.len(),
{
    reveal(Outcome::counts);
    lemma_counts_bounded(players, boards, p, k);
}

/// An outcome of as many zeros as there are players counts no boards.
proof fn lemma_counts_nothing(players: Seq<CardSet>, p: int, outcome: Outcome)
    requires
        outcome.draws_with@.len() == players.len(),
        outcome.losses == 0,
        forall|k: int| 0 <= k < players.len() ==> outcome.draws_with@[k] == 0,
    ensures
        outcome.counts(players, Seq::<CardSet>::empty(), p),
{
    reveal(Outcome::counts);
}

impl Outcome {
    /// The outcome counts how player `i` fared on `boards`.
    #[verifier::opaque]
    pub open spec fn counts(self, players: Seq<CardSet>, boards: Seq<CardSet>, i: int) -> bool {
        &&& self.draws_with@.len() == players.len()
        &&& forall|k: int|
            0 <= k < players.len() ==> self.draws_with@[k] == draws_on(players, boards, i, k)
        &&& self.losses == losses_on(players, boards, i)
    }

    /// How every player fared on the boards.
    pub fn tally(players: &[CardSet], boards: &[CardSet]) -> (outcomes: Vec<Outcome>)
        requires
            showdown_ok(players@, boards@),
        ensures
            outcomes@.len() == players@.len(),
            forall|i: int|
                0 <= i < players@.len() ==> (#[trigger] outcomes@[i]).counts(
                    players@,
                    boards@,
                    i,
                ),
            forall|i: int|
                0 <= i < players@.len() ==> sum((#[trigger] outcomes@[i]).draws_with@)
                    + outcomes@[i].losses == boards@.len(),
    {
        let n = players.len();
        let mut outcomes: Vec<Outcome> = Vec::new();
        let mut i: usize = 0;
        while i < n
            invariant
                i <= n,
                outcomes@.len() == i,
                forall|p: int|
                    0 <= p < i ==> (#[trigger] outcomes@[p]).draws_with@.len() == n
                        && outcomes@[p].losses == 0 && forall|k: int|
                        0 <= k < n ==> outcomes@[p].draws_with@[k] == 0,
            decreases n - i,
        {
            let mut draws: Vec<usize> = Vec::new();
            let mut k: usize = 0;
            while k < n
                invariant
                    k <= n,
                    draws@.len() == k,
                    forall|j: int| 0 <= j < k ==> draws@[j] == 0,
                decreases n - k,
            {
                draws.push(0);
                k += 1;
            }
            outcomes.push(Outcome { draws_with: draws, losses: 0 });
            i += 1;
        }
        proof {
            assert(boards@.take(0) =~= Seq::<CardSet>::empty());
            assert forall|p: int| 0 <= p < n implies (#[trigger] outcomes@[p]).counts(
                players@,
                boards@.take(0),
                p,
            ) by {
                lemma_counts_nothing(players@, p, outcomes@[p]);
            }
        }
        let total = boards.len();
        let mut b: usize = 0;
        while b < total
            invariant
                b <= boards@.len(),
                total == boards@.len(),
                n == players@.len(),
                showdown_ok(players@, boards@),
                outcomes@.len() == n,
                forall|p: int|
                    0 <= p < n ==> (#[trigger] outcomes@[p]).counts(
                        players@,
                        boards@.take(b as int),
                        p,
                    ),
            decreases boards@.len() - b,
        {
            let board = boards[b];
            let ghost seen = boards@.take(b as int);
            let ghost next = boards@.take(b + 1);
            proof {
                assert(next.drop_last() =~= seen);
                assert(next.last() == boards@[b as int]);
            }
            let values = values_on_board(players, board);
            let (best, group) = best_hands(&values);
            let mut p: usize = 0;
            while p < n
                invariant
                    p <= n,
                    n == players@.len(),
                    n == values@.len(),
                    outcomes@.len() == n,
                    best < n,
                    1 <= group <= n,
                    values@ == board_values(players@, board),
                    is_top(values@, best as int),
                    group == top_count(values@, n as int),
                    next.drop_last() == seen,
                    next.last() == board,
                    next.len() == b + 1,
                    seen.len() == b,
                    b < total,
                    forall|q: int|
                        0 <= q < p ==> (#[trigger] outcomes@[q]).counts(players@, next, q),
                    forall|q: int|
                        p <= q < n ==> (#[trigger] outcomes@[q]).counts(players@, seen, q),
                decreases n - p,
            {
                proof {
                    lemma_top_ties(values@, best as int, p as int);
                    lemma_counts_hold(players@, seen, p as int, group - 1, outcomes@[p as int]);
                }
                let ghost before = outcomes@;
                let shares = values[p].ties_with(&values[best]);
                credit(&mut outcomes[p], shares, group);
                proof {
                    assert forall|q: int| 0 <= q < n && q != p implies outcomes@[q] == before[q] by {}
                    lemma_credited(
                        players@,
                        next,
                        p as int,
                        group as int,
                        before[p as int],
                        outcomes@[p as int],
                    );
                }
                p += 1;
            }
            b += 1;
        }
        proof {
            assert(boards@.take(boards@.len() as int) =~= boards@);
            assert forall|i: int| 0 <= i < players@.len() implies sum(
                (#[trigger] outcomes@[i]).draws_with@,
            ) + outcomes@[i].losses == boards@.len() by {
                reveal(Outcome::counts);
                lemma_sum_draws(players@, boards@, i, outcomes@[i].draws_with@);
                lemma_every_board_counted(players@, boards@, i);
            }
        }
        outcomes
    }

    /// How every one of the `N_PLAYERS` players fared on the boards.
    pub fn evaluate<const N_PLAYERS: usize>(players: &[CardSet; N_PLAYERS], boards: &[CardSet]) -> (outcomes:
        Vec<Outcome>)
        requires
            showdown_ok(players@, boards@),
        ensures
            outcomes@.len() == N_PLAYERS,
            forall|i: int|
                0 <= i < N_PLAYERS ==> (#[trigger] outcomes@[i]).counts(players@, boards@, i),
            forall|i: int|
                0 <= i < N_PLAYERS ==> sum((#[trigger] outcomes@[i]).draws_with@)
                    + outcomes@[i].losses == boards@.len(),
    {
        Outcome::tally(players.as_slice(), boards)
    }

    /// An outcome with the same counts.
    pub fn duplicate(&self) -> (copy: Outcome)
        ensures
            copy.draws_with@ == self.draws_with@,
            copy.losses == self.losses,
            forall|players: Seq<CardSet>, boards: Seq<CardSet>, i: int|
                self.counts(players, boards, i) ==> #[trigger] copy.counts(players, boards, i),
    {
        let mut draws: Vec<usize> = Vec::new();
        let mut k: usize = 0;
        while k < self.draws_with.len()
            invariant
                k <= self.draws_with@.len(),
                draws@.len() == k,
                forall|j: int| 0 <= j < k ==> draws@[j] == self.draws_with@[j],
            decreases self.draws_with@.len() - k,
        {
            draws.push(self.draws_with[k]);
            k += 1;
        }
        proof {
            assert(draws@ =~= self.draws_with@);
            reveal(Outcome::counts);
        }
        Outcome { draws_with: draws, losses: self.losses }
    }

    /// The number of boards counted.
    pub fn total_hand_count(&self) -> (total: usize)
        requires
            sum(self.draws_with@) + self.losses <= usize::MAX,
        ensures
            total == sum(self.draws_with@) + self.losses,
    {
        proof {
            lemma_sum_take(self.draws_with@, 0);
        }
        let draws = sum_all(&self.draws_with);
        draws + self.losses
    }

    /// Wins among the boards counted.
    pub fn win_ratio(&self) -> (ratio: SatisfactionFraction)
        requires
            self.draws_with@.len() > 0,
            sum(self.draws_with@) + self.losses <= usize::MAX,
        ensures
            ratio.satisfying == self.draws_with@[0],
            ratio.total == sum(self.draws_with@) + self.losses,
    {
        SatisfactionFraction { satisfying: self.draws_with[0], total: self.total_hand_count() }
    }

    /// Boards on which the best hand was shared, among the boards counted.
    pub fn draw_ratio(&self) -> (ratio: SatisfactionFraction)
        requires
            sum(self.draws_with@) + self.losses <= usize::MAX,
        ensures
            ratio.satisfying == sum(self.draws_with@) - if self.draws_with@.len() > 0 {
                self.draws_with@[0] as int
            } else {
                0
            },
            ratio.total == sum(self.draws_with@) + self.losses,
    {
        proof {
            lemma_sum_take(self.draws_with@, 0);
        }
        let all = sum_all(&self.draws_with);
        let shared = if self.draws_with.len() > 0 {
            proof {
                lemma_sum_take(self.draws_with@, 1);
                assert(self.draws_with@.take(1).drop_last() =~= Seq::<usize>::empty());
                assert(self.draws_with@.take(1).last() == self.draws_with@[0]);
                assert(sum(self.draws_with@.take(1).drop_last()) == 0);
                assert(sum(self.draws_with@.take(1)) == self.draws_with@[0]);
            }
            all - self.draws_with[0]
        } else {
            0
        };
        SatisfactionFraction { satisfying: shared, total: self.total_hand_count() }
    }

    /// Losses among the boards counted.
    pub fn loss_ratio(&self) -> (ratio: SatisfactionFraction)
        requires
            sum(self.draws_with@) + self.losses <= usize::MAX,
        ensures
            ratio.satisfying == self.losses,
            ratio.total == sum(self.draws_with@) + self.losses,
    {
        SatisfactionFraction { satisfying: self.losses, total: self.total_hand_count() }
    }
}

/// The sum of the numbers of `values`.
fn sum_all(values: &Vec<usize>) -> (total: usize)
    requires
        sum(values@) <= usize::MAX,
    ensures
        total == sum(values@),
{
    sum_slice(values.as_slice())
}

/// The sum of the numbers of `values`.
fn sum_slice(values: &[usize]) -> (total: usize)
    requires
        sum(values@) <= usize::MAX,
    ensures
        total == sum(values@),
{
    let mut total: usize = 0;
    let mut i: usize = 0;
    while i < values.len()
        invariant
            i <= values@.len(),
            total == sum(values@.take(i as int)),
            sum(values@) <= usize::MAX,
        decreases values@.len() - i,
    {
        proof {
            assert(values@.take(i + 1).drop_last() =~= values@.take(i as int));
            assert(values@.take(i + 1).last() == values@[i as int]);
            lemma_sum_take(values@, i + 1);
        }
        total = total + values[i];
        i += 1;
    }
    proof {
        assert(values@.take(values@.len() as int) =~= values@);
    }
    total
}

/// The first numbers add up to no more than all of them.
pub proof fn lemma_sum_take(s: Seq<usize>, n: int)
    requires
        0 <= n <= s.len(),
    ensures
        0 <= sum(s.take(n)) <= sum(s),
    decreases s.len(),
{
    if s.len() == 0 {
        assert(s.take(n) =~= s);
    } else if n == s.len() {
        assert(s.take(n) =~= s);
        lemma_sum_take(s.drop_last(), n - 1);
    } else {
        lemma_sum_take(s.drop_last(), n);
        assert(s.take(n) =~= s.drop_last().take(n));
    }
}

/// How one of `N_PLAYERS` players fared over a number of boards, with one
/// count of draws for each number of players that can share the best hand.
#[derive(Debug, Clone, PartialEq, Eq, Copy, Hash)]
pub struct ArrayOutcome<const N_PLAYERS: usize> {
    pub draws_with: [usize; N_PLAYERS],
    pub losses: usize,
}

impl<const N_PLAYERS: usize> ArrayOutcome<N_PLAYERS> {
    /// The outcome counts how player `i` fared on `boards`.
    pub open spec fn counts(self, players: Seq<CardSet>, boards: Seq<CardSet>, i: int) -> bool {
        &&& forall|k: int|
            0 <= k < N_PLAYERS ==> self.draws_with@[k] == draws_on(players, boards, i, k)
        &&& self.losses == losses_on(players, boards, i)
    }

    /// How every one of the `N_PLAYERS` players fared on the boards.
    pub fn evaluate(players: &[CardSet; N_PLAYERS], boards: &[CardSet]) -> (outcomes: [ArrayOutcome<
        N_PLAYERS,
    >; N_PLAYERS])
        requires
            showdown_ok(players@, boards@),
        ensures
            forall|i: int|
                0 <= i < N_PLAYERS ==> (#[trigger] outcomes@[i]).counts(players@, boards@, i),
            forall|i: int|
                0 <= i < N_PLAYERS ==> sum((#[trigger] outcomes@[i]).draws_with@)
                    + outcomes@[i].losses == boards@.len(),
    {
        let tallies = Outcome::tally(players.as_slice(), boards);
        let mut outcomes = [ArrayOutcome { draws_with: [0; N_PLAYERS], losses: 0 };N_PLAYERS];
        let mut i: usize = 0;
        while i < N_PLAYERS
            invariant
                i <= N_PLAYERS,
                tallies@.len() == N_PLAYERS,
                players@.len() == N_PLAYERS,
                forall|p: int|
                    0 <= p < N_PLAYERS ==> (#[trigger] tallies@[p]).counts(players@, boards@, p),
                forall|p: int|
                    0 <= p < i ==> (#[trigger] outcomes@[p]).draws_with@ == tallies@[p].draws_with@
                        && outcomes@[p].losses == tallies@[p].losses,
            decreases N_PLAYERS - i,
        {
            proof {
                lemma_counts_hold(players@, boards@, i as int, 0, tallies@[i as int]);
            }
            let mut draws = [0usize;N_PLAYERS];
            let mut k: usize = 0;
            while k < N_PLAYERS
                invariant
                    k <= N_PLAYERS,
                    i < N_PLAYERS,
                    tallies@.len() == N_PLAYERS,
                    tallies@[i as int].draws_with@.len() == N_PLAYERS,
                    forall|j: int| 0 <= j < k ==> draws@[j] == tallies@[i as int].draws_with@[j],
                decreases N_PLAYERS - k,
            {
                draws[k] = tallies[i].draws_with[k];
                k += 1;
            }
            proof {
                assert(draws@ =~= tallies@[i as int].draws_with@);
            }
            outcomes[i] = ArrayOutcome { draws_with: draws, losses: tallies[i].losses };
            i += 1;
        }
        proof {
            reveal(Outcome::counts);
        }
        outcomes
    }

    /// The number of boards counted.
    pub fn total_hand_count(&self) -> (total: usize)
        requires
            sum(self.draws_with@) + self.losses <= usize::MAX,
        ensures
            total == sum(self.draws_with@) + self.losses,
    {
        proof {
            lemma_sum_take(self.draws_with@, 0);
        }
        let draws = sum_slice(self.draws_with.as_slice());
        draws + self.losses
    }

    /// Wins among the boards counted.
    pub fn win_ratio(&self) -> (ratio: SatisfactionFraction)
        requires
            N_PLAYERS > 0,
            sum(self.draws_with@) + self.losses <= usize::MAX,
        ensures
            ratio.satisfying == self.draws_with@[0],
            ratio.total == sum(self.draws_with@) + self.losses,
    {
        SatisfactionFraction { satisfying: self.draws_with[0], total: self.total_hand_count() }
    }

    /// Boards on which the best hand was shared, among the boards counted.
    pub fn draw_ratio(&self) -> (ratio: SatisfactionFraction)
        requires
            sum(self.draws_with@) + self.losses <= usize::MAX,
        ensures
            ratio.satisfying == sum(self.draws_with@) - if N_PLAYERS > 0 {
                self.draws_with@[0] as int
            } else {
                0
            },
            ratio.total == sum(self.draws_with@) + self.losses,
    {
        proof {
            lemma_sum_take(self.draws_with@, 0);
        }
        let all = sum_slice(self.draws_with.as_slice());
        let shared = if N_PLAYERS > 0 {
            proof {
                lemma_sum_take(self.draws_with@, 1);
                assert(self.draws_with@.take(1).drop_last() =~= Seq::<usize>::empty());
                assert(self.draws_with@.take(1).last() == self.draws_with@[0]);
                assert(sum(self.draws_with@.take(1).drop_last()) == 0);
                assert(sum(self.draws_with@.take(1)) == self.draws_with@[0]);
            }
            all - self.draws_with[0]
        } else {
            0
        };
        SatisfactionFraction { satisfying: shared, total: self.total_hand_count() }
    }

    /// Losses among the boards counted.
    pub fn loss_ratio(&self) -> (ratio: SatisfactionFraction)
        requires
            sum(self.draws_with@) + self.losses <= usize::MAX,
        ensures
            ratio.satisfying == self.losses,
            ratio.total == sum(self.draws_with@) + self.losses,
    {
        SatisfactionFraction { satisfying: self.losses, total: self.total_hand_count() }
    }

    /// The same counts, with the draws in a vector.
    pub fn to_outcome(&self) -> (outcome: Outcome)
        ensures
            outcome.draws_with@ == self.draws_with@,
            outcome.losses == self.losses,
    {
        let mut draws: Vec<usize> = Vec::new();
        let mut k: usize = 0;
        while k < N_PLAYERS
            invariant
                k <= N_PLAYERS,
                draws@.len() == k,
                forall|j: int| 0 <= j < k ==> draws@[j] == self.draws_with@[j],
            decreases N_PLAYERS - k,
        {
            draws.push(self.draws_with[k]);
            k += 1;
        }
        proof {
            assert(draws@ =~= self.draws_with@);
        }
        Outcome { draws_with: draws, losses: self.losses }
    }
}

impl<const N_PLAYERS: usize> From<ArrayOutcome<N_PLAYERS>> for Outcome {
    fn from(value: ArrayOutcome<N_PLAYERS>) -> (outcome: Outcome) {
        value.to_outcome()
    }
}

impl<const N_PLAYERS: usize> FromSpecImpl<ArrayOutcome<N_PLAYERS>> for Outcome {
    open spec fn obeys_from_spec() -> bool {
        false
    }

    open spec fn from_spec(value: ArrayOutcome<N_PLAYERS>) -> Outcome {
        arbitrary()
    }
}

} // verus!
