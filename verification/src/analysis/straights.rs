use crate::analysis::evaluate_hand::{scan, scan_step, straight_top, Run};
use crate::cards::card::Rank;
use vstd::prelude::*;

verus! {

/// The list holds the rank at place `q`.
pub open spec fn holds(ranks: Seq<Rank>, q: int) -> bool {
    exists|j: int| 0 <= j < ranks.len() && (#[trigger] ranks[j]).ord() == q
}

/// The list holds the five ranks from place `t` down.
pub open spec fn run_at(ranks: Seq<Rank>, t: int) -> bool {
    4 <= t <= 12 && holds(ranks, t) && holds(ranks, t - 1) && holds(ranks, t - 2) && holds(
        ranks,
        t - 3,
    ) && holds(ranks, t - 4)
}

/// The list holds the ace, the five, the four, the three and the two.
pub open spec fn wheel(ranks: Seq<Rank>) -> bool {
    holds(ranks, 12) && holds(ranks, 3) && holds(ranks, 2) && holds(ranks, 1) && holds(ranks, 0)
}

/// No rank of the list is higher than a rank before it.
pub open spec fn falling(ranks: Seq<Rank>) -> bool {
    forall|i: int, j: int| 0 <= i < j < ranks.len() ==> ranks[i].ord() >= ranks[j].ord()
}

/// The top of the highest run of five ranks with its top at place `t` or
/// below.
pub open spec fn highest_run(ranks: Seq<Rank>, t: int) -> Option<Rank>
    decreases t,
{
    if t < 4 {
        None
    } else if run_at(ranks, t) {
        Some(Rank::at(t))
    } else {
        highest_run(ranks, t - 1)
    }
}

/// The top of the best straight that the ranks of the list make: the top of
/// the highest run of five ranks; or the five, where there is no run but the
/// ace, the five, the four, the three and the two.
pub open spec fn straight_in(ranks: Seq<Rank>) -> Option<Rank> {
    match highest_run(ranks, 12) {
        Some(top) => Some(top),
        None => if wheel(ranks) {
            Some(Rank::Five)
        } else {
            None
        },
    }
}

/// What the scanner knows behind the first `i` ranks of a falling list: its
/// run is the ranks from its top down to the rank seen last, the rank above
/// its top is missing, and a run of five that it has not found reaches below
/// the rank seen last.
spec fn scanned(ranks: Seq<Rank>, i: int, run: Run) -> bool {
    &&& 1 <= i <= ranks.len()
    &&& run.last == ranks[i - 1]
    &&& 1 <= run.len <= 5
    &&& run.high.ord() - run.len + 1 == run.last.ord()
    &&& forall|q: int| run.last.ord() <= q <= run.high.ord() ==> holds(ranks, q)
    &&& !holds(ranks, run.high.ord() + 1)
    &&& forall|t: int| #[trigger]
        run_at(ranks, t) ==> t <= run.high.ord() && (run.len < 5 ==> t - 4 < run.last.ord())
}

/// A falling list holds no rank between two ranks that follow each other.
proof fn lemma_gap(ranks: Seq<Rank>, i: int, q: int)
    requires
        falling(ranks),
        1 <= i < ranks.len(),
        ranks[i].ord() < q < ranks[i - 1].ord(),
    ensures
        !holds(ranks, q),
{
    if holds(ranks, q) {
        let j = choose|j: int| 0 <= j < ranks.len() && (#[trigger] ranks[j]).ord() == q;
        if j < i {
            assert(ranks[j].ord() >= ranks[i - 1].ord());
        } else {
            assert(ranks[i].ord() >= ranks[j].ord());
        }
    }
}

/// A falling list holds no rank above its first or below its last.
proof fn lemma_ends(ranks: Seq<Rank>, q: int)
    requires
        falling(ranks),
        ranks.len() > 0,
        q > ranks[0].ord() || q < ranks.last().ord(),
    ensures
        !holds(ranks, q),
{
    if holds(ranks, q) {
        let j = choose|j: int| 0 <= j < ranks.len() && (#[trigger] ranks[j]).ord() == q;
        assert(ranks[0].ord() >= ranks[j].ord());
        assert(ranks[j].ord() >= ranks[ranks.len() - 1].ord());
    }
}

/// The scanner keeps what it knows over one more rank.
proof fn lemma_scan_step(ranks: Seq<Rank>, i: int, run: Run)
    requires
        falling(ranks),
        scanned(ranks, i, run),
        i < ranks.len(),
        run.len < 5,
    ensures
        scanned(ranks, i + 1, scan_step(run, ranks[i])),
{
    let rank = ranks[i];
    let next = scan_step(run, rank);
    assert(ranks[i - 1].ord() >= ranks[i].ord());
    assert(holds(ranks, rank.ord()));
    if rank == run.last {
    } else {
        assert(rank.ord() != run.last.ord());
        if run.high.ord() > rank.ord() && run.high.ord() - rank.ord() == run.len {
            assert forall|t: int| #[trigger] run_at(ranks, t) implies t <= next.high.ord() && (
            next.len < 5 ==> t - 4 < next.last.ord()) by {
                if next.len < 5 && t - 4 >= next.last.ord() {
                    assert(t - 4 < run.last.ord());
                }
            }
            assert forall|q: int| next.last.ord() <= q <= next.high.ord() implies holds(
                ranks,
                q,
            ) by {}
        } else {
            assert(rank.ord() < run.last.ord() - 1);
            lemma_gap(ranks, i, rank.ord() + 1);
            assert forall|t: int| #[trigger] run_at(ranks, t) implies t <= next.high.ord() && (
            next.len < 5 ==> t - 4 < next.last.ord()) by {
                if t > rank.ord() {
                    if t >= run.last.ord() {
                        assert(t - 4 < run.last.ord());
                        lemma_gap(ranks, i, run.last.ord() - 1);
                    } else {
                        lemma_gap(ranks, i, t);
                    }
                }
            }
        }
    }
}

/// What the scanner ends with, from what it knows behind the first `i`
/// ranks.
proof fn lemma_scan_rest(ranks: Seq<Rank>, i: int, run: Run)
    requires
        falling(ranks),
        scanned(ranks, i, run),
    ensures
        scanned(ranks, ranks.len() as int, scan(run, ranks.skip(i))) || (scan(
            run,
            ranks.skip(i),
        ).len == 5 && exists|k: int| scanned(ranks, k, scan(run, ranks.skip(i)))),
    decreases ranks.len() - i,
{
    let rest = ranks.skip(i);
    if rest.len() == 0 {
    } else if run.len == 5 {
        assert(scanned(ranks, i, scan(run, rest)));
    } else {
        lemma_scan_step(ranks, i, run);
        assert(rest[0] == ranks[i]);
        assert(rest.drop_first() =~= ranks.skip(i + 1));
        lemma_scan_rest(ranks, i + 1, scan_step(run, ranks[i]));
    }
}

/// A run above which there is none is the highest; and where there is no
/// run, there is no highest.
proof fn lemma_highest_run(ranks: Seq<Rank>, t: int, top: int)
    requires
        t <= 12,
        forall|s: int| #[trigger] run_at(ranks, s) ==> s <= top,
    ensures
        top <= t && run_at(ranks, top) ==> highest_run(ranks, t) == Some(Rank::at(top)),
        (forall|s: int| !#[trigger] run_at(ranks, s)) ==> highest_run(ranks, t) is None,
    decreases t,
{
    if t >= 4 {
        lemma_highest_run(ranks, t - 1, top);
    }
}

/// On a list that falls the scanner finds the best straight that the ranks
/// of the list make.
pub proof fn lemma_scanner_finds_best(ranks: Seq<Rank>)
    requires
        falling(ranks),
    ensures
        straight_top(ranks) == straight_in(ranks),
{
    if ranks.len() == 0 {
        assert forall|s: int| !#[trigger] run_at(ranks, s) by {}
        lemma_highest_run(ranks, 12, 12);
    } else {
        let first = Run { high: ranks[0], len: 1, last: ranks[0] };
        assert(holds(ranks, ranks[0].ord()));
        lemma_ends(ranks, ranks[0].ord() + 1);
        assert forall|t: int| #[trigger] run_at(ranks, t) implies t <= first.high.ord() && (
        first.len < 5 ==> t - 4 < first.last.ord()) by {
            if t > ranks[0].ord() {
                lemma_ends(ranks, t);
            }
        }
        assert(scanned(ranks, 1, first));
        assert(ranks.skip(1) =~= ranks.drop_first());
        lemma_scan_rest(ranks, 1, first);
        let run = scan(first, ranks.drop_first());
        if run.len == 5 {
            let k = if scanned(ranks, ranks.len() as int, run) {
                ranks.len() as int
            } else {
                choose|k: int| scanned(ranks, k, run)
            };
            assert(scanned(ranks, k, run));
            assert(run_at(ranks, run.high.ord())) by {
                assert(holds(ranks, run.high.ord()));
                assert(holds(ranks, run.high.ord() - 1));
                assert(holds(ranks, run.high.ord() - 2));
                assert(holds(ranks, run.high.ord() - 3));
                assert(holds(ranks, run.high.ord() - 4));
            }
            lemma_highest_run(ranks, 12, run.high.ord());
            assert(Rank::at(run.high.ord()) == run.high);
        } else {
            assert(scanned(ranks, ranks.len() as int, run));
            assert forall|s: int| !#[trigger] run_at(ranks, s) by {
                if run_at(ranks, s) {
                    lemma_ends(ranks, s - 4);
                }
            }
            lemma_highest_run(ranks, 12, 12);
            if wheel(ranks) {
                lemma_ends(ranks, -1);
                if ranks.last().ord() > 0 {
                    lemma_ends(ranks, 0);
                }
                if ranks[0].ord() < 12 {
                    lemma_ends(ranks, 12);
                }
                assert(run.last.ord() == 0);
                assert(run.high.ord() >= 3) by {
                    assert(holds(ranks, run.high.ord() + 1) || run.high.ord() >= 3);
                }
                assert(ranks[0] == Rank::Ace);
                assert(run.high == Rank::Five);
            } else {
                if run.len == 4 && run.high == Rank::Five && ranks[0] == Rank::Ace {
                    assert(holds(ranks, 3));
                    assert(holds(ranks, 2));
                    assert(holds(ranks, 1));
                    assert(holds(ranks, 0));
                    assert(holds(ranks, ranks[0].ord()));
                }
            }
        }
    }
}

} // verus!
