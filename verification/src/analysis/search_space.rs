use crate::analysis::math::{binomial, lemma_binomial_deck, lemma_binomial_none, n_choose_r};
use crate::analysis::odds::OddsError;
use crate::analysis::work_queue::WorkQueue;
use crate::cards::card::Card;
use crate::cards::cardset::{CardSet, UNIVERSE_BITS};
use vstd::prelude::*;

verus! {

/// The sets that `chosen` makes with `k` cards of `cards`, in the order of
/// nested loops that walk `cards` from its first card on: first the sets that
/// hold the first card, then those that do not.
pub open spec fn subsets(cards: Seq<Card>, chosen: Set<Card>, k: nat) -> Seq<Set<Card>>
    decreases cards.len(),
{
    if k == 0 {
        seq![chosen]
    } else if cards.len() < k {
        Seq::empty()
    } else {
        subsets(cards.drop_first(), chosen.insert(cards[0]), (k - 1) as nat) + subsets(
            cards.drop_first(),
            chosen,
            k,
        )
    }
}

/// The sets of cards that a list of values holds.
pub open spec fn set_views(sets: Seq<CardSet>) -> Seq<Set<Card>> {
    Seq::new(sets.len(), |i: int| sets[i]@)
}

/// There are as many sets as there are ways to choose.
pub proof fn lemma_subsets_len(cards: Seq<Card>, chosen: Set<Card>, k: nat)
    ensures
        subsets(cards, chosen, k).len() == binomial(cards.len(), k),
    decreases cards.len(),
{
    if k == 0 {
    } else if cards.len() < k {
        lemma_binomial_none(cards.len(), k);
    } else {
        lemma_subsets_len(cards.drop_first(), chosen.insert(cards[0]), (k - 1) as nat);
        lemma_subsets_len(cards.drop_first(), chosen, k);
    }
}

/// The cards of `cards` differ from each other, and none of them is chosen
/// already.
pub open spec fn fresh_cards(cards: Seq<Card>, chosen: Set<Card>) -> bool {
    &&& forall|i: int, j: int| 0 <= i < j < cards.len() ==> cards[i] != cards[j]
    &&& forall|i: int| 0 <= i < cards.len() ==> !chosen.contains(#[trigger] cards[i])
}

/// Every set that `subsets` lists is made of the cards chosen before and of
/// `k` cards of `cards`.
pub proof fn lemma_subsets_members(cards: Seq<Card>, chosen: Set<Card>, k: nat, i: int)
    requires
        fresh_cards(cards, chosen),
        chosen.finite(),
        0 <= i < subsets(cards, chosen, k).len(),
    ensures
        subsets(cards, chosen, k)[i].finite(),
        subsets(cards, chosen, k)[i].len() == chosen.len() + k,
        chosen.subset_of(subsets(cards, chosen, k)[i]),
        forall|card: Card|
            subsets(cards, chosen, k)[i].contains(card) ==> chosen.contains(card) || cards.contains(
                card,
            ),
    decreases cards.len(),
{
    if k == 0 {
    } else if cards.len() < k {
    } else {
        let rest = cards.drop_first();
        let with = chosen.insert(cards[0]);
        let first = subsets(rest, with, (k - 1) as nat);
        let second = subsets(rest, chosen, k);
        assert forall|a: int, b: int| 0 <= a < b < rest.len() implies rest[a] != rest[b] by {
            assert(rest[a] == cards[a + 1] && rest[b] == cards[b + 1]);
        }
        assert forall|a: int| 0 <= a < rest.len() implies !with.contains(#[trigger] rest[a])
            && !chosen.contains(rest[a]) by {
            assert(rest[a] == cards[a + 1]);
        }
        assert forall|card: Card| rest.contains(card) implies cards.contains(card) by {
            let a = choose|a: int| 0 <= a < rest.len() && rest[a] == card;
            assert(cards[a + 1] == card);
        }
        assert(cards.contains(cards[0]));
        if i < first.len() {
            lemma_subsets_members(rest, with, (k - 1) as nat, i);
            assert(subsets(cards, chosen, k)[i] == first[i]);
        } else {
            lemma_subsets_members(rest, chosen, k, i - first.len());
            assert(subsets(cards, chosen, k)[i] == second[i - first.len()]);
        }
    }
}

/// No set is listed twice.
pub proof fn lemma_subsets_distinct(cards: Seq<Card>, chosen: Set<Card>, k: nat, i: int, j: int)
    requires
        fresh_cards(cards, chosen),
        chosen.finite(),
        0 <= i < j < subsets(cards, chosen, k).len(),
    ensures
        subsets(cards, chosen, k)[i] != subsets(cards, chosen, k)[j],
    decreases cards.len(),
{
    if k == 0 {
    } else if cards.len() < k {
    } else {
        let rest = cards.drop_first();
        let with = chosen.insert(cards[0]);
        let first = subsets(rest, with, (k - 1) as nat);
        let second = subsets(rest, chosen, k);
        assert forall|a: int, b: int| 0 <= a < b < rest.len() implies rest[a] != rest[b] by {
            assert(rest[a] == cards[a + 1] && rest[b] == cards[b + 1]);
        }
        assert forall|a: int| 0 <= a < rest.len() implies !with.contains(#[trigger] rest[a])
            && !chosen.contains(rest[a]) by {
            assert(rest[a] == cards[a + 1]);
        }
        if j < first.len() {
            lemma_subsets_distinct(rest, with, (k - 1) as nat, i, j);
            assert(subsets(cards, chosen, k)[i] == first[i]);
            assert(subsets(cards, chosen, k)[j] == first[j]);
        } else if i >= first.len() {
            lemma_subsets_distinct(rest, chosen, k, i - first.len(), j - first.len());
            assert(subsets(cards, chosen, k)[i] == second[i - first.len()]);
            assert(subsets(cards, chosen, k)[j] == second[j - first.len()]);
        } else {
            lemma_subsets_members(rest, with, (k - 1) as nat, i);
            lemma_subsets_members(rest, chosen, k, j - first.len());
            let a = first[i];
            let b = second[j - first.len()];
            assert(subsets(cards, chosen, k)[i] == a);
            assert(subsets(cards, chosen, k)[j] == b);
            assert(a.contains(cards[0]));
            if b.contains(cards[0]) {
                assert(rest.contains(cards[0]));
                let x = choose|x: int| 0 <= x < rest.len() && rest[x] == cards[0];
                assert(cards[x + 1] == cards[0]);
            }
        }
    }
}

/// The sets of `size` cards of a pool: as many as there are ways to choose,
/// each of `size` cards of the pool, no two the same.
pub proof fn lemma_combinations(pool: CardSet, size: nat)
    ensures
        subsets(pool.desc(), Set::<Card>::empty(), size).len() == binomial(pool@.len(), size),
        forall|i: int|
            0 <= i < subsets(pool.desc(), Set::<Card>::empty(), size).len() ==> {
                let set = #[trigger] subsets(pool.desc(), Set::<Card>::empty(), size)[i];
                set.finite() && set.len() == size && set.subset_of(pool@)
            },
        forall|i: int, j: int|
            0 <= i < j < subsets(pool.desc(), Set::<Card>::empty(), size).len() ==> subsets(
                pool.desc(),
                Set::<Card>::empty(),
                size,
            )[i] != subsets(pool.desc(), Set::<Card>::empty(), size)[j],
{
    let cards = pool.desc();
    let none = Set::<Card>::empty();
    pool.lemma_model();
    lemma_subsets_len(cards, none, size);
    assert forall|i: int, j: int| 0 <= i < j < cards.len() implies cards[i] != cards[j] by {
        assert(cards[i].ord() > cards[j].ord());
    }
    assert forall|i: int| 0 <= i < subsets(cards, none, size).len() implies {
        let set = #[trigger] subsets(cards, none, size)[i];
        set.finite() && set.len() == size && set.subset_of(pool@)
    } by {
        lemma_subsets_members(cards, none, size, i);
    }
    assert forall|i: int, j: int| 0 <= i < j < subsets(cards, none, size).len() implies subsets(
        cards,
        none,
        size,
    )[i] != subsets(cards, none, size)[j] by {
        lemma_subsets_distinct(cards, none, size, i, j);
    }
}

/// A piece of work: where it starts in the list of cards, the mask of the
/// cards chosen so far, how many cards it still needs, and the slot of its
/// first result.
type WorkItem = (usize, u64, usize, usize);

/// The cards that a piece of work has chosen so far.
spec fn item_set(item: WorkItem) -> Set<Card> {
    CardSet::of_bits((item.1 & UNIVERSE_BITS) as u64)@
}

/// The number of results of a piece of work on `n` cards.
spec fn item_len(n: nat, item: WorkItem) -> nat {
    binomial((n - item.0) as nat, item.2 as nat)
}

/// The piece of work stands for a stretch of `target`: the sets that it
/// makes are those of its slots.
spec fn item_valid(cards: Seq<Card>, target: Seq<Set<Card>>, item: WorkItem) -> bool {
    &&& item.0 <= cards.len()
    &&& item.2 <= cards.len() - item.0
    &&& item.3 + item_len(cards.len(), item) <= target.len()
    &&& subsets(cards.skip(item.0 as int), item_set(item), item.2 as nat) == target.subrange(
        item.3 as int,
        item.3 + item_len(cards.len(), item),
    )
}

/// Slot `p` belongs to the piece of work.
spec fn covers(n: nat, item: WorkItem, p: int) -> bool {
    item.3 <= p < item.3 + item_len(n, item)
}

/// Slot `p` belongs to a piece of work that waits.
spec fn covered(n: nat, pending: Seq<WorkItem>, p: int) -> bool {
    exists|i: int| 0 <= i < pending.len() && covers(n, #[trigger] pending[i], p)
}

/// The number of pieces of work that come of one piece that works on `len`
/// cards and needs `needed` of them, itself included: a piece that needs more
/// than five cards is split, one piece for each card that may be its next.
spec fn work(len: nat, needed: nat) -> nat
    decreases needed, len + 1,
{
    if needed <= 5 {
        1
    } else {
        1 + work_split(len, needed, 0)
    }
}

/// The pieces of work that come of the pieces into which a piece is split,
/// from the `i`-th on.
spec fn work_split(len: nat, needed: nat, i: nat) -> nat
    decreases needed, len - i,
{
    if needed < 1 || i + needed > len {
        0
    } else {
        work((len - i - 1) as nat, (needed - 1) as nat) + work_split(len, needed, i + 1)
    }
}

/// The pieces of work that come of the pieces that wait.
spec fn total_work(n: nat, pending: Seq<WorkItem>) -> nat
    decreases pending.len(),
{
    if pending.len() == 0 {
        0
    } else {
        total_work(n, pending.drop_last()) + work(
            (n - pending.last().0) as nat,
            pending.last().2 as nat,
        )
    }
}

proof fn lemma_total_push(n: nat, pending: Seq<WorkItem>, item: WorkItem)
    ensures
        total_work(n, pending.push(item)) == total_work(n, pending) + work(
            (n - item.0) as nat,
            item.2 as nat,
        ),
{
    assert(pending.push(item).drop_last() =~= pending);
}

proof fn lemma_total_remove(n: nat, pending: Seq<WorkItem>, i: int)
    requires
        0 <= i < pending.len(),
    ensures
        total_work(n, pending.remove(i)) + work((n - pending[i].0) as nat, pending[i].2 as nat)
            == total_work(n, pending),
    decreases pending.len(),
{
    if i == pending.len() - 1 {
        assert(pending.remove(i) =~= pending.drop_last());
    } else {
        lemma_total_remove(n, pending.drop_last(), i);
        assert(pending.remove(i).drop_last() =~= pending.drop_last().remove(i));
        assert(pending.remove(i).last() == pending.last());
    }
}

proof fn lemma_covered_remove(n: nat, pending: Seq<WorkItem>, i: int, p: int)
    requires
        0 <= i < pending.len(),
        covered(n, pending, p),
        !covers(n, pending[i], p),
    ensures
        covered(n, pending.remove(i), p),
{
    let j = choose|j: int| 0 <= j < pending.len() && covers(n, #[trigger] pending[j], p);
    if j < i {
        assert(pending.remove(i)[j] == pending[j]);
    } else {
        assert(pending.remove(i)[j - 1] == pending[j]);
    }
}

proof fn lemma_covered_push(n: nat, pending: Seq<WorkItem>, item: WorkItem, p: int)
    ensures
        covered(n, pending, p) ==> covered(n, pending.push(item), p),
        covers(n, item, p) ==> covered(n, pending.push(item), p),
{
    if covered(n, pending, p) {
        let j = choose|j: int| 0 <= j < pending.len() && covers(n, #[trigger] pending[j], p);
        assert(pending.push(item)[j] == pending[j]);
    }
    if covers(n, item, p) {
        assert(pending.push(item)[pending.len() as int] == item);
    }
}

/// Writes the sets that `current` makes with `needed` of the cards from
/// `start` on into the slots of `out` from `at` on, and returns the slot
/// behind the last one written.
fn fill_combinations(
    cards: &Vec<Card>,
    start: usize,
    current: CardSet,
    needed: usize,
    out: &mut Vec<CardSet>,
    at: usize,
) -> (next: usize)
    requires
        start <= cards@.len(),
        cards@.len() <= 52,
        at + binomial((cards@.len() - start) as nat, needed as nat) <= old(out)@.len(),
    ensures
        final(out)@.len() == old(out)@.len(),
        next == at + binomial((cards@.len() - start) as nat, needed as nat),
        set_views(final(out)@).subrange(at as int, next as int) == subsets(
            cards@.skip(start as int),
            current@,
            needed as nat,
        ),
        forall|p: int|
            0 <= p < old(out)@.len() && (p < at || p >= next) ==> final(out)@[p] == old(out)@[p],
    decreases cards@.len() - start,
{
    let ghost rest = cards@.skip(start as int);
    let total = out.len();
    if needed == 0 {
        assert(binomial((cards@.len() - start) as nat, 0) == 1);
        out.set(at, current);
        proof {
            assert(set_views(out@).subrange(at as int, at + 1) =~= seq![current@]);
        }
        return at + 1;
    }
    if cards.len() - start < needed {
        proof {
            lemma_binomial_none((cards@.len() - start) as nat, needed as nat);
            assert(set_views(out@).subrange(at as int, at as int) =~= Seq::<Set<Card>>::empty());
        }
        return at;
    }
    let mut with = current;
    with.insert(cards[start]);
    proof {
        assert(rest.drop_first() =~= cards@.skip(start + 1));
        assert(rest[0] == cards@[start as int]);
    }
    let mid = fill_combinations(cards, start + 1, with, needed - 1, out, at);
    let ghost half = out@;
    let next = fill_combinations(cards, start + 1, current, needed, out, mid);
    proof {
        let first = subsets(cards@.skip(start + 1), with@, (needed - 1) as nat);
        let second = subsets(cards@.skip(start + 1), current@, needed as nat);
        assert(set_views(out@).subrange(at as int, mid as int) =~= set_views(half).subrange(
            at as int,
            mid as int,
        ));
        assert(set_views(out@).subrange(at as int, next as int) =~= set_views(out@).subrange(
            at as int,
            mid as int,
        ) + set_views(out@).subrange(mid as int, next as int));
    }
    next
}

/// Does one piece of work: writes its results where it needs five cards or
/// fewer, and else splits it by its next card, one piece of work for each
/// card that can be the next, and puts the pieces into the queue.
fn parallel_combinations_of_slice(
    queue: &mut WorkQueue,
    cards: &Vec<Card>,
    work_item: WorkItem,
    out: &mut Vec<CardSet>,
    Ghost(target): Ghost<Seq<Set<Card>>>,
)
    requires
        cards@.len() <= 52,
        item_valid(cards@, target, work_item),
        old(out)@.len() == target.len(),
        forall|i: int|
            0 <= i < old(queue).pending().len() ==> item_valid(
                cards@,
                target,
                #[trigger] old(queue).pending()[i],
            ),
    ensures
        final(out)@.len() == target.len(),
        forall|p: int|
            0 <= p < target.len() && old(out)@[p]@ == target[p] ==> final(out)@[p]@ == target[p],
        forall|p: int|
            covers(cards@.len(), work_item, p) ==> final(out)@[p]@ == target[p] || covered(
                cards@.len(),
                final(queue).pending(),
                p,
            ),
        forall|p: int|
            covered(cards@.len(), old(queue).pending(), p) ==> covered(
                cards@.len(),
                final(queue).pending(),
                p,
            ),
        forall|i: int|
            0 <= i < final(queue).pending().len() ==> item_valid(
                cards@,
                target,
                #[trigger] final(queue).pending()[i],
            ),
        total_work(cards@.len(), final(queue).pending()) + 1 == total_work(
            cards@.len(),
            old(queue).pending(),
        ) + work((cards@.len() - work_item.0) as nat, work_item.2 as nat),
{
    let start = work_item.0;
    let current = CardSet::from_bits(work_item.1);
    let needed = work_item.2;
    let output = work_item.3;
    let ghost n = cards@.len();
    let len = cards.len() - start;
    let ghost region = item_len(n, work_item);
    if needed <= 5 {
        let ghost before = out@;
        let next = fill_combinations(cards, start, current, needed, out, output);
        proof {
            assert forall|p: int| covers(n, work_item, p) implies out@[p]@ == target[p] by {
                assert(set_views(out@).subrange(output as int, next as int)[p - output]
                    == target.subrange(output as int, output + region)[p - output]);
            }
        }
        return ;
    }
    let ghost entry = queue.pending();
    let total = out.len();
    let mut offset: usize = 0;
    let mut i: usize = 0;
    while i + needed <= len
        invariant
            needed >= 6,
            len == n - start,
            n == cards@.len(),
            start == work_item.0,
            needed == work_item.2,
            output == work_item.3,
            current@ == item_set(work_item),
            region == item_len(n, work_item),
            item_valid(cards@, target, work_item),
            i + needed <= len + 1,
            offset <= region,
            n <= 52,
            total == target.len(),
            subsets(cards@.skip(start + i), current@, needed as nat) == target.subrange(
                output + offset,
                output + region,
            ),
            forall|p: int| covered(n, entry, p) ==> covered(n, queue.pending(), p),
            forall|p: int| output <= p < output + offset ==> covered(n, queue.pending(), p),
            forall|k: int|
                0 <= k < queue.pending().len() ==> item_valid(
                    cards@,
                    target,
                    #[trigger] queue.pending()[k],
                ),
            total_work(n, queue.pending()) + work_split(len as nat, needed as nat, i as nat)
                == total_work(n, entry) + work_split(len as nat, needed as nat, 0),
        decreases len + 1 - i,
    {
        let ghost rest = cards@.skip(start + i);
        let ghost tail = cards@.skip(start + i + 1);
        let mut with = current;
        with.insert(cards[start + i]);
        let ghost first = subsets(tail, with@, (needed - 1) as nat);
        let ghost second = subsets(tail, current@, needed as nat);
        proof {
            assert(rest.drop_first() =~= tail);
            assert(rest[0] == cards@[start + i]);
            assert(subsets(rest, current@, needed as nat) == first + second);
            lemma_subsets_len(tail, with@, (needed - 1) as nat);
            lemma_subsets_len(rest, current@, needed as nat);
            assert((first + second).len() == first.len() + second.len());
            assert(target.subrange(output + offset, output + region).len() == region - offset);
        }
        let amount = n_choose_r(len - i - 1, needed - 1);
        let child: WorkItem = (start + i + 1, with.to_bits(), needed - 1, output + offset);
        proof {
            let whole = target.subrange(output + offset, output + region);
            assert(first =~= whole.subrange(0, amount as int));
            assert(second =~= whole.subrange(amount as int, whole.len() as int));
            assert(whole.subrange(0, amount as int) =~= target.subrange(
                output + offset,
                output + offset + amount,
            ));
            assert(whole.subrange(amount as int, whole.len() as int) =~= target.subrange(
                output + offset + amount,
                output + region,
            ));
            assert(item_set(child) == with@);
            assert(item_valid(cards@, target, child));
        }
        let ghost before = queue.pending();
        queue.push(child);
        proof {
            lemma_total_push(n, before, child);
            assert forall|p: int| covered(n, entry, p) implies covered(n, queue.pending(), p) by {
                lemma_covered_push(n, before, child, p);
            }
            assert forall|p: int| output <= p < output + offset + amount implies covered(
                n,
                queue.pending(),
                p,
            ) by {
                lemma_covered_push(n, before, child, p);
            }
            assert forall|k: int| 0 <= k < queue.pending().len() implies item_valid(
                cards@,
                target,
                #[trigger] queue.pending()[k],
            ) by {
                if k < before.len() {
                    assert(queue.pending()[k] == before[k]);
                }
            }
        }
        offset = offset + amount;
        i += 1;
    }
    proof {
        lemma_binomial_none((len - i) as nat, needed as nat);
        lemma_subsets_len(cards@.skip(start + i), current@, needed as nat);
        assert(offset == region);
    }
}

/// Every set of `size` cards of `pool`, in the order of nested loops that
/// walk the pool from its highest card down.
pub fn combinations(pool: CardSet, size: usize) -> (sets: Vec<CardSet>)
    requires
        binomial(pool@.len(), size as nat) <= usize::MAX,
    ensures
        set_views(sets@) == subsets(pool.desc(), Set::<Card>::empty(), size as nat),
        sets@.len() == binomial(pool@.len(), size as nat),
{
    let ghost target = subsets(pool.desc(), Set::<Card>::empty(), size as nat);
    proof {
        pool.lemma_model();
        lemma_subsets_len(pool.desc(), Set::<Card>::empty(), size as nat);
    }
    if pool.len() < size {
        let sets: Vec<CardSet> = Vec::new();
        proof {
            lemma_binomial_none(pool@.len(), size as nat);
            assert(set_views(sets@) =~= target);
        }
        return sets;
    }
    let amount = n_choose_r(pool.len(), size);
    let cards = pool.to_vec();
    let ghost n = cards@.len();
    let mut out: Vec<CardSet> = Vec::new();
    let mut filled: usize = 0;
    while filled < amount
        invariant
            filled <= amount,
            out@.len() == filled,
        decreases amount - filled,
    {
        out.push(CardSet::new());
        filled += 1;
    }
    let mut queue = WorkQueue::new();
    let root: WorkItem = (0, CardSet::new().to_bits(), size, 0);
    proof {
        assert(cards@.skip(0) =~= cards@);
        assert(target.subrange(0, target.len() as int) =~= target);
        assert(item_valid(cards@, target, root));
    }
    let ghost before = queue.pending();
    queue.push(root);
    proof {
        assert forall|p: int| 0 <= p < target.len() implies covered(n, queue.pending(), p) by {
            lemma_covered_push(n, before, root, p);
        }
    }
    loop
        invariant
            n == cards@.len(),
            n <= 52,
            cards@ == pool.desc(),
            target == subsets(pool.desc(), Set::<Card>::empty(), size as nat),
            target.len() == binomial(pool@.len(), size as nat),
            out@.len() == target.len(),
            forall|p: int|
                0 <= p < target.len() ==> out@[p]@ == target[p] || covered(n, queue.pending(), p),
            forall|i: int|
                0 <= i < queue.pending().len() ==> item_valid(
                    cards@,
                    target,
                    #[trigger] queue.pending()[i],
                ),
        decreases total_work(n, queue.pending()),
    {
        let ghost waiting = queue.pending();
        let ghost written = out@;
        match queue.pop() {
            None => {
                proof {
                    assert forall|p: int| 0 <= p < target.len() implies set_views(out@)[p]
                        == target[p] by {
                        assert(!covered(n, queue.pending(), p));
                    }
                    assert(set_views(out@) =~= target);
                }
                return out;
            },
            Some(work_item) => {
                let ghost i = choose|i: int|
                    0 <= i < waiting.len() && #[trigger] waiting[i] == work_item
                        && queue.pending() == waiting.remove(i);
                let ghost others = queue.pending();
                proof {
                    lemma_total_remove(n, waiting, i);
                    assert forall|k: int| 0 <= k < others.len() implies item_valid(
                        cards@,
                        target,
                        #[trigger] others[k],
                    ) by {
                        if k < i {
                            assert(others[k] == waiting[k]);
                        } else {
                            assert(others[k] == waiting[k + 1]);
                        }
                    }
                    lemma_work_positive((n - work_item.0) as nat, work_item.2 as nat);
                }
                parallel_combinations_of_slice(
                    &mut queue,
                    &cards,
                    work_item,
                    &mut out,
                    Ghost(target),
                );
                proof {
                    assert forall|p: int| 0 <= p < target.len() implies out@[p]@ == target[p]
                        || covered(n, queue.pending(), p) by {
                        if written[p]@ == target[p] {
                        } else if covers(n, work_item, p) {
                        } else {
                            lemma_covered_remove(n, waiting, i, p);
                        }
                    }
                }
            },
        }
    }
}

proof fn lemma_work_positive(len: nat, needed: nat)
    ensures
        work(len, needed) >= 1,
{
}

/// The cards of the board and of the first `i` pockets.
pub open spec fn dealt(pockets: Seq<CardSet>, board: CardSet, i: int) -> Set<Card>
    decreases i,
{
    if i <= 0 {
        board@
    } else {
        dealt(pockets, board, i - 1).union(pockets[i - 1]@)
    }
}

/// Every pocket holds two cards.
pub open spec fn pockets_have_two(pockets: Seq<CardSet>) -> bool {
    forall|i: int| 0 <= i < pockets.len() ==> (#[trigger] pockets[i])@.len() == 2
}

/// No card lies in two pockets, or in a pocket and on the board.
pub open spec fn all_disjoint(pockets: Seq<CardSet>, board: CardSet) -> bool {
    &&& forall|i: int, j: int|
        0 <= i < j < pockets.len() ==> (#[trigger] pockets[i])@.disjoint((#[trigger] pockets[j])@)
    &&& forall|i: int| 0 <= i < pockets.len() ==> board@.disjoint((#[trigger] pockets[i])@)
}

/// What is wrong with the cards of a showdown, if anything: a pocket that
/// does not hold two cards; else a card that was dealt twice; else a board of
/// more than five cards.
pub open spec fn cards_error(pockets: Seq<CardSet>, board: CardSet) -> Option<OddsError> {
    if !pockets_have_two(pockets) {
        Some(OddsError::PocketsMustHaveTwoCardsEach)
    } else if !all_disjoint(pockets, board) {
        Some(OddsError::DuplicateCards)
    } else if board@.len() > 5 {
        Some(OddsError::BoardTooLarge)
    } else {
        None
    }
}

/// The cards that are neither on the board nor in a pocket.
pub open spec fn undealt(pockets: Seq<CardSet>, board: CardSet) -> Set<Card> {
    Set::<Card>::full().difference(dealt(pockets, board, pockets.len() as int))
}

/// A card that was dealt lies on the board or in a pocket.
proof fn lemma_dealt_somewhere(pockets: Seq<CardSet>, board: CardSet, i: int, card: Card)
    requires
        0 <= i <= pockets.len(),
        dealt(pockets, board, i).contains(card),
    ensures
        board@.contains(card) || exists|k: int|
            0 <= k < i && (#[trigger] pockets[k])@.contains(card),
    decreases i,
{
    if i > 0 {
        if !pockets[i - 1]@.contains(card) {
            lemma_dealt_somewhere(pockets, board, i - 1, card);
        }
    }
}

/// The cards of the board and of a pocket were dealt.
proof fn lemma_dealt_holds(pockets: Seq<CardSet>, board: CardSet, i: int, k: int, card: Card)
    requires
        0 <= i <= pockets.len(),
    ensures
        board@.contains(card) ==> dealt(pockets, board, i).contains(card),
        0 <= k < i && pockets[k]@.contains(card) ==> dealt(pockets, board, i).contains(card),
    decreases i,
{
    if i > 0 {
        lemma_dealt_holds(pockets, board, i - 1, k, card);
    }
}

/// The cards that are left in the deck, where every pocket holds two cards,
/// no card was dealt twice and the board holds five cards at most; else what
/// is wrong.
pub fn undealt_cards(pockets: &[CardSet], board: CardSet) -> (left: Result<CardSet, OddsError>)
    ensures
        match cards_error(pockets@, board) {
            Some(error) => left == Err::<CardSet, OddsError>(error),
            None => left is Ok && left.unwrap()@ == undealt(pockets@, board),
        },
{
    let mut i: usize = 0;
    while i < pockets.len()
        invariant
            i <= pockets@.len(),
            forall|k: int| 0 <= k < i ==> (#[trigger] pockets@[k])@.len() == 2,
        decreases pockets@.len() - i,
    {
        if pockets[i].len() != 2 {
            return Err(OddsError::PocketsMustHaveTwoCardsEach);
        }
        i += 1;
    }
    let mut set = board;
    let mut i: usize = 0;
    while i < pockets.len()
        invariant
            i <= pockets@.len(),
            pockets_have_two(pockets@),
            set@ == dealt(pockets@, board, i as int),
            forall|a: int, b: int|
                0 <= a < b < i ==> (#[trigger] pockets@[a])@.disjoint((#[trigger] pockets@[b])@),
            forall|a: int| 0 <= a < i ==> board@.disjoint((#[trigger] pockets@[a])@),
        decreases pockets@.len() - i,
    {
        let pocket = pockets[i];
        if !set.disjoint_with(pocket) {
            proof {
                let card = choose|card: Card| set@.contains(card) && pocket@.contains(card);
                lemma_dealt_somewhere(pockets@, board, i as int, card);
                if board@.contains(card) {
                    assert(!board@.disjoint(pockets@[i as int]@));
                } else {
                    let k = choose|k: int| 0 <= k < i && (#[trigger] pockets@[k])@.contains(card);
                    assert(!pockets@[k]@.disjoint(pockets@[i as int]@));
                }
            }
            return Err(OddsError::DuplicateCards);
        }
        proof {
            assert forall|a: int| 0 <= a < i implies (#[trigger] pockets@[a])@.disjoint(
                pockets@[i as int]@,
            ) by {
                assert forall|card: Card| pockets@[a]@.contains(card) implies !pocket@.contains(
                    card,
                ) by {
                    lemma_dealt_holds(pockets@, board, i as int, a, card);
                }
            }
            assert(board@.disjoint(pocket@)) by {
                assert forall|card: Card| board@.contains(card) implies !pocket@.contains(card) by {
                    lemma_dealt_holds(pockets@, board, i as int, 0, card);
                }
            }
        }
        set = set.union(pocket);
        i += 1;
    }
    if board.len() > 5 {
        return Err(OddsError::BoardTooLarge);
    }
    Ok(CardSet::universe().difference(set))
}

/// Nothing, where every pocket holds two cards, no card was dealt twice and
/// the board holds five cards at most; else what is wrong.
pub fn assert_input_is_well_formed(pockets: &[CardSet], board: CardSet) -> (checked: Result<
    (),
    OddsError,
>)
    ensures
        match cards_error(pockets@, board) {
            Some(error) => checked == Err::<(), OddsError>(error),
            None => checked is Ok,
        },
{
    match undealt_cards(pockets, board) {
        Ok(_) => Ok(()),
        Err(error) => Err(error),
    }
}

/// Every hand of seven cards of the deck.
pub fn all_seven_card_hands() -> (hands: Vec<CardSet>)
    ensures
        set_views(hands@) == subsets(CardSet::of_set(Set::full()).desc(), Set::empty(), 7),
        hands@.len() == 133_784_560,
{
    let universe = CardSet::universe();
    proof {
        lemma_binomial_deck();
        use_type_invariant(&universe);
        universe.lemma_of_set();
    }
    combinations(universe, 7)
}

/// Nothing, where every pocket holds two cards; else the error that says so.
pub fn all_boards<const N_PLAYERS: usize>(pockets: &[CardSet; N_PLAYERS]) -> (checked: Result<
    (),
    OddsError,
>)
    ensures
        checked == if pockets_have_two(pockets@) {
            Ok::<(), OddsError>(())
        } else {
            Err::<(), OddsError>(OddsError::PocketsMustHaveTwoCardsEach)
        },
{
    let mut i: usize = 0;
    while i < N_PLAYERS
        invariant
            i <= N_PLAYERS,
            pockets@.len() == N_PLAYERS,
            forall|k: int| 0 <= k < i ==> (#[trigger] pockets@[k])@.len() == 2,
        decreases N_PLAYERS - i,
    {
        if pockets[i].len() != 2 {
            return Err(OddsError::PocketsMustHaveTwoCardsEach);
        }
        i += 1;
    }
    Ok(())
}

} // verus!
