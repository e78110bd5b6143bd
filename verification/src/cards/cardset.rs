use crate::cards::card::{card_at, card_index, lemma_card_places, lemma_place_cards, Card};
use core::ops::{
    Add, AddAssign, BitAnd, BitAndAssign, BitOr, BitOrAssign, Sub, SubAssign,
};
use vstd::prelude::*;
use vstd::std_specs::convert::FromSpecImpl;
use vstd::std_specs::ops::{AddSpecImpl, BitAndSpecImpl, BitOrSpecImpl, SubSpecImpl};

verus! {

/// The mask of the 52 places of the deck.
pub const UNIVERSE_BITS: u64 = 0x000F_FFFF_FFFF_FFFF;

/// The mask of the twelve bits that no card uses.
pub const UNUSED_BITS: u64 = 0xFFF0_0000_0000_0000;

/// Whether bit `i` of `bits` is set.
pub open spec fn bit(bits: u64, i: int) -> bool {
    0 <= i < 64 && (bits >> (i as u64)) & 1 == 1
}

/// The number of set bits of `bits` below position `n`.
pub open spec fn count_below(bits: u64, n: int) -> nat
    decreases n,
{
    if n <= 0 {
        0
    } else {
        count_below(bits, n - 1) + if bit(bits, n - 1) {
            1nat
        } else {
            0nat
        }
    }
}

/// The number of ones in the binary representation of `x`.
pub open spec fn popcount(x: u64) -> nat
    decreases x,
{
    if x == 0 {
        0
    } else {
        (x % 2) as nat + popcount(x / 2)
    }
}

/// `u64::count_ones` returns the number of ones in the binary representation
/// of its argument.
pub assume_specification[ u64::count_ones ](x: u64) -> (n: u32)
    ensures
        n == popcount(x),
;

proof fn lemma_bit_or(a: u64, b: u64, i: u64)
    by (bit_vector)
    requires
        i < 64,
    ensures
        (((a | b) >> i) & 1 == 1) == (((a >> i) & 1 == 1) || ((b >> i) & 1 == 1)),
{
}

proof fn lemma_bit_and(a: u64, b: u64, i: u64)
    by (bit_vector)
    requires
        i < 64,
    ensures
        (((a & b) >> i) & 1 == 1) == (((a >> i) & 1 == 1) && ((b >> i) & 1 == 1)),
{
}

proof fn lemma_bit_and_not(a: u64, b: u64, i: u64)
    by (bit_vector)
    requires
        i < 64,
    ensures
        (((a & !b) >> i) & 1 == 1) == (((a >> i) & 1 == 1) && !((b >> i) & 1 == 1)),
{
}

proof fn lemma_bit_single(j: u64, i: u64)
    by (bit_vector)
    requires
        i < 64,
        j < 64,
    ensures
        (((1u64 << j) >> i) & 1 == 1) == (i == j),
{
}

proof fn lemma_bit_test(a: u64, j: u64)
    by (bit_vector)
    requires
        j < 64,
    ensures
        (a & (1u64 << j) != 0) == ((a >> j) & 1 == 1),
{
}

proof fn lemma_bit_universe(i: u64)
    by (bit_vector)
    requires
        i < 64,
    ensures
        ((0x000F_FFFF_FFFF_FFFFu64 >> i) & 1 == 1) == (i < 52),
        (0u64 >> i) & 1 == 0,
{
}

proof fn lemma_bit_unused(a: u64, i: u64)
    by (bit_vector)
    requires
        a & 0xFFF0_0000_0000_0000u64 == 0,
        52 <= i < 64,
    ensures
        (a >> i) & 1 == 0,
{
}

proof fn lemma_bits_stay_clear(a: u64, b: u64, j: u64)
    by (bit_vector)
    requires
        a & 0xFFF0_0000_0000_0000u64 == 0,
        j < 52,
    ensures
        (a | (1u64 << j)) & 0xFFF0_0000_0000_0000u64 == 0,
        (a & b) & 0xFFF0_0000_0000_0000u64 == 0,
        (a & !b) & 0xFFF0_0000_0000_0000u64 == 0,
        (b & 0xFFF0_0000_0000_0000u64 == 0) ==> (a | b) & 0xFFF0_0000_0000_0000u64 == 0,
{
}

proof fn lemma_mask_universe(a: u64)
    by (bit_vector)
    ensures
        (a & 0x000F_FFFF_FFFF_FFFFu64) & 0xFFF0_0000_0000_0000u64 == 0,
        a & 0xFFF0_0000_0000_0000u64 == 0 ==> a & 0x000F_FFFF_FFFF_FFFFu64 == a,
{
}

proof fn lemma_bounds_clear()
    by (bit_vector)
    ensures
        0x000F_FFFF_FFFF_FFFFu64 & 0xFFF0_0000_0000_0000u64 == 0,
        0u64 & 0xFFF0_0000_0000_0000u64 == 0,
{
}

proof fn lemma_bit_halved(a: u64, i: u64)
    by (bit_vector)
    requires
        i < 63,
    ensures
        ((a / 2) >> i) & 1 == (a >> ((i + 1) as u64)) & 1,
        ((a / 2) >> 63u64) & 1 == 0,
        ((a >> 0u64) & 1 == 1) == (a % 2 == 1),
{
}

proof fn lemma_disjoint_bits(a: u64, b: u64, i: u64)
    by (bit_vector)
    requires
        i < 64,
        a & b == 0,
    ensures
        !((a >> i) & 1 == 1 && (b >> i) & 1 == 1),
{
}

proof fn lemma_common_bit(a: u64, b: u64) -> (i: u64)
    requires
        a & b != 0,
    ensures
        i < 64,
        (a >> i) & 1 == 1,
        (b >> i) & 1 == 1,
{
    let c = a & b;
    let i = lemma_some_bit(c, 64);
    lemma_bit_and(a, b, i);
    i
}

/// A word whose bits below `n` are not all clear, and whose other bits are,
/// has a set bit.
proof fn lemma_some_bit(c: u64, n: u64) -> (i: u64)
    requires
        c != 0,
        n <= 64,
        forall|k: u64| n <= k < 64 ==> (c >> k) & 1 == 0,
    ensures
        i < 64,
        (c >> i) & 1 == 1,
    decreases n,
{
    if n == 0 {
        lemma_all_clear(c);
        0
    } else {
        let k = (n - 1) as u64;
        lemma_bit_is_zero_or_one(c, k);
        if (c >> k) & 1 == 1 {
            k
        } else {
            lemma_some_bit(c, k)
        }
    }
}

proof fn lemma_bit_is_zero_or_one(c: u64, k: u64)
    by (bit_vector)
    requires
        k < 64,
    ensures
        (c >> k) & 1 == 0 || (c >> k) & 1 == 1,
{
}

proof fn lemma_all_clear(c: u64)
    requires
        forall|k: u64| k < 64 ==> (c >> k) & 1 == 0,
    ensures
        c == 0,
{
    lemma_popcount_counts(c);
    lemma_count_clear(c, 64);
}

proof fn lemma_count_clear(c: u64, n: int)
    requires
        0 <= n <= 64,
        forall|k: u64| k < 64 ==> (c >> k) & 1 == 0,
    ensures
        count_below(c, n) == 0,
    decreases n,
{
    if n > 0 {
        lemma_count_clear(c, n - 1);
        assert(((c >> ((n - 1) as u64)) & 1) == 0);
    }
}

/// Dropping the lowest bit shifts every count by one place.
proof fn lemma_count_halved(x: u64, n: int)
    requires
        1 <= n <= 64,
    ensures
        count_below(x, n) == count_below((x / 2) as u64, n - 1) + if bit(x, 0) {
            1nat
        } else {
            0nat
        },
    decreases n,
{
    if n == 1 {
        assert(count_below(x, 0) == 0);
        assert(count_below((x / 2) as u64, 0) == 0);
    } else {
        lemma_count_halved(x, n - 1);
        lemma_bit_halved(x, (n - 2) as u64);
        assert(bit((x / 2) as u64, n - 2) == bit(x, n - 1));
    }
}

/// `popcount` counts the set bits of all 64 positions.
pub proof fn lemma_popcount_counts(x: u64)
    ensures
        popcount(x) == count_below(x, 64),
        popcount(x) == 0 ==> x == 0,
    decreases x,
{
    if x == 0 {
        assert forall|k: u64| k < 64 implies (0u64 >> k) & 1 == 0 by {
            lemma_bit_universe(k);
        }
        lemma_count_clear(0, 64);
    } else {
        let h = (x / 2) as u64;
        lemma_popcount_counts(h);
        lemma_count_halved(x, 64);
        lemma_bit_halved(x, 0);
        assert(!bit(h, 63));
        assert(count_below(h, 64) == count_below(h, 63));
        assert(bit(x, 0) == (x % 2 == 1));
        if popcount(x) == 0 {
            assert(x % 2 == 0);
            assert(h == 0);
        }
    }
}

/// The cards of `bits` whose place in the deck is below `n`, from the
/// highest place down.
pub open spec fn desc_below(bits: u64, n: int) -> Seq<Card>
    decreases n,
{
    if n <= 0 {
        Seq::empty()
    } else if bit(bits, n - 1) {
        seq![Card::at(n - 1)] + desc_below(bits, n - 1)
    } else {
        desc_below(bits, n - 1)
    }
}

/// The cards of `bits` whose place in the deck is below `n`.
pub open spec fn cards_below(bits: u64, n: int) -> Set<Card> {
    Set::new(|c: Card| c.ord() < n && bit(bits, c.ord()))
}

/// `s` lists `set` from the highest place in the deck down: every card of
/// the set once, and nothing else.
pub open spec fn lists_descending(s: Seq<Card>, set: Set<Card>) -> bool {
    &&& forall|c: Card| s.contains(c) <==> set.contains(c)
    &&& forall|i: int, j: int| 0 <= i < j < s.len() ==> s[i].ord() > s[j].ord()
}

proof fn lemma_desc_below(bits: u64, n: int)
    requires
        0 <= n <= 52,
    ensures
        lists_descending(desc_below(bits, n), cards_below(bits, n)),
        cards_below(bits, n).finite(),
        cards_below(bits, n).len() == desc_below(bits, n).len(),
        desc_below(bits, n).len() == count_below(bits, n),
        desc_below(bits, n).len() <= n,
        forall|i: int| 0 <= i < desc_below(bits, n).len() ==> desc_below(bits, n)[i].ord() < n,
    decreases n,
{
    let s = desc_below(bits, n);
    let set = cards_below(bits, n);
    if n == 0 {
        assert(set =~= Set::empty());
    } else {
        lemma_desc_below(bits, n - 1);
        let prev = desc_below(bits, n - 1);
        let prev_set = cards_below(bits, n - 1);
        let top = Card::at(n - 1);
        lemma_place_cards(n - 1);
        assert forall|c: Card| c.ord() == n - 1 implies c == top by {
            lemma_card_places(c);
        }
        if bit(bits, n - 1) {
            assert(set =~= prev_set.insert(top));
            assert(!prev_set.contains(top));
            assert(s[0] == top);
            assert forall|i: int| 1 <= i < s.len() implies s[i] == prev[i - 1] by {}
            assert forall|c: Card| s.contains(c) <==> set.contains(c) by {
                if s.contains(c) {
                    let i = choose|i: int| 0 <= i < s.len() && s[i] == c;
                    if i > 0 {
                        assert(prev[i - 1] == c);
                        assert(prev.contains(c));
                    }
                }
                if set.contains(c) {
                    if c == top {
                        assert(s[0] == c);
                    } else {
                        assert(prev_set.contains(c));
                        assert(prev.contains(c));
                        let i = choose|i: int| 0 <= i < prev.len() && prev[i] == c;
                        assert(s[i + 1] == c);
                    }
                }
            }
            assert forall|i: int, j: int| 0 <= i < j < s.len() implies s[i].ord() > s[j].ord() by {
                assert(s[j] == prev[j - 1]);
                if i > 0 {
                    assert(s[i] == prev[i - 1]);
                }
            }
        } else {
            assert(set =~= prev_set);
        }
    }
}

/// Two descending listings of one set are the same sequence.
pub proof fn lemma_listing_unique(a: Seq<Card>, b: Seq<Card>, set: Set<Card>)
    requires
        lists_descending(a, set),
        lists_descending(b, set),
    ensures
        a == b,
    decreases a.len(),
{
    if a.len() == 0 {
        if b.len() > 0 {
            assert(b.contains(b[0]));
            assert(a.contains(b[0]));
        }
        assert(a =~= b);
    } else {
        assert(a.contains(a[0]));
        assert(b.contains(a[0]));
        let k = choose|k: int| 0 <= k < b.len() && b[k] == a[0];
        assert(b.contains(b[0]));
        assert(a.contains(b[0]));
        let m = choose|m: int| 0 <= m < a.len() && a[m] == b[0];
        assert(k == 0) by {
            if k > 0 {
                assert(b[0].ord() > b[k].ord());
                if m > 0 {
                    assert(a[0].ord() > a[m].ord());
                }
            }
        }
        let rest = set.remove(a[0]);
        let a1 = a.drop_first();
        let b1 = b.drop_first();
        assert forall|c: Card| a1.contains(c) <==> rest.contains(c) by {
            if a1.contains(c) {
                let i = choose|i: int| 0 <= i < a1.len() && a1[i] == c;
                assert(a[i + 1] == c);
                assert(a.contains(c));
                assert(a[0].ord() > a[i + 1].ord());
            }
            if rest.contains(c) {
                assert(a.contains(c));
                let i = choose|i: int| 0 <= i < a.len() && a[i] == c;
                assert(a1[i - 1] == c);
            }
        }
        assert forall|c: Card| b1.contains(c) <==> rest.contains(c) by {
            if b1.contains(c) {
                let i = choose|i: int| 0 <= i < b1.len() && b1[i] == c;
                assert(b[i + 1] == c);
                assert(b.contains(c));
                assert(b[0].ord() > b[i + 1].ord());
            }
            if rest.contains(c) {
                assert(b.contains(c));
                let i = choose|i: int| 0 <= i < b.len() && b[i] == c;
                assert(b1[i - 1] == c);
            }
        }
        assert forall|i: int, j: int| 0 <= i < j < a1.len() implies a1[i].ord() > a1[j].ord() by {
            assert(a[i + 1].ord() > a[j + 1].ord());
        }
        assert forall|i: int, j: int| 0 <= i < j < b1.len() implies b1[i].ord() > b1[j].ord() by {
            assert(b[i + 1].ord() > b[j + 1].ord());
        }
        lemma_listing_unique(a1, b1, rest);
        assert(a =~= seq![a[0]] + a1);
        assert(b =~= seq![b[0]] + b1);
    }
}

/// A set of cards, held as one bit for each place of the deck.
#[derive(Debug, PartialEq, Eq, Clone, Copy, Hash, Structural)]
pub struct CardSet {
    bitset: u64,
}

impl View for CardSet {
    type V = Set<Card>;

    closed spec fn view(&self) -> Set<Card> {
        cards_below(self.bitset, 52)
    }
}

impl CardSet {
    /// The mask that holds the set.
    pub closed spec fn bits(self) -> u64 {
        self.bitset
    }

    /// The set that a mask holds.
    pub closed spec fn of_bits(bits: u64) -> CardSet {
        CardSet { bitset: bits }
    }

    /// No bit stands outside the 52 places of the deck.
    pub open spec fn wf(self) -> bool {
        self.bits() & UNUSED_BITS == 0
    }

    /// What holds of every set that a program holds: it is well-formed.
    #[verifier::type_invariant]
    pub open spec fn type_inv(self) -> bool {
        self.wf()
    }

    /// The well-formed value that holds the cards of `cards`.
    pub closed spec fn of_set(cards: Set<Card>) -> CardSet {
        choose|set: CardSet| set.wf() && set@ == cards
    }

    /// A well-formed value is the one that holds its cards.
    pub proof fn lemma_of_set(self)
        requires
            self.wf(),
        ensures
            CardSet::of_set(self@) == self,
    {
        let other = CardSet::of_set(self@);
        assert(other.wf() && other@ == self@);
        self.lemma_ext(other);
    }

    /// The cards of the set from the highest place in the deck down: the ace
    /// of spades first, the two of clubs last.
    pub closed spec fn desc(self) -> Seq<Card> {
        desc_below(self.bitset, 52)
    }

    /// The view is the set of cards whose bit is set; `desc` lists it in
    /// descending order; the set is finite and `desc` is as long as it is large.
    pub proof fn lemma_model(self)
        ensures
            self == CardSet::of_bits(self.bits()),
            self@ == cards_below(self.bits(), 52),
            forall|c: Card| self@.contains(c) <==> bit(self.bits(), c.ord()),
            self.desc() == desc_below(self.bits(), 52),
            lists_descending(self.desc(), self@),
            self@.finite(),
            self@.len() == self.desc().len(),
            self@.len() <= 52,
            self@.len() == count_below(self.bits(), 52),
    {
        lemma_desc_below(self.bitset, 52);
        assert forall|c: Card| self@.contains(c) <==> bit(self.bits(), c.ord()) by {
            lemma_card_places(c);
        }
    }

    /// Two well-formed values have a well-formed value for their union.
    pub proof fn lemma_union(self, other: CardSet)
        requires
            self.wf(),
            other.wf(),
        ensures
            CardSet::of_set(self@.union(other@)).wf(),
            CardSet::of_set(self@.union(other@))@ == self@.union(other@),
    {
        let a = self.bitset;
        let b = other.bitset;
        let both = CardSet { bitset: a | b };
        lemma_bits_stay_clear(a, b, 0);
        assert forall|c: Card| bit(a | b, c.ord()) <==> (bit(a, c.ord()) || bit(b, c.ord())) by {
            lemma_card_places(c);
            lemma_bit_or(a, b, c.ord() as u64);
        }
        assert(cards_below(a | b, 52) =~= cards_below(a, 52).union(cards_below(b, 52)));
        assert(both.wf() && both@ == self@.union(other@));
    }

    /// Sets with the same cards are the same value.
    pub proof fn lemma_ext(self, other: CardSet)
        requires
            self.wf(),
            other.wf(),
            self@ == other@,
        ensures
            self == other,
    {
        let a = self.bitset;
        let b = other.bitset;
        if a != b {
            let x = a ^ b;
            assert(x != 0) by (bit_vector)
                requires
                    x == a ^ b,
                    a != b,
            ;
            assert forall|k: u64| 64 <= k < 64 implies (x >> k) & 1 == 0 by {}
            let i = lemma_some_bit(x, 64);
            assert(((a >> i) & 1 == 1) != ((b >> i) & 1 == 1)) by (bit_vector)
                requires
                    x == a ^ b,
                    i < 64,
                    (x >> i) & 1 == 1,
            ;
            if i >= 52 {
                lemma_bit_unused(a, i);
                lemma_bit_unused(b, i);
            } else {
                let c = Card::at(i as int);
                lemma_place_cards(i as int);
                assert(c.ord() as u64 == i);
                assert(bit(a, c.ord()) == ((a >> i) & 1 == 1));
                assert(bit(b, c.ord()) == ((b >> i) & 1 == 1));
                assert(cards_below(a, 52).contains(c) == bit(a, c.ord()));
                assert(cards_below(b, 52).contains(c) == bit(b, c.ord()));
            }
        }
    }

    /// The empty set.
    pub fn new() -> (set: Self)
        ensures
            set@ == Set::<Card>::empty(),
            set.bits() == 0,
    {
        proof {
            lemma_bounds_clear();
            assert forall|c: Card| !bit(0u64, c.ord()) by {
                lemma_card_places(c);
                lemma_bit_universe(c.ord() as u64);
            }
            assert(cards_below(0u64, 52) =~= Set::<Card>::empty());
        }
        Self { bitset: 0 }
    }

    /// All 52 cards.
    pub fn universe() -> (set: Self)
        ensures
            set@ == Set::<Card>::full(),
            set@.len() == 52,
            set.bits() == UNIVERSE_BITS,
    {
        proof {
            lemma_count_universe(52);
            lemma_desc_below(UNIVERSE_BITS, 52);
            lemma_bounds_clear();
            assert forall|c: Card| bit(UNIVERSE_BITS, c.ord()) by {
                lemma_card_places(c);
                lemma_bit_universe(c.ord() as u64);
            }
            assert(cards_below(UNIVERSE_BITS, 52) =~= Set::<Card>::full());
        }
        Self { bitset: 0x000F_FFFF_FFFF_FFFF }
    }

    /// Puts `card` into the set.
    pub fn add(&mut self, card: Card)
        ensures
            final(self)@ == old(self)@.insert(card),
    {
        self.insert(card);
    }

    /// Puts `card` into the set.
    pub fn insert(&mut self, card: Card)
        ensures
            final(self)@ == old(self)@.insert(card),
    {
        let idx = card_index(card);
        let before = self.bitset;
        let after = before | (1u64 << idx);
        proof {
            use_type_invariant(&*self);
            lemma_bits_stay_clear(before, 0, idx as u64);
            assert forall|c: Card|
                bit(after, c.ord()) <==> (bit(before, c.ord()) || c == card) by {
                lemma_card_places(c);
                lemma_card_places(card);
                lemma_bit_or(before, 1u64 << idx, c.ord() as u64);
                lemma_bit_single(idx as u64, c.ord() as u64);
            }
            assert(cards_below(after, 52) =~= cards_below(before, 52).insert(card));
        }
        self.bitset = after;
    }

    /// Takes `card` out of the set.
    pub fn remove(&mut self, card: Card)
        ensures
            final(self)@ == old(self)@.remove(card),
    {
        let idx = card_index(card);
        let before = self.bitset;
        let after = before & !(1u64 << idx);
        proof {
            use_type_invariant(&*self);
            lemma_bits_stay_clear(before, 1u64 << idx, 0);
            assert forall|c: Card|
                bit(after, c.ord()) <==> (bit(before, c.ord()) && c != card) by {
                lemma_card_places(c);
                lemma_card_places(card);
                lemma_bit_and_not(before, 1u64 << idx, c.ord() as u64);
                lemma_bit_single(idx as u64, c.ord() as u64);
            }
            assert(cards_below(after, 52) =~= cards_below(before, 52).remove(card));
        }
        self.bitset = after;
    }

    /// Whether `card` is in the set.
    pub fn has(&self, card: Card) -> (found: bool)
        ensures
            found == self@.contains(card),
    {
        let idx = card_index(card);
        proof {
            lemma_bit_test(self.bitset, idx as u64);
        }
        self.bitset & (1u64 << idx) != 0
    }

    /// Whether the two sets share no card.
    pub fn disjoint_with(&self, other: CardSet) -> (disjoint: bool)
        ensures
            disjoint == self@.disjoint(other@),
    {
        let a = self.bitset;
        let b = other.bitset;
        proof {
            use_type_invariant(&*self);
            use_type_invariant(&other);
            if a & b == 0 {
                assert forall|c: Card| !(self@.contains(c) && other@.contains(c)) by {
                    lemma_card_places(c);
                    lemma_disjoint_bits(a, b, c.ord() as u64);
                }
            } else {
                let i = lemma_common_bit(a, b);
                if i >= 52 {
                    lemma_bit_unused(a, i);
                } else {
                    let c = Card::at(i as int);
                    lemma_place_cards(i as int);
                    assert(self@.contains(c) && other@.contains(c));
                }
            }
        }
        a & b == 0
    }

    /// The number of cards in the set.
    pub fn len(&self) -> (n: usize)
        ensures
            n == self@.len(),
            n <= 52,
    {
        proof {
            use_type_invariant(&*self);
            self.lemma_model();
            lemma_popcount_counts(self.bitset);
            lemma_count_unused(self.bitset, 64);
        }
        self.bitset.count_ones() as usize
    }

    /// Whether the set holds no card.
    pub fn is_empty(&self) -> (empty: bool)
        ensures
            empty == (self@.len() == 0),
            empty == (self@ == Set::<Card>::empty()),
    {
        proof {
            use_type_invariant(&*self);
            self.lemma_model();
            lemma_popcount_counts(self.bitset);
            lemma_count_unused(self.bitset, 64);
            if self.bitset == 0 {
                assert(popcount(0) == 0);
            }
            if self@.len() == 0 {
                assert(self@ =~= Set::<Card>::empty()) by {
                    if exists|c: Card| self@.contains(c) {
                        let c = choose|c: Card| self@.contains(c);
                        assert(self.desc().contains(c));
                    }
                }
            }
        }
        self.bitset == 0
    }

    /// The cards of both sets.
    pub fn union(self, other: CardSet) -> (set: CardSet)
        ensures
            set@ == self@.union(other@),
            set == CardSet::of_set(self@.union(other@)),
    {
        let a = self.bitset;
        let b = other.bitset;
        proof {
            use_type_invariant(&self);
            use_type_invariant(&other);
            lemma_bits_stay_clear(a, b, 0);
            assert forall|c: Card|
                bit(a | b, c.ord()) <==> (bit(a, c.ord()) || bit(b, c.ord())) by {
                lemma_card_places(c);
                lemma_bit_or(a, b, c.ord() as u64);
            }
            assert(cards_below(a | b, 52) =~= cards_below(a, 52).union(cards_below(b, 52)));
        }
        let set = CardSet { bitset: a | b };
        proof {
            set.lemma_of_set();
        }
        set
    }

    /// The cards that are in both sets.
    pub fn intersect(self, other: CardSet) -> (set: CardSet)
        ensures
            set@ == self@.intersect(other@),
            set == CardSet::of_set(self@.intersect(other@)),
    {
        let a = self.bitset;
        let b = other.bitset;
        proof {
            use_type_invariant(&self);
            lemma_bits_stay_clear(a, b, 0);
            assert forall|c: Card|
                bit(a & b, c.ord()) <==> (bit(a, c.ord()) && bit(b, c.ord())) by {
                lemma_card_places(c);
                lemma_bit_and(a, b, c.ord() as u64);
            }
            assert(cards_below(a & b, 52) =~= cards_below(a, 52).intersect(cards_below(b, 52)));
        }
        let set = CardSet { bitset: a & b };
        proof {
            set.lemma_of_set();
        }
        set
    }

    /// The cards of this set that are not in `other`.
    pub fn difference(self, other: CardSet) -> (set: CardSet)
        ensures
            set@ == self@.difference(other@),
            set == CardSet::of_set(self@.difference(other@)),
    {
        let a = self.bitset;
        let b = other.bitset;
        proof {
            use_type_invariant(&self);
            lemma_bits_stay_clear(a, b, 0);
            assert forall|c: Card|
                bit(a & !b, c.ord()) <==> (bit(a, c.ord()) && !bit(b, c.ord())) by {
                lemma_card_places(c);
                lemma_bit_and_not(a, b, c.ord() as u64);
            }
            assert(cards_below(a & !b, 52) =~= cards_below(a, 52).difference(
                cards_below(b, 52),
            ));
        }
        let set = CardSet { bitset: a & !b };
        proof {
            set.lemma_of_set();
        }
        set
    }

    /// The mask that holds the set: bit `rank * 4 + suit` stands for a card.
    pub fn to_bits(&self) -> (bits: u64)
        ensures
            bits == self.bits(),
            CardSet::of_bits((bits & UNIVERSE_BITS) as u64) == *self,
    {
        proof {
            use_type_invariant(self);
            lemma_mask_universe(self.bitset);
        }
        self.bitset
    }

    /// The set that the lower 52 bits of a mask hold.
    pub fn from_bits(bits: u64) -> (set: CardSet)
        ensures
            set == CardSet::of_bits((bits & UNIVERSE_BITS) as u64),
    {
        proof {
            lemma_mask_universe(bits);
        }
        CardSet { bitset: bits & 0x000F_FFFF_FFFF_FFFF }
    }

    /// The cards of all the sets, where no card lies in two of them; nothing
    /// where one does.
    pub fn union_if_disjoint(sets: &[CardSet]) -> (joined: Option<CardSet>)
        ensures
            joined is Some <==> pairwise_disjoint(sets@),
            joined matches Some(set) ==> set@ == union_of(sets@, sets@.len() as int),
    {
        let mut set = CardSet::new();
        let mut i: usize = 0;
        while i < sets.len()
            invariant
                i <= sets@.len(),
                set@ == union_of(sets@, i as int),
                forall|a: int, b: int|
                    0 <= a < b < i ==> (#[trigger] sets@[a])@.disjoint((#[trigger] sets@[b])@),
            decreases sets@.len() - i,
        {
            let next = sets[i];
            if !set.disjoint_with(next) {
                proof {
                    let card = choose|card: Card| set@.contains(card) && next@.contains(card);
                    let k = lemma_union_member(sets@, i as int, card);
                    assert(!sets@[k]@.disjoint(sets@[i as int]@));
                }
                return None;
            }
            proof {
                assert forall|a: int| 0 <= a < i implies (#[trigger] sets@[a])@.disjoint(
                    sets@[i as int]@,
                ) by {
                    assert forall|card: Card| sets@[a]@.contains(card) implies !next@.contains(
                        card,
                    ) by {
                        lemma_member_union(sets@, i as int, a, card);
                    }
                }
            }
            set = set.union(next);
            i += 1;
        }
        Some(set)
    }

    /// Walks the set from the highest place in the deck down.
    pub fn iter_desc(&self) -> (iter: CardSetIterator)
        ensures
            iter.remaining() == self.desc(),
    {
        CardSetIterator { bitset: self.bitset, below: 52 }
    }

    /// The cards of the set, from the highest place in the deck down.
    pub fn to_vec(&self) -> (cards: Vec<Card>)
        ensures
            cards@ == self.desc(),
            lists_descending(cards@, self@),
            cards@.len() == self@.len(),
    {
        proof {
            self.lemma_model();
        }
        self.iter_desc().collect()
    }

    /// The set of the cards of a slice.
    pub fn from_cards(cards: &[Card]) -> (set: CardSet)
        ensures
            set@ == cards@.to_set(),
    {
        let mut set = CardSet::new();
        let mut i: usize = 0;
        while i < cards.len()
            invariant
                i <= cards.len(),
                set@ == cards@.take(i as int).to_set(),
            decreases cards.len() - i,
        {
            set.insert(cards[i]);
            proof {
                lemma_take_to_set(cards@, i as int);
            }
            i += 1;
        }
        proof {
            assert(cards@.take(cards.len() as int) =~= cards@);
        }
        set
    }

    /// The cards of the set from the highest place down, one glyph pair each.
    pub fn to_chars(&self) -> (text: Vec<char>)
        ensures
            text@ == card_glyphs(self.desc()),
    {
        let cards = self.to_vec();
        let mut text: Vec<char> = Vec::new();
        let mut i: usize = 0;
        while i < cards.len()
            invariant
                i <= cards.len(),
                text@ == card_glyphs(cards@.take(i as int)),
            decreases cards.len() - i,
        {
            proof {
                assert(cards@.take(i + 1).drop_last() =~= cards@.take(i as int));
            }
            text.push(cards[i].rank.glyph());
            text.push(cards[i].suit.glyph());
            i += 1;
        }
        proof {
            assert(cards@.take(cards.len() as int) =~= cards@);
        }
        text
    }
}

/// The glyphs of a list of cards: for each card its rank, then its suit.
pub open spec fn card_glyphs(cards: Seq<Card>) -> Seq<char>
    decreases cards.len(),
{
    if cards.len() == 0 {
        Seq::empty()
    } else {
        card_glyphs(cards.drop_last()).push(cards.last().rank.glyph_of()).push(
            cards.last().suit.glyph_of(),
        )
    }
}

/// No card lies in two of the sets.
pub open spec fn pairwise_disjoint(sets: Seq<CardSet>) -> bool {
    forall|i: int, j: int|
        0 <= i < j < sets.len() ==> (#[trigger] sets[i])@.disjoint((#[trigger] sets[j])@)
}

/// The cards of the first `n` sets.
pub open spec fn union_of(sets: Seq<CardSet>, n: int) -> Set<Card>
    decreases n,
{
    if n <= 0 {
        Set::empty()
    } else {
        union_of(sets, n - 1).union(sets[n - 1]@)
    }
}

/// A card of the first `n` sets lies in one of them.
proof fn lemma_union_member(sets: Seq<CardSet>, n: int, card: Card) -> (k: int)
    requires
        0 <= n <= sets.len(),
        union_of(sets, n).contains(card),
    ensures
        0 <= k < n,
        sets[k]@.contains(card),
    decreases n,
{
    if sets[n - 1]@.contains(card) {
        n - 1
    } else {
        lemma_union_member(sets, n - 1, card)
    }
}

/// A card of one of the first `n` sets is a card of these sets.
proof fn lemma_member_union(sets: Seq<CardSet>, n: int, k: int, card: Card)
    requires
        0 <= k < n <= sets.len(),
        sets[k]@.contains(card),
    ensures
        union_of(sets, n).contains(card),
    decreases n,
{
    if k < n - 1 {
        lemma_member_union(sets, n - 1, k, card);
    }
}

/// There is a well-formed value for the cards of any list.
pub proof fn lemma_set_of(cards: Seq<Card>) -> (set: CardSet)
    ensures
        set.wf(),
        set@ == cards.to_set(),
    decreases cards.len(),
{
    if cards.len() == 0 {
        lemma_bounds_clear();
        let set = CardSet { bitset: 0 };
        assert forall|c: Card| !bit(0u64, c.ord()) by {
            lemma_card_places(c);
            lemma_bit_universe(c.ord() as u64);
        }
        assert(cards_below(0u64, 52) =~= cards.to_set());
        set
    } else {
        let rest = lemma_set_of(cards.drop_last());
        let card = cards.last();
        lemma_card_places(card);
        let idx = card.ord() as u64;
        let before = rest.bitset;
        let after = before | (1u64 << idx);
        lemma_bits_stay_clear(before, 0, idx);
        assert forall|c: Card| bit(after, c.ord()) <==> (bit(before, c.ord()) || c == card) by {
            lemma_card_places(c);
            lemma_bit_or(before, 1u64 << idx, c.ord() as u64);
            lemma_bit_single(idx, c.ord() as u64);
        }
        assert(cards_below(after, 52) =~= cards_below(before, 52).insert(card));
        lemma_take_to_set(cards, cards.len() - 1);
        assert(cards.take(cards.len() - 1) =~= cards.drop_last());
        assert(cards.take(cards.len() as int) =~= cards);
        CardSet { bitset: after }
    }
}

/// One more element of a sequence is one more element of its set.
proof fn lemma_take_to_set(s: Seq<Card>, i: int)
    requires
        0 <= i < s.len(),
    ensures
        s.take(i + 1).to_set() == s.take(i).to_set().insert(s[i]),
{
    let before = s.take(i);
    let after = s.take(i + 1);
    assert forall|c: Card| after.to_set().contains(c) <==> before.to_set().insert(s[i]).contains(
        c,
    ) by {
        if after.to_set().contains(c) {
            assert(after.contains(c));
            let k = choose|k: int| 0 <= k < after.len() && after[k] == c;
            if k < i {
                assert(before[k] == c);
                assert(before.contains(c));
            }
        }
        if before.to_set().contains(c) {
            assert(before.contains(c));
            let k = choose|k: int| 0 <= k < before.len() && before[k] == c;
            assert(after[k] == c);
            assert(after.contains(c));
        }
        if c == s[i] {
            assert(after[i] == c);
            assert(after.contains(c));
        }
    }
    assert(after.to_set() =~= before.to_set().insert(s[i]));
}

proof fn lemma_count_universe(n: int)
    requires
        0 <= n <= 52,
    ensures
        count_below(UNIVERSE_BITS, n) == n,
    decreases n,
{
    if n > 0 {
        lemma_count_universe(n - 1);
        lemma_bit_universe((n - 1) as u64);
    }
}

proof fn lemma_count_unused(bits: u64, n: int)
    requires
        bits & UNUSED_BITS == 0,
        52 <= n <= 64,
    ensures
        count_below(bits, n) == count_below(bits, 52),
    decreases n,
{
    if n > 52 {
        lemma_count_unused(bits, n - 1);
        lemma_bit_unused(bits, (n - 1) as u64);
    }
}

impl Add<Card> for CardSet {
    type Output = CardSet;

    fn add(self, rhs: Card) -> (set: CardSet) {
        let mut set = self;
        set.insert(rhs);
        proof {
            use_type_invariant(&set);
            set.lemma_of_set();
        }
        set
    }
}

impl AddSpecImpl<Card> for CardSet {
    open spec fn obeys_add_spec() -> bool {
        true
    }

    open spec fn add_req(self, rhs: Card) -> bool {
        true
    }

    open spec fn add_spec(self, rhs: Card) -> CardSet {
        CardSet::of_set(self@.insert(rhs))
    }
}

impl Sub<Card> for CardSet {
    type Output = CardSet;

    fn sub(self, rhs: Card) -> (set: CardSet) {
        let mut set = self;
        set.remove(rhs);
        proof {
            use_type_invariant(&set);
            set.lemma_of_set();
        }
        set
    }
}

impl SubSpecImpl<Card> for CardSet {
    open spec fn obeys_sub_spec() -> bool {
        true
    }

    open spec fn sub_req(self, rhs: Card) -> bool {
        true
    }

    open spec fn sub_spec(self, rhs: Card) -> CardSet {
        CardSet::of_set(self@.remove(rhs))
    }
}

impl Sub<CardSet> for CardSet {
    type Output = CardSet;

    fn sub(self, rhs: CardSet) -> (set: CardSet) {
        self.difference(rhs)
    }
}

impl SubSpecImpl<CardSet> for CardSet {
    open spec fn obeys_sub_spec() -> bool {
        true
    }

    open spec fn sub_req(self, rhs: CardSet) -> bool {
        true
    }

    open spec fn sub_spec(self, rhs: CardSet) -> CardSet {
        CardSet::of_set(self@.difference(rhs@))
    }
}

impl BitAnd<CardSet> for CardSet {
    type Output = CardSet;

    fn bitand(self, rhs: CardSet) -> (set: CardSet) {
        self.intersect(rhs)
    }
}

impl BitAndSpecImpl<CardSet> for CardSet {
    open spec fn obeys_bitand_spec() -> bool {
        true
    }

    open spec fn bitand_req(self, rhs: CardSet) -> bool {
        true
    }

    open spec fn bitand_spec(self, rhs: CardSet) -> CardSet {
        CardSet::of_set(self@.intersect(rhs@))
    }
}

impl BitOr<CardSet> for CardSet {
    type Output = CardSet;

    fn bitor(self, rhs: CardSet) -> (set: CardSet) {
        self.union(rhs)
    }
}

impl BitOrSpecImpl<CardSet> for CardSet {
    open spec fn obeys_bitor_spec() -> bool {
        true
    }

    open spec fn bitor_req(self, rhs: CardSet) -> bool {
        true
    }

    open spec fn bitor_spec(self, rhs: CardSet) -> CardSet {
        CardSet::of_set(self@.union(rhs@))
    }
}

impl<const LENGTH: usize> From<&[Card; LENGTH]> for CardSet {
    fn from(value: &[Card; LENGTH]) -> (set: CardSet) {
        let set = CardSet::from_cards(value.as_slice());
        proof {
            use_type_invariant(&set);
            set.lemma_of_set();
        }
        set
    }
}

impl<const LENGTH: usize> FromSpecImpl<&[Card; LENGTH]> for CardSet {
    open spec fn obeys_from_spec() -> bool {
        true
    }

    open spec fn from_spec(value: &[Card; LENGTH]) -> CardSet {
        CardSet::of_set(value@.to_set())
    }
}

/// Walks a set of cards from the highest place in the deck down.
pub struct CardSetIterator {
    bitset: u64,
    below: usize,
}

impl CardSetIterator {
    #[verifier::type_invariant]
    spec fn type_inv(self) -> bool {
        self.below <= 52
    }

    /// The cards still to come, in the order in which they come.
    pub closed spec fn remaining(self) -> Seq<Card> {
        desc_below(self.bitset, self.below as int)
    }

    /// The next card, if one is left.
    pub fn next(&mut self) -> (card: Option<Card>)
        ensures
            old(self).remaining().len() == 0 ==> card is None && final(self).remaining().len() == 0,
            old(self).remaining().len() > 0 ==> card == Some(old(self).remaining()[0])
                && final(self).remaining() == old(self).remaining().drop_first(),
    {
        proof {
            use_type_invariant(&*self);
        }
        let bits = self.bitset;
        let mut below = self.below;
        while below > 0 && bits & (1u64 << (below - 1)) == 0
            invariant
                below <= 52,
                desc_below(bits, below as int) == old(self).remaining(),
                bits == old(self).bitset,
            decreases below,
        {
            proof {
                lemma_bit_test(bits, (below - 1) as u64);
            }
            below -= 1;
        }
        if below == 0 {
            self.below = 0;
            None
        } else {
            proof {
                lemma_bit_test(bits, (below - 1) as u64);
                let rest = desc_below(bits, below - 1);
                assert((seq![Card::at(below - 1)] + rest).drop_first() =~= rest);
            }
            self.below = below - 1;
            Some(card_at(below - 1))
        }
    }

    /// The cards still to come.
    pub fn collect(self) -> (cards: Vec<Card>)
        ensures
            cards@ == self.remaining(),
    {
        let mut iter = self;
        let mut cards: Vec<Card> = Vec::new();
        proof {
            use_type_invariant(&iter);
            lemma_desc_below(iter.bitset, iter.below as int);
        }
        loop
            invariant
                cards@ + iter.remaining() == self.remaining(),
                iter.remaining().len() <= 52,
            decreases iter.remaining().len(),
        {
            let ghost before = iter.remaining();
            match iter.next() {
                None => {
                    proof {
                        assert(cards@ + before =~= cards@);
                    }
                    return cards;
                },
                Some(card) => {
                    proof {
                        assert(cards@.push(card) + before.drop_first() =~= cards@ + before);
                    }
                    cards.push(card);
                },
            }
        }
    }
}

impl AddAssign<Card> for CardSet {
    /// Puts `rhs` into the set.
    fn add_assign(&mut self, rhs: Card)
        ensures
            final(self)@ == old(self)@.insert(rhs),
    {
        self.insert(rhs);
    }
}

impl SubAssign<Card> for CardSet {
    /// Takes `rhs` out of the set.
    fn sub_assign(&mut self, rhs: Card)
        ensures
            final(self)@ == old(self)@.remove(rhs),
    {
        self.remove(rhs);
    }
}

impl SubAssign<CardSet> for CardSet {
    /// Takes the cards of `rhs` out of the set.
    fn sub_assign(&mut self, rhs: CardSet)
        ensures
            final(self)@ == old(self)@.difference(rhs@),
    {
        *self = self.difference(rhs);
    }
}

impl BitAndAssign<CardSet> for CardSet {
    /// Keeps the cards that `rhs` holds too.
    fn bitand_assign(&mut self, rhs: CardSet)
        ensures
            final(self)@ == old(self)@.intersect(rhs@),
    {
        *self = self.intersect(rhs);
    }
}

impl BitOrAssign<CardSet> for CardSet {
    /// Puts the cards of `rhs` into the set.
    fn bitor_assign(&mut self, rhs: CardSet)
        ensures
            final(self)@ == old(self)@.union(rhs@),
    {
        *self = self.union(rhs);
    }
}

} // verus!
