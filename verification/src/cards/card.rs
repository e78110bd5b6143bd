use vstd::prelude::*;

verus! {

/// One of the four suits. The order of the variants is the order in which
/// suits are ranked inside one rank of the deck.
#[derive(Debug, PartialEq, Eq, PartialOrd, Ord, Clone, Copy, Hash, Structural)]
pub enum Suit {
    Club,
    Diamond,
    Heart,
    Spade,
}

/// The number of suits.
pub const NUM_SUITS: usize = 4;

/// The suits, from clubs to spades.
pub const ALL_SUITS: [Suit; 4] = [Suit::Club, Suit::Diamond, Suit::Heart, Suit::Spade];

impl Suit {
    /// The position of the suit, from 0 (clubs) to 3 (spades).
    pub open spec fn ord(self) -> int {
        match self {
            Suit::Club => 0,
            Suit::Diamond => 1,
            Suit::Heart => 2,
            Suit::Spade => 3,
        }
    }

    /// The suit at a position; positions above 3 stand for spades.
    pub open spec fn at(i: int) -> Suit {
        if i <= 0 {
            Suit::Club
        } else if i == 1 {
            Suit::Diamond
        } else if i == 2 {
            Suit::Heart
        } else {
            Suit::Spade
        }
    }

    /// The position of the suit.
    pub fn index(self) -> (i: usize)
        ensures
            i == self.ord(),
            i < NUM_SUITS,
    {
        match self {
            Suit::Club => 0,
            Suit::Diamond => 1,
            Suit::Heart => 2,
            Suit::Spade => 3,
        }
    }

    /// The suit at position `i`.
    pub fn from_index(i: usize) -> (s: Suit)
        requires
            i < NUM_SUITS,
        ensures
            s == Suit::at(i as int),
            s.ord() == i,
    {
        if i == 0 {
            Suit::Club
        } else if i == 1 {
            Suit::Diamond
        } else if i == 2 {
            Suit::Heart
        } else {
            Suit::Spade
        }
    }

    /// The suit's glyph, as it is printed.
    pub open spec fn glyph_of(self) -> char {
        match self {
            Suit::Club => '\u{2663}',
            Suit::Diamond => '\u{2666}',
            Suit::Heart => '\u{2665}',
            Suit::Spade => '\u{2660}',
        }
    }

    /// The suit's glyph, as it is printed.
    pub fn glyph(self) -> (c: char)
        ensures
            c == self.glyph_of(),
    {
        match self {
            Suit::Club => '\u{2663}',
            Suit::Diamond => '\u{2666}',
            Suit::Heart => '\u{2665}',
            Suit::Spade => '\u{2660}',
        }
    }
}

/// One of the thirteen ranks, the ace being the highest.
#[derive(Debug, PartialEq, Eq, PartialOrd, Ord, Clone, Copy, Hash, Structural)]
pub enum Rank {
    Two,
    Three,
    Four,
    Five,
    Six,
    Seven,
    Eight,
    Nine,
    Ten,
    Jack,
    Queen,
    King,
    Ace,
}

/// The number of ranks.
pub const NUM_RANKS: usize = 13;

/// The ranks, from the two to the ace.
pub const ALL_RANKS: [Rank; 13] = [
    Rank::Two,
    Rank::Three,
    Rank::Four,
    Rank::Five,
    Rank::Six,
    Rank::Seven,
    Rank::Eight,
    Rank::Nine,
    Rank::Ten,
    Rank::Jack,
    Rank::Queen,
    Rank::King,
    Rank::Ace,
];

impl Rank {
    /// The position of the rank, from 0 (two) to 12 (ace).
    pub open spec fn ord(self) -> int {
        match self {
            Rank::Two => 0,
            Rank::Three => 1,
            Rank::Four => 2,
            Rank::Five => 3,
            Rank::Six => 4,
            Rank::Seven => 5,
            Rank::Eight => 6,
            Rank::Nine => 7,
            Rank::Ten => 8,
            Rank::Jack => 9,
            Rank::Queen => 10,
            Rank::King => 11,
            Rank::Ace => 12,
        }
    }

    /// The rank at a position; positions above 12 stand for the ace.
    pub open spec fn at(i: int) -> Rank {
        if i <= 0 {
            Rank::Two
        } else if i == 1 {
            Rank::Three
        } else if i == 2 {
            Rank::Four
        } else if i == 3 {
            Rank::Five
        } else if i == 4 {
            Rank::Six
        } else if i == 5 {
            Rank::Seven
        } else if i == 6 {
            Rank::Eight
        } else if i == 7 {
            Rank::Nine
        } else if i == 8 {
            Rank::Ten
        } else if i == 9 {
            Rank::Jack
        } else if i == 10 {
            Rank::Queen
        } else if i == 11 {
            Rank::King
        } else {
            Rank::Ace
        }
    }

    /// The position of the rank.
    pub fn index(self) -> (i: usize)
        ensures
            i == self.ord(),
            i < NUM_RANKS,
    {
        match self {
            Rank::Two => 0,
            Rank::Three => 1,
            Rank::Four => 2,
            Rank::Five => 3,
            Rank::Six => 4,
            Rank::Seven => 5,
            Rank::Eight => 6,
            Rank::Nine => 7,
            Rank::Ten => 8,
            Rank::Jack => 9,
            Rank::Queen => 10,
            Rank::King => 11,
            Rank::Ace => 12,
        }
    }

    /// The rank at position `i`.
    pub fn from_index(i: usize) -> (r: Rank)
        requires
            i < NUM_RANKS,
        ensures
            r == Rank::at(i as int),
            r.ord() == i,
    {
        if i == 0 {
            Rank::Two
        } else if i == 1 {
            Rank::Three
        } else if i == 2 {
            Rank::Four
        } else if i == 3 {
            Rank::Five
        } else if i == 4 {
            Rank::Six
        } else if i == 5 {
            Rank::Seven
        } else if i == 6 {
            Rank::Eight
        } else if i == 7 {
            Rank::Nine
        } else if i == 8 {
            Rank::Ten
        } else if i == 9 {
            Rank::Jack
        } else if i == 10 {
            Rank::Queen
        } else if i == 11 {
            Rank::King
        } else {
            Rank::Ace
        }
    }

    /// The rank's glyph, as it is printed; the ten prints as `T`.
    pub open spec fn glyph_of(self) -> char {
        match self {
            Rank::Two => '2',
            Rank::Three => '3',
            Rank::Four => '4',
            Rank::Five => '5',
            Rank::Six => '6',
            Rank::Seven => '7',
            Rank::Eight => '8',
            Rank::Nine => '9',
            Rank::Ten => 'T',
            Rank::Jack => 'J',
            Rank::Queen => 'Q',
            Rank::King => 'K',
            Rank::Ace => 'A',
        }
    }

    /// The rank's glyph, as it is printed; the ten prints as `T`.
    pub fn glyph(self) -> (c: char)
        ensures
            c == self.glyph_of(),
    {
        match self {
            Rank::Two => '2',
            Rank::Three => '3',
            Rank::Four => '4',
            Rank::Five => '5',
            Rank::Six => '6',
            Rank::Seven => '7',
            Rank::Eight => '8',
            Rank::Nine => '9',
            Rank::Ten => 'T',
            Rank::Jack => 'J',
            Rank::Queen => 'Q',
            Rank::King => 'K',
            Rank::Ace => 'A',
        }
    }
}

impl Default for Rank {
    fn default() -> (rank: Rank)
        ensures
            rank == Rank::Two,
    {
        Rank::Two
    }
}

impl Default for Suit {
    fn default() -> (suit: Suit)
        ensures
            suit == Suit::Club,
    {
        Suit::Club
    }
}

impl Default for Card {
    fn default() -> (card: Card)
        ensures
            card == (Card { rank: Rank::Two, suit: Suit::Club }),
    {
        Card { rank: Rank::Two, suit: Suit::Club }
    }
}

/// A playing card. Its place in the deck is `rank * 4 + suit`.
#[derive(Debug, PartialEq, Eq, PartialOrd, Ord, Clone, Copy, Hash, Structural)]
pub struct Card {
    pub rank: Rank,
    pub suit: Suit,
}

/// The number of cards of the deck.
pub const NUM_CARDS: usize = 52;

impl Card {
    /// The card's place in the deck, from 0 (two of clubs) to 51 (ace of spades).
    pub open spec fn ord(self) -> int {
        self.rank.ord() * 4 + self.suit.ord()
    }

    /// The card at a place in the deck.
    pub open spec fn at(i: int) -> Card {
        Card { rank: Rank::at(i / 4), suit: Suit::at(i % 4) }
    }
}

/// The 52 cards of the deck, from the two of clubs to the ace of spades.
pub fn gen_all_cards() -> (cards: [Card; 52])
    ensures
        forall|i: int| 0 <= i < 52 ==> cards@[i] == Card::at(i),
{
    let mut ret = [Card { rank: Rank::Two, suit: Suit::Club };52];
    let mut rank_index: usize = 0;
    let mut suit_index: usize = 0;
    while rank_index * 4 + suit_index < NUM_CARDS
        invariant
            suit_index < 4,
            rank_index <= 13,
            forall|i: int| 0 <= i < rank_index * 4 + suit_index ==> ret@[i] == Card::at(i),
        decreases NUM_CARDS - (rank_index * 4 + suit_index),
    {
        ret[rank_index * 4 + suit_index] = Card {
            rank: Rank::from_index(rank_index),
            suit: Suit::from_index(suit_index),
        };
        suit_index += 1;
        if suit_index >= 4 {
            suit_index = 0;
            rank_index += 1;
        }
    }
    ret
}

/// The place of `card` in the deck.
pub fn card_index(card: Card) -> (i: usize)
    ensures
        i == card.ord(),
        i < NUM_CARDS,
{
    card.rank.index() * 4 + card.suit.index()
}

/// The card at place `i` of the deck.
pub fn card_at(i: usize) -> (card: Card)
    requires
        i < NUM_CARDS,
    ensures
        card == Card::at(i as int),
        card.ord() == i,
{
    Card { rank: Rank::from_index(i / 4), suit: Suit::from_index(i % 4) }
}

/// Places and cards correspond one to one.
pub proof fn lemma_card_places(card: Card)
    ensures
        0 <= card.ord() < 52,
        Card::at(card.ord()) == card,
{
}

/// Every place below 52 holds the card that has this place.
pub proof fn lemma_place_cards(i: int)
    requires
        0 <= i < 52,
    ensures
        Card::at(i).ord() == i,
{
}

} // verus!
