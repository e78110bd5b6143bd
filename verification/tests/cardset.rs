use poker_odds::cards::card::{gen_all_cards, Card, Rank, Suit};
use poker_odds::cards::cardset::CardSet;

const KING_CLUB: Card = Card { rank: Rank::King, suit: Suit::Club };
const TWO_DIAMOND: Card = Card { rank: Rank::Two, suit: Suit::Diamond };
const SEVEN_DIAMOND: Card = Card { rank: Rank::Seven, suit: Suit::Diamond };
const NINE_DIAMOND: Card = Card { rank: Rank::Nine, suit: Suit::Diamond };
const SIX_HEART: Card = Card { rank: Rank::Six, suit: Suit::Heart };
const NINE_HEART: Card = Card { rank: Rank::Nine, suit: Suit::Heart };
const TEN_SPADE: Card = Card { rank: Rank::Ten, suit: Suit::Spade };
const JACK_SPADE: Card = Card { rank: Rank::Jack, suit: Suit::Spade };
const QUEEN_SPADE: Card = Card { rank: Rank::Queen, suit: Suit::Spade };
const KING_SPADE: Card = Card { rank: Rank::King, suit: Suit::Spade };
const ACE_SPADE: Card = Card { rank: Rank::Ace, suit: Suit::Spade };

fn set_vec(set: CardSet) -> Vec<Card> {
    set.iter_desc().collect()
}

#[test]
fn test_cardset_add() {
    let mut set = CardSet::new();

    set += ACE_SPADE;
    set += SIX_HEART;
    set += NINE_HEART;
    set = set + NINE_HEART;

    assert_eq!(
        set_vec(set),
        vec![ACE_SPADE, NINE_HEART, SIX_HEART]
    )
}

#[test]
fn test_cardset_collect() {
    let set = CardSet::from(&[
        ACE_SPADE,
        SIX_HEART,
        NINE_HEART,
        NINE_HEART,
    ]);

    assert_eq!(
        set_vec(set),
        vec![ACE_SPADE, NINE_HEART, SIX_HEART]
    )
}

#[test]
fn test_cardset_remove() {
    let mut set = CardSet::from(&[ACE_SPADE, SIX_HEART, NINE_HEART]);

    set -= NINE_HEART;
    set -= TWO_DIAMOND;
    set = set - ACE_SPADE;

    assert_eq!(set_vec(set), vec![SIX_HEART]);
}

#[test]
fn test_cardset_has() {
    let set = CardSet::from(&[KING_CLUB, SEVEN_DIAMOND]);

    assert!(set.has(KING_CLUB));
    assert!(set.has(SEVEN_DIAMOND));
    assert!(!set.has(ACE_SPADE));
    assert!(!set.has(SIX_HEART));
}

#[test]
fn test_cardset_iter_desc() {
    let set = CardSet::from(&[ACE_SPADE, SIX_HEART, NINE_HEART]);

    let iterated: Vec<Card> = set.iter_desc().collect();

    assert_eq!(
        iterated,
        [ACE_SPADE, NINE_HEART, SIX_HEART]
    );
}

#[test]
fn test_cardset_universe() {
    let expected = CardSet::from(&gen_all_cards());
    assert_eq!(CardSet::universe(), expected);
}

#[test]
fn test_cardset_add_all() {
    let mut set = CardSet::from(&[ACE_SPADE, SIX_HEART, NINE_HEART]);

    let other = CardSet::from(&[
        ACE_SPADE,
        KING_SPADE,
        QUEEN_SPADE,
        NINE_HEART,
    ]);

    let set_clone = set | other;
    set |= other;

    assert_eq!(
        set_vec(set),
        vec![
            ACE_SPADE,
            KING_SPADE,
            QUEEN_SPADE,
            NINE_HEART,
            SIX_HEART
        ]
    );
    assert_eq!(set, set_clone);
}

#[test]
fn test_cardset_remove_all() {
    let mut set = CardSet::from(&[ACE_SPADE, SIX_HEART, NINE_HEART]);

    let other = CardSet::from(&[
        ACE_SPADE,
        KING_SPADE,
        QUEEN_SPADE,
        NINE_HEART,
    ]);

    let set_clone = set - other;
    set -= other;

    assert_eq!(set_vec(set), vec![SIX_HEART]);
    assert_eq!(set, set_clone);
}

#[test]
fn test_cardset_union() {
    let set1 = CardSet::from(&[ACE_SPADE, KING_SPADE, QUEEN_SPADE]);
    let set2 = CardSet::from(&[
        KING_SPADE,
        QUEEN_SPADE,
        TEN_SPADE,
        NINE_DIAMOND,
    ]);

    let expected = CardSet::from(&[
        ACE_SPADE,
        KING_SPADE,
        QUEEN_SPADE,
        TEN_SPADE,
        NINE_DIAMOND,
    ]);

    assert_eq!(set1 | set2, expected);
}

#[test]
fn test_cardset_intersection() {
    let set1 = CardSet::from(&[ACE_SPADE, KING_SPADE, QUEEN_SPADE]);
    let set2 = CardSet::from(&[
        KING_SPADE,
        QUEEN_SPADE,
        TEN_SPADE,
        NINE_DIAMOND,
    ]);

    let expected = CardSet::from(&[QUEEN_SPADE, KING_SPADE]);

    assert_eq!(set1 & set2, expected);
}

#[test]
fn test_disjoint_with() {
    let set1 = CardSet::from(&[ACE_SPADE, KING_SPADE]);
    let set2 = CardSet::from(&[KING_SPADE, QUEEN_SPADE, TEN_SPADE]);
    let set3 = CardSet::from(&[
        NINE_DIAMOND,
        TEN_SPADE,
        JACK_SPADE,
        QUEEN_SPADE,
    ]);

    assert!(!set1.disjoint_with(set1));
    assert!(!set1.disjoint_with(set2));
    assert!(!set2.disjoint_with(set1));
    assert!(!set2.disjoint_with(set2));
    assert!(!set2.disjoint_with(set3));
    assert!(!set3.disjoint_with(set2));
    assert!(!set3.disjoint_with(set3));

    assert!(set1.disjoint_with(set3));
    assert!(set3.disjoint_with(set1));
}
