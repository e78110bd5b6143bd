use poker_odds::cards::card::{gen_all_cards, Card, Rank, Suit};
use poker_odds::cards::deck::Deck;
use rand::RngCore;
use std::collections::HashSet;

struct ZeroRng(poker_odds::test_util::zero_rng::ZeroRng);

impl ZeroRng {
    fn new() -> ZeroRng {
        ZeroRng(poker_odds::test_util::zero_rng::ZeroRng::new())
    }
}

impl RngCore for ZeroRng {
    fn next_u32(&mut self) -> u32 {
        self.0.next_u32()
    }

    fn next_u64(&mut self) -> u64 {
        self.0.next_u64()
    }

    fn fill_bytes(&mut self, dst: &mut [u8]) {
        let mut zeros = dst.to_vec();
        self.0.fill_bytes(&mut zeros);
        dst.copy_from_slice(&zeros);
    }
}

#[test]
fn test_deal_entire_deck() {
    let expected = HashSet::from(gen_all_cards());

    let mut deck = Deck::new();
    let mut actual = HashSet::new();
    let mut rng = ZeroRng::new();

    while !deck.is_empty() {
        actual.insert(deck.deal(&mut rng));
    }

    assert_eq!(expected, actual);
}

#[test]
fn test_len() {
    let mut deck = Deck::new();
    let mut rng = ZeroRng::new();

    assert_eq!(deck.len(), 52);

    deck.deal(&mut rng);
    deck.deal(&mut rng);
    assert_eq!(deck.len(), 50);
}

#[test]
fn test_num_satisfying() {
    let ace_of_spades = Card {
        rank: Rank::Ace,
        suit: Suit::Spade,
    };
    let mut deck = Deck::new();

    deck.remove_card(ace_of_spades);

    assert_eq!(deck.num_satisfying(|c| c.suit == Suit::Heart), 13);
    assert_eq!(deck.num_satisfying(|c| c.suit == Suit::Spade), 12);
}

#[test]
fn test_remove_card() {
    let card1 = Card {
        rank: Rank::Ace,
        suit: Suit::Spade,
    };
    let card2 = Card {
        rank: Rank::Queen,
        suit: Suit::Heart,
    };

    let mut expected = HashSet::from(gen_all_cards());
    expected.remove(&card1);
    expected.remove(&card2);

    let mut actual = HashSet::new();
    let mut rng = ZeroRng::new();

    let mut deck = Deck::new();
    assert!(deck.remove_card(card1));
    assert!(!deck.remove_card(card1));
    assert!(deck.remove_card(card2));

    while !deck.is_empty() {
        actual.insert(deck.deal(&mut rng));
    }

    assert_eq!(expected, actual);
}
