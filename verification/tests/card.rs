use poker_odds::cards::card::gen_all_cards;
use std::collections::HashSet;

#[test]
fn test_all_cards_are_unique() {
    assert_eq!(HashSet::from(gen_all_cards()).len(), gen_all_cards().len());
}

#[test]
fn test_all_cards_has_52_cards() {
    assert_eq!(gen_all_cards().len(), 52);
}
