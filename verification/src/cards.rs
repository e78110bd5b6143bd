pub mod card;
pub mod cardset;
pub mod deck;
pub mod hand;
pub mod rank_counter;
pub mod suit_grouping;
