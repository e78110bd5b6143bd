pub mod best_five;
pub mod evaluate_hand;
pub mod hand_distribution;
pub mod math;
pub mod odds;
pub mod outcomes;
pub mod rank_counter;
pub mod search_space;
pub mod straights;
pub mod suit_grouping;
pub mod suit_symmetry;
pub mod work_queue;
