pub mod zero_rng;
