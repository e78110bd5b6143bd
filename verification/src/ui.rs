pub mod argparser;
pub mod input;
pub mod output;
