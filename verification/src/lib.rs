pub mod analysis;
pub mod cards;
pub mod datastructures;
pub mod operations;
pub mod parallelism;
pub mod test_util;
pub mod ui;
pub mod util;
