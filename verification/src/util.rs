pub mod array;
pub mod ui;
