pub mod algorithms;
