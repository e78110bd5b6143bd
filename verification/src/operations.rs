pub mod showdown;
