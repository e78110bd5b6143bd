pub mod stack_vec;
