//! Sorting a stack of integers with two stacks and eleven operations.
pub mod machine;
pub mod ranking;
pub mod radix;
pub mod rank_radix;
pub mod indexed_radix;
pub mod tokens;
pub mod text;
pub mod sorted_chunks;
pub mod cheapest_chunks;
pub mod logged_chunks;
pub mod range_chunks;
