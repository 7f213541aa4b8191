//! Search problems and the data structures and helpers of the searches.

pub mod eight_puzzle;
pub mod eight_queens;
pub mod genetic;
pub mod min_heap;
pub mod river_crossing;
pub mod search;
pub mod utils;
pub mod vaccum_cleaner;
