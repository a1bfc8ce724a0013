//! A draughts ("Dame") rules engine with a generic minimax game-tree search.
//!
//! The `board` module holds the rules engine: an 8x8 board with mandatory
//! captures, multi-jumps and promotion. The `dame` module adapts a board to
//! the search contract and supplies the position evaluation. The `minimax`
//! module is a generic exhaustive game-tree search with randomized tie-break,
//! and the `ai` module holds the move drivers built on it.

pub mod ai;
pub mod board;
pub mod dame;
pub mod minimax;
