//! A scoring engine for naughts and crosses, played on a 3×3 board and,
//! one level up, on a 3×3 board of such boards.
//!
//! The engine sums, over every continuation of a board up to a search depth,
//! a depth-weighted reward for each completed line. Results are memoised in a
//! cache that the caller owns and passes to every call.

pub mod board;
pub mod cache;
pub mod score;
pub mod verdict;
pub mod moves;
pub mod meta;
