//! A verified solver for nonogram ("picross") puzzles.
//!
//! A puzzle gives, for every row and column of a grid, the ordered lengths of
//! the contiguous runs of filled cells in that line. The library models the
//! board as a tri-state grid, enumerates the placements of a single line's
//! runs, and offers three solving strategies: exhaustive backtracking search,
//! fixed-point line propagation, and incremental worklist propagation.

pub mod app;
pub mod error;
pub mod game_board;
pub mod iterators;
pub mod picross;
pub mod render;
pub mod text;

pub use error::PicrossError;
