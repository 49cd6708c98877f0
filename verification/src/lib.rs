//! A size-generic Sudoku engine: boards of box size `N` (side `N * N`),
//! bounds-checked cell addressing, segment enumeration, layout checks,
//! candidate-set propagation and an exhaustive backtracking solver.

pub mod array;
pub mod board;
pub mod bounded;
pub mod cells;
pub mod dims;
pub mod error;
pub mod index;
pub mod metadata;
pub mod propagate;
pub mod random;
pub mod render;
pub mod segment;
pub mod solver;
pub mod sums;
pub mod text;
