//! What the engine reports when it turns an input down.

use crate::array::LengthMismatch;
use crate::bounded::OutOfRange;
use crate::cells::CellOptions;
use vstd::prelude::*;

verus! {

/// The failures of the engine for boards of box size `N`.
#[derive(Debug)]
pub enum SudokuErr<const N: usize> {
    /// A value, a coordinate or an offset lies outside its range.
    OutOfRange(OutOfRange),
    /// A sequence of cells has the wrong length.
    LengthMismatch(LengthMismatch),
    /// The search went through every assignment and none completes the board.
    Unsolvable,
    /// A cell that is not fixed has no candidate left.
    Contradiction,
    /// A number that is no cell value on this board.
    InvalidBoardValue(usize),
    /// A pair of numbers that addresses no cell on this board.
    InvalidBoardIndex(usize, usize),
    /// A cell with several candidates left was asked for its one value.
    MultipleCellOptionsForCast(CellOptions<N>),
}

} // verus!
