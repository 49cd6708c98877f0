//! Addresses of cells: by linear offset, or by row and column.

use crate::bounded::{BoundedValue, OutOfRange};
use crate::dims::{
    cell_count, cells, col_of, fits, lemma_coords_offset, lemma_dims, lemma_offset_coords,
    offset_of, row_of, side, side_len,
};
use vstd::prelude::*;

verus! {

/// The address of one cell of a board of box size `N`.
#[derive(Clone, Copy, Debug, PartialEq, Eq)]
pub enum Index<const N: usize> {
    /// A linear offset, counted row by row from the top left.
    Std(usize),
    /// A row and a column, both counted from zero.
    RC(usize, usize),
}

impl<const N: usize> Index<N> {
    /// The address lies on the board.
    pub open spec fn wf(self) -> bool {
        match self {
            Index::Std(i) => i < cells::<N>(),
            Index::RC(r, c) => r < side::<N>() && c < side::<N>(),
        }
    }

    /// The linear offset that the address resolves to.
    pub open spec fn offset(self) -> int {
        match self {
            Index::Std(i) => i as int,
            Index::RC(r, c) => offset_of::<N>(r as int, c as int),
        }
    }

    /// The row and the column of the addressed cell.
    pub open spec fn coords(self) -> (int, int) {
        match self {
            Index::Std(i) => (row_of::<N>(i as int), col_of::<N>(i as int)),
            Index::RC(r, c) => (r as int, c as int),
        }
    }

    /// The address of the cell at linear offset `i`, if the board has such a cell.
    pub fn from_linear(i: usize) -> (r: Result<Self, OutOfRange>)
        requires
            fits::<N>(),
        ensures
            i < cells::<N>() ==> r == Ok::<Self, OutOfRange>(Index::Std(i)),
            i >= cells::<N>() ==> r == Err::<Self, OutOfRange>(
                (OutOfRange { value: i, lo: 0, hi: (cells::<N>() - 1) as usize }),
            ),
            (r matches Ok(ix) ==> ix.wf()),
    {
        let k = cell_count::<N>();
        match BoundedValue::construct(0, k - 1, i) {
            Ok(b) => Ok(Index::Std(b.get())),
            Err(e) => Err(e),
        }
    }

    /// The address of the cell at row `r`, column `c`, if both lie in the grid.
    /// The row is checked first: where both are outside, the error names the row.
    pub fn rc(r: usize, c: usize) -> (res: Result<Self, OutOfRange>)
        requires
            fits::<N>(),
        ensures
            r < side::<N>() && c < side::<N>() ==> res == Ok::<Self, OutOfRange>(Index::RC(r, c)),
            r >= side::<N>() ==> res == Err::<Self, OutOfRange>(
                (OutOfRange { value: r, lo: 0, hi: (side::<N>() - 1) as usize }),
            ),
            r < side::<N>() && c >= side::<N>() ==> res == Err::<Self, OutOfRange>(
                (OutOfRange { value: c, lo: 0, hi: (side::<N>() - 1) as usize }),
            ),
            (res matches Ok(ix) ==> ix.wf()),
    {
        let m = side_len::<N>();
        let row = match BoundedValue::construct(0, m - 1, r) {
            Ok(b) => b.get(),
            Err(e) => {
                return Err(e);
            },
        };
        let col = match BoundedValue::construct(0, m - 1, c) {
            Ok(b) => b.get(),
            Err(e) => {
                return Err(e);
            },
        };
        Ok(Index::RC(row, col))
    }

    /// The linear offset of the addressed cell.
    pub fn at(&self) -> (p: usize)
        requires
            fits::<N>(),
            self.wf(),
        ensures
            p == self.offset(),
            p < cells::<N>(),
    {
        match self {
            Index::Std(i) => *i,
            Index::RC(r, c) => {
                proof {
                    lemma_dims::<N>();
                    lemma_offset_coords::<N>(*r as int, *c as int);
                }
                let m = side_len::<N>();
                m * *r + *c
            },
        }
    }
}

/// The address, by row and column, of the cell at linear offset `p`.
pub open spec fn index_of<const N: usize>(p: int) -> Index<N> {
    Index::RC(row_of::<N>(p) as usize, col_of::<N>(p) as usize)
}

/// The address, by row and column, of the cell at linear offset `board_index`.
pub fn into_index<const N: usize>(board_index: usize) -> (ix: Index<N>)
    requires
        fits::<N>(),
        board_index < cells::<N>(),
    ensures
        ix == index_of::<N>(board_index as int),
        ix.wf(),
        ix.offset() == board_index,
{
    proof {
        lemma_dims::<N>();
        lemma_coords_offset::<N>(board_index as int);
    }
    let m = side_len::<N>();
    Index::RC(board_index / m, board_index % m)
}

/// The row and the column of the addressed cell, both counted from zero.
pub fn destructure<const N: usize>(index: Index<N>) -> (rc: (usize, usize))
    requires
        fits::<N>(),
        index.wf(),
    ensures
        (rc.0 as int, rc.1 as int) == index.coords(),
        rc.0 < side::<N>(),
        rc.1 < side::<N>(),
        offset_of::<N>(rc.0 as int, rc.1 as int) == index.offset(),
{
    match index {
        Index::Std(i) => {
            proof {
                lemma_dims::<N>();
                lemma_coords_offset::<N>(i as int);
            }
            let m = side_len::<N>();
            (i / m, i % m)
        },
        Index::RC(r, c) => (r, c),
    }
}

/// The address of the cell in the `r`-th row and `c`-th column, both counted
/// from one.
pub fn new_index<const N: usize>(r: usize, c: usize) -> (ix: Index<N>)
    requires
        1 <= r <= side::<N>(),
        1 <= c <= side::<N>(),
    ensures
        ix == Index::<N>::RC((r - 1) as usize, (c - 1) as usize),
        ix.wf(),
{
    Index::RC(r - 1, c - 1)
}

/// Taking a linear offset apart into row and column and addressing the cell by
/// these gives the offset back.
pub proof fn lemma_index_round_trip<const N: usize>(i: usize)
    requires
        fits::<N>(),
        i < cells::<N>(),
    ensures
        Index::<N>::Std(i).wf(),
        ({
            let (r, c) = Index::<N>::Std(i).coords();
            &&& 0 <= r < side::<N>()
            &&& 0 <= c < side::<N>()
            &&& Index::<N>::RC(r as usize, c as usize).wf()
            &&& Index::<N>::RC(r as usize, c as usize).offset() == Index::<N>::Std(i).offset()
            &&& Index::<N>::RC(r as usize, c as usize).offset() == i
        }),
{
    lemma_dims::<N>();
    lemma_coords_offset::<N>(i as int);
}

} // verus!
