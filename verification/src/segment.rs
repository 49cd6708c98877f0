//! Rows, columns and boxes, and the cells that belong to each.

use crate::dims::{
    cells, col_of, fits, lemma_coords_offset, lemma_dims, lemma_offset_coords, lemma_pair,
    lemma_unpair, offset_of, row_of, side, side_len,
};
use vstd::prelude::*;

verus! {

/// A row, a column or a box of a board of box size `N`.
#[derive(Clone, Copy, Debug, PartialEq, Eq)]
pub enum Segment<const N: usize> {
    /// The row with this number, counted from the top.
    Row(usize),
    /// The column with this number, counted from the left.
    Col(usize),
    /// The box in this row and this column of boxes: both count boxes, not cells.
    Minor(usize, usize),
}

impl<const N: usize> Segment<N> {
    /// The segment lies on the board.
    pub open spec fn wf(self) -> bool {
        match self {
            Segment::Row(i) => i < side::<N>(),
            Segment::Col(j) => j < side::<N>(),
            Segment::Minor(bi, bj) => bi < N && bj < N,
        }
    }

    /// The linear offset of the segment's `x`-th cell: a row runs left to right,
    /// a column top to bottom, a box row by row.
    pub open spec fn offset(self, x: int) -> int {
        match self {
            Segment::Row(i) => offset_of::<N>(i as int, x),
            Segment::Col(j) => offset_of::<N>(x, j as int),
            Segment::Minor(bi, bj) => offset_of::<N>(bi * N + x / (N as int), bj * N + x % (N as int)),
        }
    }

    /// The linear offsets of the segment's cells, in order.
    pub open spec fn offsets(self) -> Seq<int> {
        Seq::new(side::<N>() as nat, |x: int| self.offset(x))
    }

    /// Whether the cell at linear offset `p` belongs to the segment.
    pub open spec fn contains(self, p: int) -> bool {
        match self {
            Segment::Row(i) => row_of::<N>(p) == i,
            Segment::Col(j) => col_of::<N>(p) == j,
            Segment::Minor(bi, bj) => row_of::<N>(p) / (N as int) == bi && col_of::<N>(p) / (
            N as int) == bj,
        }
    }

    /// The place that the cell at linear offset `p` takes in the segment's order.
    pub open spec fn position(self, p: int) -> int {
        match self {
            Segment::Row(_) => col_of::<N>(p),
            Segment::Col(_) => row_of::<N>(p),
            Segment::Minor(_, _) => (row_of::<N>(p) % (N as int)) * N + col_of::<N>(p) % (N as int),
        }
    }

    /// The row through the cell at linear offset `p`.
    pub open spec fn row_through(p: int) -> Self {
        Segment::Row(row_of::<N>(p) as usize)
    }

    /// The column through the cell at linear offset `p`.
    pub open spec fn col_through(p: int) -> Self {
        Segment::Col(col_of::<N>(p) as usize)
    }

    /// The box around the cell at linear offset `p`.
    pub open spec fn minor_around(p: int) -> Self {
        Segment::Minor(
            (row_of::<N>(p) / (N as int)) as usize,
            (col_of::<N>(p) / (N as int)) as usize,
        )
    }

    /// The `i`-th box, boxes counted row by row.
    pub open spec fn minor_number(i: int) -> Self {
        Segment::Minor((i / (N as int)) as usize, (i % (N as int)) as usize)
    }

    /// The row through the cell at linear offset `index`.
    pub fn row(index: usize) -> (s: Self)
        requires
            fits::<N>(),
        ensures
            s == Self::row_through(index as int),
            index < cells::<N>() ==> s.wf() && s.contains(index as int),
    {
        proof {
            if index < cells::<N>() {
                lemma_coords_offset::<N>(index as int);
            }
        }
        Segment::Row(index / side_len::<N>())
    }

    /// The column through the cell at linear offset `index`.
    pub fn col(index: usize) -> (s: Self)
        requires
            fits::<N>(),
        ensures
            s == Self::col_through(index as int),
            s.wf(),
            s.contains(index as int),
    {
        Segment::Col(index % side_len::<N>())
    }

    /// The box around the cell at linear offset `index`.
    pub fn minor(index: usize) -> (s: Self)
        requires
            fits::<N>(),
        ensures
            s == Self::minor_around(index as int),
            index < cells::<N>() ==> s.wf() && s.contains(index as int),
    {
        let m = side_len::<N>();
        proof {
            if index < cells::<N>() {
                lemma_coords_offset::<N>(index as int);
                lemma_unpair(N as int, index as int / (m as int));
            }
            lemma_unpair(N as int, index as int % (m as int));
        }
        Segment::Minor((index / m) / N, (index % m) / N)
    }

    /// The `i`-th box, boxes counted row by row.
    pub fn nth_minor(i: usize) -> (s: Self)
        requires
            fits::<N>(),
            i < side::<N>(),
        ensures
            s == Self::minor_number(i as int),
            s.wf(),
    {
        proof {
            lemma_unpair(N as int, i as int);
        }
        Segment::Minor(i / N, i % N)
    }

    /// The linear offset of the segment's `x`-th cell.
    pub fn offset_at(&self, x: usize) -> (p: usize)
        requires
            fits::<N>(),
            self.wf(),
            x < side::<N>(),
        ensures
            p == self.offset(x as int),
            p < cells::<N>(),
            self.contains(p as int),
            self.position(p as int) == x,
    {
        proof {
            lemma_dims::<N>();
            lemma_offset_in_segment::<N>(*self, x as int);
        }
        let m = side_len::<N>();
        match self {
            Segment::Row(i) => {
                proof {
                    lemma_pair(m as int, *i as int, x as int);
                }
                m * *i + x
            },
            Segment::Col(j) => {
                proof {
                    lemma_pair(m as int, x as int, *j as int);
                }
                m * x + *j
            },
            Segment::Minor(bi, bj) => {
                proof {
                    lemma_unpair(N as int, x as int);
                    lemma_pair(N as int, *bi as int, x as int / (N as int));
                    lemma_pair(N as int, *bj as int, x as int % (N as int));
                    lemma_pair(
                        m as int,
                        *bi * N + x as int / (N as int),
                        *bj * N + x as int % (N as int),
                    );
                }
                let r: usize = *bi * N + x / N;
                let c: usize = *bj * N + x % N;
                m * r + c
            },
        }
    }

    /// The linear offsets of the segment's cells, in order.
    pub fn offsets_vec(&self) -> (v: Vec<usize>)
        requires
            fits::<N>(),
            self.wf(),
        ensures
            v@.map_values(|p: usize| p as int) == self.offsets(),
            forall|x: int| 0 <= x < v@.len() ==> (#[trigger] v@[x]) < cells::<N>(),
    {
        let m = side_len::<N>();
        let mut v: Vec<usize> = Vec::new();
        let mut x: usize = 0;
        while x < m
            invariant
                fits::<N>(),
                self.wf(),
                m == side::<N>(),
                x <= m,
                v@.len() == x,
                forall|y: int| 0 <= y < x ==> v@[y] as int == #[trigger] self.offset(y),
                forall|y: int| 0 <= y < x ==> (#[trigger] v@[y]) < cells::<N>(),
            decreases m - x,
        {
            let p = self.offset_at(x);
            v.push(p);
            x += 1;
        }
        assert(v@.map_values(|p: usize| p as int) =~= self.offsets());
        v
    }
}

/// Each of a segment's cells lies on the board, belongs to the segment, and
/// takes in it the place it was reached by.
pub proof fn lemma_offset_in_segment<const N: usize>(s: Segment<N>, x: int)
    requires
        1 <= N,
        s.wf(),
        0 <= x < side::<N>(),
    ensures
        0 <= s.offset(x) < cells::<N>(),
        s.contains(s.offset(x)),
        s.position(s.offset(x)) == x,
{
    let n = N as int;
    match s {
        Segment::Row(i) => {
            lemma_offset_coords::<N>(i as int, x);
        },
        Segment::Col(j) => {
            lemma_offset_coords::<N>(x, j as int);
        },
        Segment::Minor(bi, bj) => {
            lemma_unpair(n, x);
            lemma_pair(n, bi as int, x / n);
            lemma_pair(n, bj as int, x % n);
            lemma_offset_coords::<N>(bi * n + x / n, bj * n + x % n);
        },
    }
}

/// A cell of the board that belongs to a segment is reached at its place in
/// the segment's order.
pub proof fn lemma_segment_reaches<const N: usize>(s: Segment<N>, p: int)
    requires
        1 <= N,
        s.wf(),
        0 <= p < cells::<N>(),
        s.contains(p),
    ensures
        0 <= s.position(p) < side::<N>(),
        s.offset(s.position(p)) == p,
{
    let n = N as int;
    lemma_coords_offset::<N>(p);
    match s {
        Segment::Row(i) => {},
        Segment::Col(j) => {},
        Segment::Minor(bi, bj) => {
            let r = row_of::<N>(p);
            let c = col_of::<N>(p);
            lemma_unpair(n, r);
            lemma_unpair(n, c);
            lemma_pair(n, r % n, c % n);
        },
    }
}

} // verus!
