//! The board: a flat store of cells, read by address and by segment.

use crate::array::{new_arr, LengthMismatch};
use crate::bounded::{BoundedValue, OutOfRange};
use crate::dims::{
    cell_count, cells, col_of, fits, lemma_coords_offset, lemma_dims, lemma_unpair, row_of, side,
    side_len,
};
use crate::error::SudokuErr;
use crate::index::{index_of, into_index, Index};
use crate::segment::{lemma_offset_in_segment, lemma_segment_reaches, Segment};
use vstd::prelude::*;

verus! {

/// There is one cell for each place on the board, and each is empty (zero) or
/// holds a value from one to the side.
pub open spec fn valid_cells<const N: usize>(s: Seq<usize>) -> bool {
    &&& s.len() == cells::<N>()
    &&& forall|p: int| 0 <= p < s.len() ==> #[trigger] s[p] <= side::<N>()
}

/// No cell is empty.
pub open spec fn complete(s: Seq<usize>) -> bool {
    forall|p: int| 0 <= p < s.len() ==> #[trigger] s[p] != 0
}

/// Every one of the first `k` cells lies in `lo ..= hi`.
pub open spec fn prefix_inside(s: Seq<usize>, lo: int, hi: int, k: int) -> bool {
    forall|j: int| 0 <= j < k ==> lo <= #[trigger] s[j] <= hi
}

/// The sum of the first `k` cells of a segment.
pub open spec fn seg_sum<const N: usize>(s: Seq<usize>, seg: Segment<N>, k: int) -> int
    decreases k,
{
    if k <= 0 {
        0
    } else {
        seg_sum(s, seg, k - 1) + s[seg.offset(k - 1)]
    }
}

/// The number of cells among the first `k` of a segment that hold `v`.
pub open spec fn seg_count<const N: usize>(s: Seq<usize>, seg: Segment<N>, v: int, k: int) -> int
    decreases k,
{
    if k <= 0 {
        0
    } else {
        seg_count(s, seg, v, k - 1) + (if s[seg.offset(k - 1)] == v {
            1int
        } else {
            0int
        })
    }
}

/// The sum of the values from one to the side: what a segment that holds each
/// value once adds up to.
pub open spec fn target_sum<const N: usize>() -> int {
    side::<N>() * (side::<N>() + 1) / 2
}

/// The `i`-th row, the `i`-th column and the `i`-th box each add up to the
/// target.
pub open spec fn sums_match<const N: usize>(s: Seq<usize>, i: int) -> bool {
    &&& seg_sum(s, Segment::<N>::Row(i as usize), side::<N>()) == target_sum::<N>()
    &&& seg_sum(s, Segment::<N>::Col(i as usize), side::<N>()) == target_sum::<N>()
    &&& seg_sum(s, Segment::<N>::minor_number(i), side::<N>()) == target_sum::<N>()
}

/// Every row, column and box adds up to the target. A grid that holds each
/// value once in every segment passes; so do some grids that repeat values.
pub open spec fn layout_ok<const N: usize>(s: Seq<usize>) -> bool {
    forall|i: int| 0 <= i < side::<N>() ==> #[trigger] sums_match::<N>(s, i)
}

/// The cell at `q` is on the board, is not the cell at `skip`, belongs to the
/// segment and holds `v`.
pub open spec fn hit<const N: usize>(s: Seq<usize>, seg: Segment<N>, v: usize, skip: int, q: int) -> bool {
    &&& 0 <= q < s.len()
    &&& q != skip
    &&& seg.contains(q)
    &&& s[q] == v
}

/// Some cell of the segment other than the one at `skip` holds `v`.
pub open spec fn occurs_apart<const N: usize>(s: Seq<usize>, seg: Segment<N>, v: usize, skip: int) -> bool {
    exists|q: int| #[trigger] hit(s, seg, v, skip, q)
}

/// Some cell of the segment holds `v`.
pub open spec fn occurs_in<const N: usize>(s: Seq<usize>, seg: Segment<N>, v: usize) -> bool {
    occurs_apart(s, seg, v, s.len() as int)
}

/// The cells at `p` and `q` lie in the same box.
pub open spec fn same_box<const N: usize>(p: int, q: int) -> bool {
    &&& row_of::<N>(p) / (N as int) == row_of::<N>(q) / (N as int)
    &&& col_of::<N>(p) / (N as int) == col_of::<N>(q) / (N as int)
}

/// The cells at `p` and `q` are two cells that share a row, a column or a box.
pub open spec fn peers<const N: usize>(p: int, q: int) -> bool {
    &&& p != q
    &&& (row_of::<N>(p) == row_of::<N>(q) || col_of::<N>(p) == col_of::<N>(q) || same_box::<N>(
        p,
        q,
    ))
}

/// No peer of the cell at `p` holds what that cell holds.
pub open spec fn free_of_conflict<const N: usize>(s: Seq<usize>, p: int) -> bool {
    forall|q: int| 0 <= q < s.len() && #[trigger] peers::<N>(p, q) ==> s[q] != s[p]
}

/// No two cells that share a row, a column or a box hold the same.
pub open spec fn grid_valid<const N: usize>(s: Seq<usize>) -> bool {
    forall|p: int| 0 <= p < s.len() ==> #[trigger] free_of_conflict::<N>(s, p)
}

/// Whether a value may go into the cell at `p`: no cell of its row, column or
/// box holds it.
pub open spec fn placement_ok<const N: usize>(s: Seq<usize>, p: int, v: usize) -> bool {
    &&& !occurs_in(s, Segment::<N>::row_through(p), v)
    &&& !occurs_in(s, Segment::<N>::col_through(p), v)
    &&& !occurs_in(s, Segment::<N>::minor_around(p), v)
}

/// The sum of the first `k` cells of a segment is at most `k` times the side.
pub proof fn lemma_seg_sum_bound<const N: usize>(s: Seq<usize>, seg: Segment<N>, k: int)
    requires
        fits::<N>(),
        valid_cells::<N>(s),
        seg.wf(),
        0 <= k <= side::<N>(),
    ensures
        0 <= seg_sum(s, seg, k) <= k * side::<N>(),
        k * side::<N>() <= cells::<N>(),
    decreases k,
{
    lemma_dims::<N>();
    let m = side::<N>();
    assert(k * m <= m * m && (k - 1) * m + m == k * m) by (nonlinear_arith)
        requires
            0 <= k <= m,
    ;
    if k > 0 {
        lemma_seg_sum_bound(s, seg, k - 1);
        lemma_offset_in_segment(seg, k - 1);
    }
}

/// The peers of a cell are the other cells of the row through it, of the
/// column through it and of the box around it.
pub proof fn lemma_peers_by_segments<const N: usize>(p: int, q: int)
    requires
        fits::<N>(),
        0 <= p < cells::<N>(),
    ensures
        peers::<N>(p, q) <==> p != q && (Segment::<N>::row_through(p).contains(q)
            || Segment::<N>::col_through(p).contains(q) || Segment::<N>::minor_around(p).contains(
            q,
        )),
        Segment::<N>::row_through(p).wf(),
        Segment::<N>::col_through(p).wf(),
        Segment::<N>::minor_around(p).wf(),
{
    lemma_dims::<N>();
    lemma_coords_offset::<N>(p);
    lemma_unpair(N as int, row_of::<N>(p));
    lemma_unpair(N as int, col_of::<N>(p));
}

/// A cell is free of conflict exactly when what it holds occurs in no other
/// cell of its row, of its column and of its box.
pub proof fn lemma_conflict_by_segments<const N: usize>(s: Seq<usize>, p: int)
    requires
        fits::<N>(),
        s.len() == cells::<N>(),
        0 <= p < s.len(),
    ensures
        free_of_conflict::<N>(s, p) <==> !(occurs_apart(s, Segment::<N>::row_through(p), s[p], p)
            || occurs_apart(s, Segment::<N>::col_through(p), s[p], p) || occurs_apart(
            s,
            Segment::<N>::minor_around(p),
            s[p],
            p,
        )),
{
    let row = Segment::<N>::row_through(p);
    let col = Segment::<N>::col_through(p);
    let minor = Segment::<N>::minor_around(p);
    let v = s[p];
    if free_of_conflict::<N>(s, p) {
        assert forall|q: int| !(#[trigger] hit(s, row, v, p, q)) by {
            lemma_peers_by_segments::<N>(p, q);
        }
        assert forall|q: int| !(#[trigger] hit(s, col, v, p, q)) by {
            lemma_peers_by_segments::<N>(p, q);
        }
        assert forall|q: int| !(#[trigger] hit(s, minor, v, p, q)) by {
            lemma_peers_by_segments::<N>(p, q);
        }
    } else {
        let q = choose|q: int| 0 <= q < s.len() && #[trigger] peers::<N>(p, q) && s[q] == s[p];
        lemma_peers_by_segments::<N>(p, q);
        assert(hit(s, row, v, p, q) || hit(s, col, v, p, q) || hit(s, minor, v, p, q));
    }
}

/// A board of box size `N`: `N * N * N * N` cells, row by row. A cell that
/// holds zero is empty.
#[derive(Clone, Debug, PartialEq, Eq)]
pub struct Board<const N: usize> {
    pub base: Vec<usize>,
}

impl<const N: usize> View for Board<N> {
    type V = Seq<usize>;

    open spec fn view(&self) -> Seq<usize> {
        self.base@
    }
}

impl<const N: usize> Board<N> {
    /// The board has its cells, and each is empty or holds a cell value.
    pub open spec fn wf(&self) -> bool {
        fits::<N>() && valid_cells::<N>(self@)
    }

    /// The verdict on the board as a grid: none while a cell is empty, then
    /// whether no two peers hold the same.
    pub open spec fn grid_verdict(&self) -> Option<bool> {
        if complete(self@) {
            Some(grid_valid::<N>(self@))
        } else {
            None
        }
    }

    /// The board over cells that are known to be in order.
    pub fn new(base: Vec<usize>) -> (b: Self)
        requires
            fits::<N>(),
            valid_cells::<N>(base@),
        ensures
            b@ == base@,
            b.wf(),
    {
        Board { base }
    }

    /// The board with every cell empty.
    pub fn empty() -> (b: Self)
        requires
            fits::<N>(),
        ensures
            b.wf(),
            forall|p: int| 0 <= p < cells::<N>() ==> b@[p] == 0,
    {
        let k = cell_count::<N>();
        let mut base: Vec<usize> = Vec::new();
        let mut p: usize = 0;
        while p < k
            invariant
                p <= k,
                base@.len() == p,
                forall|q: int| 0 <= q < p ==> base@[q] == 0,
            decreases k - p,
        {
            base.push(0);
            p += 1;
        }
        Board { base }
    }

    /// The board over a flat sequence of values that nothing vouches for.
    /// Every value is checked against one to the side, in order, and the first
    /// that fails is reported; then the length is checked against the number of
    /// cells.
    pub fn new_from(flat: Vec<usize>) -> (r: Result<Self, SudokuErr<N>>)
        requires
            fits::<N>(),
        ensures
            forall|p: int|
                0 <= p < flat@.len() && prefix_inside(flat@, 1, side::<N>(), p) && !(1 <= flat@[p]
                    <= side::<N>()) ==> r == Err::<Self, SudokuErr<N>>(
                    SudokuErr::OutOfRange(
                        OutOfRange { value: flat@[p], lo: 1, hi: side::<N>() as usize },
                    ),
                ),
            prefix_inside(flat@, 1, side::<N>(), flat@.len() as int) && flat@.len() < cells::<N>()
                ==> r == Err::<Self, SudokuErr<N>>(
                SudokuErr::LengthMismatch(
                    LengthMismatch {
                        produced: flat@.len() as usize,
                        expected: cells::<N>() as usize,
                    },
                ),
            ),
            prefix_inside(flat@, 1, side::<N>(), flat@.len() as int) && flat@.len() > cells::<N>()
                ==> r == Err::<Self, SudokuErr<N>>(
                SudokuErr::LengthMismatch(
                    LengthMismatch {
                        produced: (cells::<N>() + 1) as usize,
                        expected: cells::<N>() as usize,
                    },
                ),
            ),
            prefix_inside(flat@, 1, side::<N>(), flat@.len() as int) && flat@.len() == cells::<N>()
                ==> (r matches Ok(b) && b@ == flat@ && b.wf() && complete(b@)),
    {
        let m = side_len::<N>();
        let k = cell_count::<N>();
        let mut p: usize = 0;
        while p < flat.len()
            invariant
                p <= flat@.len(),
                m == side::<N>(),
                prefix_inside(flat@, 1, m as int, p as int),
            decreases flat@.len() - p,
        {
            match BoundedValue::construct(1, m, flat[p]) {
                Ok(_) => {},
                Err(e) => {
                    return Err(SudokuErr::OutOfRange(e));
                },
            }
            p += 1;
        }
        match new_arr(k, flat) {
            Ok(base) => Ok(Board { base }),
            Err(e) => Err(SudokuErr::LengthMismatch(e)),
        }
    }

    /// What the addressed cell holds.
    pub fn get(&self, i: Index<N>) -> (v: &usize)
        requires
            self.wf(),
            i.wf(),
        ensures
            *v == self@[i.offset()],
            *v <= side::<N>(),
    {
        &self.base[i.at()]
    }

    /// Puts `v` into the addressed cell; zero empties it.
    pub fn set(&mut self, i: Index<N>, v: usize)
        requires
            old(self).wf(),
            i.wf(),
            v <= side::<N>(),
        ensures
            final(self).wf(),
            final(self)@ == old(self)@.update(i.offset(), v),
    {
        let p = i.at();
        self.base[p] = v;
    }

    /// Empties every cell.
    pub fn clear(&mut self)
        requires
            old(self).wf(),
        ensures
            final(self).wf(),
            forall|p: int| 0 <= p < cells::<N>() ==> final(self)@[p] == 0,
    {
        let k = self.base.len();
        let mut p: usize = 0;
        while p < k
            invariant
                p <= k,
                k == cells::<N>(),
                self.wf(),
                forall|q: int| 0 <= q < p ==> self@[q] == 0,
            decreases k - p,
        {
            self.base[p] = 0;
            p += 1;
        }
    }

    /// What the cells of a segment hold, in the segment's order.
    pub fn segment(&self, seg_ind: Segment<N>) -> (vals: Vec<usize>)
        requires
            self.wf(),
            seg_ind.wf(),
        ensures
            vals@.len() == side::<N>(),
            forall|x: int| 0 <= x < side::<N>() ==> vals@[x] == self@[seg_ind.offset(x)],
    {
        let m = side_len::<N>();
        let mut vals: Vec<usize> = Vec::new();
        let mut x: usize = 0;
        while x < m
            invariant
                self.wf(),
                seg_ind.wf(),
                m == side::<N>(),
                x <= m,
                vals@.len() == x,
                forall|y: int| 0 <= y < x ==> vals@[y] == self@[seg_ind.offset(y)],
            decreases m - x,
        {
            let p = seg_ind.offset_at(x);
            vals.push(self.base[p]);
            x += 1;
        }
        vals
    }

    /// The sum of what the cells of a segment hold.
    pub fn segment_sum(&self, seg: Segment<N>) -> (sum: usize)
        requires
            self.wf(),
            seg.wf(),
        ensures
            sum == seg_sum(self@, seg, side::<N>()),
    {
        let m = side_len::<N>();
        let mut sum: usize = 0;
        let mut x: usize = 0;
        while x < m
            invariant
                self.wf(),
                seg.wf(),
                m == side::<N>(),
                x <= m,
                sum == seg_sum(self@, seg, x as int),
            decreases m - x,
        {
            let p = seg.offset_at(x);
            proof {
                lemma_seg_sum_bound(self@, seg, x as int);
                lemma_seg_sum_bound(self@, seg, x + 1);
            }
            sum = sum + self.base[p];
            x += 1;
        }
        sum
    }

    /// The number of cells of a segment that hold `v`.
    pub fn segment_count(&self, seg: Segment<N>, v: usize) -> (n: usize)
        requires
            self.wf(),
            seg.wf(),
        ensures
            n == seg_count(self@, seg, v as int, side::<N>()),
            n <= side::<N>(),
    {
        let m = side_len::<N>();
        let mut n: usize = 0;
        let mut x: usize = 0;
        while x < m
            invariant
                self.wf(),
                seg.wf(),
                m == side::<N>(),
                x <= m,
                n <= x,
                n == seg_count(self@, seg, v as int, x as int),
            decreases m - x,
        {
            let p = seg.offset_at(x);
            if self.base[p] == v {
                n += 1;
            }
            x += 1;
        }
        n
    }

    /// The sum of the values from one to the side.
    pub fn target(&self) -> (t: usize)
        requires
            fits::<N>(),
        ensures
            t == target_sum::<N>(),
    {
        let m = side_len::<N>();
        proof {
            lemma_dims::<N>();
            let mi = m as int;
            assert(mi % 2 == 0 ==> (mi / 2) * (mi + 1) == mi * (mi + 1) / 2 && (mi / 2) * (mi + 1)
                <= mi * mi) by (nonlinear_arith)
                requires
                    mi >= 1,
            ;
            assert(mi % 2 != 0 ==> mi * ((mi + 1) / 2) == mi * (mi + 1) / 2 && mi * ((mi + 1) / 2)
                <= mi * mi) by (nonlinear_arith)
                requires
                    mi >= 1,
            ;
        }
        if m % 2 == 0 {
            (m / 2) * (m + 1)
        } else {
            m * ((m + 1) / 2)
        }
    }

    /// Whether every row, column and box adds up to the sum of the values from
    /// one to the side. This does not rule out repeated values.
    pub fn is_valid_layout(&self) -> (b: bool)
        requires
            self.wf(),
        ensures
            b == layout_ok::<N>(self@),
    {
        let m = side_len::<N>();
        let t = self.target();
        let mut i: usize = 0;
        while i < m
            invariant
                self.wf(),
                m == side::<N>(),
                t == target_sum::<N>(),
                i <= m,
                forall|j: int| 0 <= j < i ==> #[trigger] sums_match::<N>(self@, j),
            decreases m - i,
        {
            let ok = self.segment_sum(Segment::Row(i)) == t && self.segment_sum(Segment::Col(i))
                == t && self.segment_sum(Segment::nth_minor(i)) == t;
            if !ok {
                assert(!sums_match::<N>(self@, i as int));
                return false;
            }
            i += 1;
        }
        true
    }

    /// The address of the first empty cell in linear order, if there is one.
    pub fn next_unassigned(&self) -> (r: Option<Index<N>>)
        requires
            self.wf(),
        ensures
            r is None <==> complete(self@),
            r matches Some(ix) ==> {
                &&& ix.wf()
                &&& ix == index_of::<N>(ix.offset())
                &&& 0 <= ix.offset() < cells::<N>()
                &&& self@[ix.offset()] == 0
                &&& forall|q: int| 0 <= q < ix.offset() ==> self@[q] != 0
            },
    {
        let k = self.base.len();
        let mut p: usize = 0;
        while p < k
            invariant
                self.wf(),
                k == cells::<N>(),
                p <= k,
                forall|q: int| 0 <= q < p ==> self@[q] != 0,
            decreases k - p,
        {
            if self.base[p] == 0 {
                return Some(into_index::<N>(p));
            }
            p += 1;
        }
        None
    }

    /// Whether a cell of the segment other than the one at `skip` holds `num`.
    pub fn holds_apart(&self, seg: Segment<N>, num: usize, skip: usize) -> (b: bool)
        requires
            self.wf(),
            seg.wf(),
        ensures
            b == occurs_apart(self@, seg, num, skip as int),
    {
        let m = side_len::<N>();
        let mut x: usize = 0;
        while x < m
            invariant
                self.wf(),
                seg.wf(),
                m == side::<N>(),
                x <= m,
                forall|y: int| 0 <= y < x ==> !hit(self@, seg, num, skip as int, #[trigger] seg.offset(y)),
            decreases m - x,
        {
            let p = seg.offset_at(x);
            if p != skip && self.base[p] == num {
                assert(hit(self@, seg, num, skip as int, p as int));
                return true;
            }
            x += 1;
        }
        proof {
            assert forall|q: int| !(#[trigger] hit(self@, seg, num, skip as int, q)) by {
                if hit(self@, seg, num, skip as int, q) {
                    lemma_segment_reaches(seg, q);
                    assert(seg.offset(seg.position(q)) == q);
                }
            }
        }
        false
    }

    /// Whether a cell in the row of the addressed cell holds `num`.
    pub fn value_in_row(&self, i: Index<N>, num: usize) -> (b: bool)
        requires
            self.wf(),
            i.wf(),
        ensures
            b == occurs_in(self@, Segment::<N>::row_through(i.offset()), num),
    {
        let p = i.at();
        self.holds_apart(Segment::row(p), num, self.base.len())
    }

    /// Whether a cell in the column of the addressed cell holds `num`.
    pub fn value_in_col(&self, i: Index<N>, num: usize) -> (b: bool)
        requires
            self.wf(),
            i.wf(),
        ensures
            b == occurs_in(self@, Segment::<N>::col_through(i.offset()), num),
    {
        let p = i.at();
        self.holds_apart(Segment::col(p), num, self.base.len())
    }

    /// Whether a cell in the box of the addressed cell holds `num`.
    pub fn value_in_block(&self, i: Index<N>, num: usize) -> (b: bool)
        requires
            self.wf(),
            i.wf(),
        ensures
            b == occurs_in(self@, Segment::<N>::minor_around(i.offset()), num),
    {
        let p = i.at();
        self.holds_apart(Segment::minor(p), num, self.base.len())
    }

    /// Whether `num` may go into the addressed cell: no cell of its row, of its
    /// column or of its box holds it.
    pub fn valid_value_placement(&self, i: Index<N>, num: usize) -> (b: bool)
        requires
            self.wf(),
            i.wf(),
        ensures
            b == placement_ok::<N>(self@, i.offset(), num),
    {
        !(self.value_in_row(i, num) || self.value_in_col(i, num) || self.value_in_block(i, num))
    }

    /// The verdict on the board as a grid: none while a cell is empty, then
    /// whether no two cells that share a row, a column or a box hold the same.
    pub fn is_valid_grid(&self) -> (r: Option<bool>)
        requires
            self.wf(),
        ensures
            r == self.grid_verdict(),
    {
        if self.next_unassigned().is_some() {
            return None;
        }
        let k = self.base.len();
        let mut p: usize = 0;
        while p < k
            invariant
                self.wf(),
                complete(self@),
                k == cells::<N>(),
                p <= k,
                forall|q: int| 0 <= q < p ==> #[trigger] free_of_conflict::<N>(self@, q),
            decreases k - p,
        {
            let v = self.base[p];
            proof {
                lemma_conflict_by_segments::<N>(self@, p as int);
            }
            if self.holds_apart(Segment::row(p), v, p) || self.holds_apart(Segment::col(p), v, p)
                || self.holds_apart(Segment::minor(p), v, p) {
                assert(!free_of_conflict::<N>(self@, p as int));
                return Some(false);
            }
            p += 1;
        }
        Some(true)
    }
}

} // verus!
