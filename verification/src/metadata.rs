//! Reports over a board: for every row, column and box, what its cells add up
//! to and how often each value occurs in it.

use crate::array::new_arr;
use crate::board::{seg_count, seg_sum, Board};
use crate::dims::{fits, lemma_dims, side, side_len};
use crate::error::SudokuErr;
use crate::segment::Segment;
use vstd::prelude::*;

verus! {

/// The segments in the order of a report: the rows from the top, then the
/// columns from the left, then the boxes row by row.
pub open spec fn nth_segment<const N: usize>(k: int) -> Segment<N> {
    if k < side::<N>() {
        Segment::Row(k as usize)
    } else if k < 2 * side::<N>() {
        Segment::Col((k - side::<N>()) as usize)
    } else {
        Segment::minor_number(k - 2 * side::<N>())
    }
}

/// `cnts` holds the sum of every segment, and `freqs` holds for every segment
/// and every value below `buckets` the number of cells that hold the value.
pub open spec fn tallied<const N: usize>(
    s: Seq<usize>,
    cnts: Seq<usize>,
    freqs: Seq<Vec<usize>>,
    buckets: int,
) -> bool {
    &&& cnts.len() == 3 * side::<N>()
    &&& freqs.len() == 3 * side::<N>()
    &&& forall|k: int|
        0 <= k < 3 * side::<N>() ==> #[trigger] cnts[k] == seg_sum(
            s,
            nth_segment::<N>(k),
            side::<N>(),
        )
    &&& forall|k: int| 0 <= k < 3 * side::<N>() ==> (#[trigger] freqs[k])@.len() == buckets
    &&& forall|k: int, v: int|
        0 <= k < 3 * side::<N>() && 0 <= v < buckets ==> #[trigger] freqs[k]@[v] == seg_count(
            s,
            nth_segment::<N>(k),
            v,
            side::<N>(),
        )
}

/// The `k`-th segment in the order of a report.
pub fn segment_number<const N: usize>(k: usize) -> (seg: Segment<N>)
    requires
        fits::<N>(),
        k < 3 * side::<N>(),
    ensures
        seg == nth_segment::<N>(k as int),
        seg.wf(),
{
    let m = side_len::<N>();
    proof {
        lemma_dims::<N>();
    }
    if k < m {
        Segment::Row(k)
    } else if k - m < m {
        Segment::Col(k - m)
    } else {
        Segment::nth_minor(k - m - m)
    }
}

/// The sums and the counts of a report with `buckets` values counted.
pub fn tally<const N: usize>(b: &Board<N>, buckets: usize) -> (r: (Vec<usize>, Vec<Vec<usize>>))
    requires
        b.wf(),
    ensures
        tallied::<N>(b@, r.0@, r.1@, buckets as int),
{
    let m = side_len::<N>();
    proof {
        lemma_dims::<N>();
    }
    let mut cnts: Vec<usize> = Vec::new();
    let mut freqs: Vec<Vec<usize>> = Vec::new();
    let mut k: usize = 0;
    while k < 3 * m
        invariant
            b.wf(),
            m == side::<N>(),
            3 * m <= usize::MAX,
            k <= 3 * m,
            cnts@.len() == k,
            freqs@.len() == k,
            forall|j: int|
                0 <= j < k ==> #[trigger] cnts@[j] == seg_sum(b@, nth_segment::<N>(j), m as int),
            forall|j: int| 0 <= j < k ==> (#[trigger] freqs@[j])@.len() == buckets,
            forall|j: int, v: int|
                0 <= j < k && 0 <= v < buckets ==> #[trigger] freqs@[j]@[v] == seg_count(
                    b@,
                    nth_segment::<N>(j),
                    v,
                    m as int,
                ),
        decreases 3 * m - k,
    {
        let seg = segment_number::<N>(k);
        cnts.push(b.segment_sum(seg));
        let mut row: Vec<usize> = Vec::new();
        let mut v: usize = 0;
        while v < buckets
            invariant
                b.wf(),
                seg.wf(),
                m == side::<N>(),
                v <= buckets,
                row@.len() == v,
                forall|w: int|
                    0 <= w < v ==> #[trigger] row@[w] == seg_count(b@, seg, w, m as int),
            decreases buckets - v,
        {
            row.push(b.segment_count(seg, v));
            v += 1;
        }
        freqs.push(row);
        k += 1;
    }
    (cnts, freqs)
}

/// The report that counts every cell value and the empty cell.
#[derive(Debug)]
pub struct Metadata<const N: usize> {
    pub cnts: Vec<usize>,
    pub freqs: Vec<Vec<usize>>,
}

impl<const N: usize> Metadata<N> {
    /// The report over `b`: the sums of its segments, and for each segment the
    /// number of cells that hold zero, one, and so on up to the side.
    pub fn new(b: &Board<N>) -> (r: Result<Self, SudokuErr<N>>)
        requires
            b.wf(),
        ensures
            r matches Ok(md) && tallied::<N>(b@, md.cnts@, md.freqs@, side::<N>() + 1),
    {
        let m = side_len::<N>();
        proof {
            lemma_dims::<N>();
        }
        let (sums, counts) = tally(b, m + 1);
        let cnts = match new_arr(3 * m, sums) {
            Ok(a) => a,
            Err(e) => {
                return Err(SudokuErr::LengthMismatch(e));
            },
        };
        let freqs = match new_arr(3 * m, counts) {
            Ok(a) => a,
            Err(e) => {
                return Err(SudokuErr::LengthMismatch(e));
            },
        };
        Ok(Metadata { cnts, freqs })
    }
}

/// The report that counts the values up to the box size only.
#[derive(Debug)]
pub struct Diagnostics<const N: usize> {
    pub cnts: Vec<usize>,
    pub freqs: Vec<Vec<usize>>,
}

impl<const N: usize> Diagnostics<N> {
    /// The report over `b`: the sums of its segments, and for each segment the
    /// number of cells that hold zero, one, and so on up to the box size.
    pub fn new(b: &Board<N>) -> (r: Result<Self, SudokuErr<N>>)
        requires
            b.wf(),
        ensures
            r matches Ok(d) && tallied::<N>(b@, d.cnts@, d.freqs@, N + 1),
    {
        let m = side_len::<N>();
        proof {
            lemma_dims::<N>();
        }
        let (sums, counts) = tally(b, N + 1);
        let cnts = match new_arr(3 * m, sums) {
            Ok(a) => a,
            Err(e) => {
                return Err(SudokuErr::LengthMismatch(e));
            },
        };
        let freqs = match new_arr(3 * m, counts) {
            Ok(a) => a,
            Err(e) => {
                return Err(SudokuErr::LengthMismatch(e));
            },
        };
        Ok(Diagnostics { cnts, freqs })
    }
}

} // verus!
