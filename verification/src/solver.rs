//! Filling a board: seeding boxes with shuffled values, and the exhaustive
//! depth-first search that completes what is there.

use crate::board::{
    complete, free_of_conflict, grid_valid, hit, lemma_peers_by_segments, occurs_in, peers,
    placement_ok, same_box, valid_cells, Board,
};
use crate::dims::{cells, col_of, fits, lemma_dims, row_of, side, side_len};
use crate::error::SudokuErr;
use crate::random::{is_shuffle, lemma_shuffle_facts, shuffle_range};
use crate::segment::{lemma_segment_reaches, Segment};
use vstd::prelude::*;

verus! {

/// The number of empty cells among the first `k`.
pub open spec fn count_empty(s: Seq<usize>, k: int) -> nat
    decreases k,
{
    if k <= 0 {
        0
    } else {
        count_empty(s, k - 1) + (if s[k - 1] == 0 {
            1nat
        } else {
            0nat
        })
    }
}

/// `done` keeps every value that `start` holds.
pub open spec fn extends(start: Seq<usize>, done: Seq<usize>) -> bool {
    &&& start.len() == done.len()
    &&& forall|p: int| 0 <= p < start.len() && start[p] != 0 ==> #[trigger] done[p] == start[p]
}

/// `done` completes `start`: it has no empty cell, keeps every value that
/// `start` holds, and each cell that was empty in `start` holds a value that
/// none of its peers holds.
pub open spec fn solves<const N: usize>(start: Seq<usize>, done: Seq<usize>) -> bool {
    &&& valid_cells::<N>(done)
    &&& complete(done)
    &&& extends(start, done)
    &&& forall|p: int|
        0 <= p < start.len() && start[p] == 0 ==> #[trigger] free_of_conflict::<N>(done, p)
}

/// The two boards hold the same in each of the first `k` cells.
pub open spec fn agree_before(a: Seq<usize>, b: Seq<usize>, k: int) -> bool {
    forall|j: int| 0 <= j < k ==> a[j] == b[j]
}

/// `a` is `b`, or holds the smaller value in the first cell in linear order
/// in which the two differ.
pub open spec fn not_after(a: Seq<usize>, b: Seq<usize>) -> bool {
    a == b || exists|k: int| 0 <= k < a.len() && #[trigger] agree_before(a, b, k) && a[k] < b[k]
}

/// `done` is the completion of `start` that the search finds: the one that
/// comes first among all completions.
pub open spec fn least_solution<const N: usize>(start: Seq<usize>, done: Seq<usize>) -> bool {
    &&& solves::<N>(start, done)
    &&& forall|d: Seq<usize>| #[trigger] solves::<N>(start, d) ==> not_after(done, d)
}

/// `s` with the cells of a segment overwritten by `vals`, in the segment's
/// order.
pub open spec fn seeded<const N: usize>(s: Seq<usize>, seg: Segment<N>, vals: Seq<usize>) -> Seq<
    usize,
> {
    Seq::new(
        s.len(),
        |p: int|
            if seg.contains(p) {
                vals[seg.position(p)]
            } else {
                s[p]
            },
    )
}

/// The cell at `p` lies in one of the first `d` boxes of the diagonal.
pub open spec fn on_diagonal<const N: usize>(p: int, d: int) -> bool {
    &&& row_of::<N>(p) / (N as int) == col_of::<N>(p) / (N as int)
    &&& row_of::<N>(p) / (N as int) < d
}

/// What the cell at `p` of `mid` holds occurs in no other cell of its box.
pub open spec fn alone_in_box<const N: usize>(mid: Seq<usize>, p: int) -> bool {
    forall|q: int| 0 <= q < mid.len() && q != p && #[trigger] same_box::<N>(p, q) ==> mid[q] != mid[p]
}

/// `mid` is `start` with the first `d` boxes of the diagonal filled, no value
/// twice in a box, and every other cell as it was.
pub open spec fn diag_seeded<const N: usize>(start: Seq<usize>, mid: Seq<usize>, d: int) -> bool {
    &&& valid_cells::<N>(mid)
    &&& mid.len() == start.len()
    &&& forall|p: int|
        0 <= p < mid.len() ==> if #[trigger] on_diagonal::<N>(p, d) {
            mid[p] != 0 && alone_in_box::<N>(mid, p)
        } else {
            mid[p] == start[p]
        }
}

/// Filling an empty cell leaves one empty cell fewer.
pub proof fn lemma_fill_decreases(s: Seq<usize>, p: int, v: usize, k: int)
    requires
        0 <= p < s.len(),
        0 <= k <= s.len(),
        s[p] == 0,
        v != 0,
    ensures
        count_empty(s.update(p, v), k) + (if p < k {
            1nat
        } else {
            0nat
        }) == count_empty(s, k),
    decreases k,
{
    if k > 0 {
        lemma_fill_decreases(s, p, v, k - 1);
    }
}

/// A value that some cell of the row, the column or the box of an empty cell
/// already holds is not what any completion puts into that cell.
pub proof fn lemma_placement_blocked<const N: usize>(start: Seq<usize>, p: int, v: usize, d: Seq<usize>)
    requires
        fits::<N>(),
        valid_cells::<N>(start),
        0 <= p < cells::<N>(),
        start[p] == 0,
        v != 0,
        !placement_ok::<N>(start, p, v),
        solves::<N>(start, d),
    ensures
        d[p] != v,
{
    let row = Segment::<N>::row_through(p);
    let col = Segment::<N>::col_through(p);
    let minor = Segment::<N>::minor_around(p);
    let n = start.len() as int;
    let q = if occurs_in(start, row, v) {
        choose|q: int| #[trigger] hit(start, row, v, n, q)
    } else if occurs_in(start, col, v) {
        choose|q: int| #[trigger] hit(start, col, v, n, q)
    } else {
        choose|q: int| #[trigger] hit(start, minor, v, n, q)
    };
    lemma_peers_by_segments::<N>(p, q);
    assert(peers::<N>(p, q));
    assert(d[q] == start[q]);
    assert(free_of_conflict::<N>(d, p));
}

/// A completion of the board with a permitted value in an empty cell is a
/// completion of the board without it.
pub proof fn lemma_solution_lifts<const N: usize>(start: Seq<usize>, p: int, v: usize, done: Seq<usize>)
    requires
        fits::<N>(),
        valid_cells::<N>(start),
        0 <= p < cells::<N>(),
        start[p] == 0,
        v != 0,
        placement_ok::<N>(start, p, v),
        solves::<N>(start.update(p, v), done),
    ensures
        solves::<N>(start, done),
{
    let cur = start.update(p, v);
    let n = start.len() as int;
    assert forall|x: int| 0 <= x < start.len() && start[x] != 0 implies #[trigger] done[x]
        == start[x] by {
        assert(cur[x] == start[x]);
    }
    assert(done[p] == cur[p]);
    assert forall|x: int| 0 <= x < start.len() && start[x] == 0 implies #[trigger] free_of_conflict::<
        N,
    >(done, x) by {
        if x != p {
            assert(cur[x] == 0);
        } else {
            assert forall|q: int| 0 <= q < done.len() && #[trigger] peers::<N>(p, q) implies done[q]
                != done[p] by {
                lemma_peers_by_segments::<N>(p, q);
                if start[q] != 0 {
                    assert(cur[q] == start[q]);
                    assert(done[q] == start[q]);
                    if done[q] == v {
                        assert(hit(start, Segment::<N>::row_through(p), v, n, q) || hit(
                            start,
                            Segment::<N>::col_through(p),
                            v,
                            n,
                            q,
                        ) || hit(start, Segment::<N>::minor_around(p), v, n, q));
                    }
                } else {
                    assert(cur[q] == 0);
                    assert(free_of_conflict::<N>(done, q));
                    assert(peers::<N>(q, p));
                }
            }
        }
    }
}

/// A completion of the board that puts `v` into an empty cell is a completion
/// of the board with `v` in that cell.
pub proof fn lemma_solution_descends<const N: usize>(start: Seq<usize>, p: int, v: usize, d: Seq<usize>)
    requires
        0 <= p < start.len(),
        start[p] == 0,
        solves::<N>(start, d),
        d[p] == v,
    ensures
        solves::<N>(start.update(p, v), d),
{
    let cur = start.update(p, v);
    assert forall|x: int| 0 <= x < cur.len() && cur[x] != 0 implies #[trigger] d[x] == cur[x] by {
        if x != p {
            assert(start[x] == cur[x]);
        }
    }
    assert forall|x: int| 0 <= x < cur.len() && cur[x] == 0 implies #[trigger] free_of_conflict::<N>(
        d,
        x,
    ) by {
        assert(start[x] == 0);
    }
}

/// A board has at most one completion that comes first: what the search
/// returns is determined by the board it starts from.
pub proof fn lemma_least_solution_unique<const N: usize>(
    start: Seq<usize>,
    a: Seq<usize>,
    b: Seq<usize>,
)
    requires
        least_solution::<N>(start, a),
        least_solution::<N>(start, b),
    ensures
        a == b,
{
    assert(not_after(a, b));
    assert(not_after(b, a));
    if a != b {
        let k1 = choose|k: int| 0 <= k < a.len() && #[trigger] agree_before(a, b, k) && a[k] < b[k];
        let k2 = choose|k: int| 0 <= k < b.len() && #[trigger] agree_before(b, a, k) && b[k] < a[k];
        if k1 < k2 {
            assert(b[k1] == a[k1]);
        } else if k2 < k1 {
            assert(a[k2] == b[k2]);
        }
    }
}

/// A completion of a board without empty cells is that board.
pub proof fn lemma_complete_board_solves_itself<const N: usize>(start: Seq<usize>)
    requires
        valid_cells::<N>(start),
        complete(start),
    ensures
        least_solution::<N>(start, start),
{
    assert forall|d: Seq<usize>| #[trigger] solves::<N>(start, d) implies not_after(start, d) by {
        assert forall|j: int| 0 <= j < start.len() implies start[j] == d[j] by {
            assert(start[j] != 0);
            assert(d[j] == start[j]);
        }
        assert(start =~= d);
    }
}

/// What comes first among the completions of the board with the least
/// workable value in its first empty cell comes first among the completions of
/// the board.
pub proof fn lemma_least_lifts<const N: usize>(start: Seq<usize>, p: int, v: usize, done: Seq<usize>)
    requires
        0 <= p < start.len(),
        start[p] == 0,
        v != 0,
        forall|q: int| 0 <= q < p ==> start[q] != 0,
        solves::<N>(start, done),
        least_solution::<N>(start.update(p, v), done),
        forall|d: Seq<usize>| #[trigger] solves::<N>(start, d) ==> d[p] >= v,
    ensures
        least_solution::<N>(start, done),
{
    let cur = start.update(p, v);
    assert(done[p] == cur[p]);
    assert forall|d: Seq<usize>| #[trigger] solves::<N>(start, d) implies not_after(done, d) by {
        if d[p] == v {
            lemma_solution_descends::<N>(start, p, v, d);
        } else {
            assert forall|j: int| 0 <= j < p implies done[j] == d[j] by {
                assert(start[j] != 0);
                assert(done[j] == start[j]);
                assert(d[j] == start[j]);
            }
            assert(agree_before(done, d, p));
        }
    }
}

/// A board that started empty, had the boxes of its diagonal filled with no
/// value twice in a box, and was then completed, is a valid grid.
pub proof fn lemma_generated_grid_valid<const N: usize>(start: Seq<usize>, mid: Seq<usize>, done: Seq<usize>)
    requires
        fits::<N>(),
        valid_cells::<N>(start),
        forall|p: int| 0 <= p < start.len() ==> start[p] == 0,
        diag_seeded::<N>(start, mid, N as int),
        solves::<N>(mid, done),
    ensures
        complete(done),
        grid_valid::<N>(done),
{
    assert forall|p: int| 0 <= p < done.len() implies #[trigger] free_of_conflict::<N>(done, p) by {
        assert forall|q: int| 0 <= q < done.len() && #[trigger] peers::<N>(p, q) implies done[q]
            != done[p] by {
            if mid[p] == 0 {
                assert(free_of_conflict::<N>(done, p));
            } else if mid[q] == 0 {
                assert(free_of_conflict::<N>(done, q));
                assert(peers::<N>(q, p));
            } else {
                assert(on_diagonal::<N>(p, N as int));
                assert(on_diagonal::<N>(q, N as int));
                assert(same_box::<N>(p, q));
                assert(alone_in_box::<N>(mid, p));
                assert(done[p] == mid[p]);
                assert(done[q] == mid[q]);
            }
        }
    }
}

impl<const N: usize> Board<N> {
    /// Writes `values` into the box in row `b_i.0` and column `b_i.1` of boxes,
    /// both counted from one, in the box's order.
    pub fn seed_box_with(&mut self, b_i: (usize, usize), values: &Vec<usize>)
        requires
            old(self).wf(),
            1 <= b_i.0 <= N,
            1 <= b_i.1 <= N,
            values@.len() == side::<N>(),
            forall|x: int| 0 <= x < side::<N>() ==> 1 <= #[trigger] values@[x] <= side::<N>(),
        ensures
            final(self).wf(),
            final(self)@ == seeded(
                old(self)@,
                Segment::<N>::Minor((b_i.0 - 1) as usize, (b_i.1 - 1) as usize),
                values@,
            ),
    {
        let seg: Segment<N> = Segment::Minor(b_i.0 - 1, b_i.1 - 1);
        let m = side_len::<N>();
        let mut x: usize = 0;
        while x < m
            invariant
                self.wf(),
                seg.wf(),
                m == side::<N>(),
                x <= m,
                values@.len() == m,
                old(self)@.len() == cells::<N>(),
                forall|y: int| 0 <= y < m ==> 1 <= #[trigger] values@[y] <= m,
                forall|p: int|
                    0 <= p < cells::<N>() ==> #[trigger] self@[p] == (if seg.contains(p)
                        && seg.position(p) < x {
                        values@[seg.position(p)]
                    } else {
                        old(self)@[p]
                    }),
            decreases m - x,
        {
            let p = seg.offset_at(x);
            proof {
                assert forall|q: int|
                    0 <= q < cells::<N>() && seg.contains(q) && seg.position(q) == x implies q
                    == p by {
                    lemma_segment_reaches(seg, q);
                }
            }
            self.base[p] = values[x];
            x += 1;
        }
        proof {
            assert forall|p: int| 0 <= p < cells::<N>() && seg.contains(p) implies seg.position(p)
                < m by {
                lemma_segment_reaches(seg, p);
            }
            assert(self@ =~= seeded(old(self)@, seg, values@));
        }
    }

    /// Fills the box in row `b_i.0` and column `b_i.1` of boxes, both counted
    /// from one, with the values from one to the side in a random order.
    pub fn seed_box(&mut self, b_i: (usize, usize))
        requires
            old(self).wf(),
            1 <= b_i.0 <= N,
            1 <= b_i.1 <= N,
        ensures
            final(self).wf(),
            exists|vals: Seq<usize>|
                is_shuffle(vals, side::<N>()) && final(self)@ == #[trigger] seeded(
                    old(self)@,
                    Segment::<N>::Minor((b_i.0 - 1) as usize, (b_i.1 - 1) as usize),
                    vals,
                ),
    {
        let values = shuffle_range::<N>();
        proof {
            lemma_dims::<N>();
            lemma_shuffle_facts(values@, side::<N>());
        }
        self.seed_box_with(b_i, &values);
    }

    /// Completes the board by exhaustive depth-first search: the first empty
    /// cell in linear order takes the smallest value that no cell of its row,
    /// column or box holds and with which the rest can be completed. Where no
    /// value will do, the board is left as it was.
    pub fn recursive_backtrace_solver(&mut self) -> (solved: bool)
        requires
            old(self).wf(),
        ensures
            final(self).wf(),
            solved ==> least_solution::<N>(old(self)@, final(self)@),
            !solved ==> final(self)@ == old(self)@ && forall|d: Seq<usize>|
                !#[trigger] solves::<N>(old(self)@, d),
        decreases count_empty(old(self)@, old(self)@.len() as int),
    {
        let ghost start = self@;
        let index = match self.next_unassigned() {
            None => {
                proof {
                    lemma_complete_board_solves_itself::<N>(start);
                }
                return true;
            },
            Some(index) => index,
        };
        let p = index.at();
        let m = side_len::<N>();
        proof {
            lemma_dims::<N>();
        }
        let mut v: usize = 1;
        while v <= m
            invariant
                self.wf(),
                self@ == start,
                start == old(self)@,
                index.wf(),
                p == index.offset(),
                p < cells::<N>(),
                start[p as int] == 0,
                forall|q: int| 0 <= q < p ==> start[q] != 0,
                m == side::<N>(),
                m < usize::MAX,
                1 <= v <= m + 1,
                forall|d: Seq<usize>| #[trigger] solves::<N>(start, d) ==> d[p as int] >= v,
            decreases m + 1 - v,
        {
            if self.valid_value_placement(index, v) {
                self.base[p] = v;
                proof {
                    lemma_fill_decreases(start, p as int, v, start.len() as int);
                    assert(self@ == start.update(p as int, v));
                }
                if self.recursive_backtrace_solver() {
                    proof {
                        lemma_solution_lifts::<N>(start, p as int, v, self@);
                        lemma_least_lifts::<N>(start, p as int, v, self@);
                    }
                    return true;
                }
                self.base[p] = 0;
                proof {
                    assert(self@ =~= start);
                    assert forall|d: Seq<usize>| #[trigger] solves::<N>(start, d) implies d[p as int]
                        >= v + 1 by {
                        if d[p as int] == v {
                            lemma_solution_descends::<N>(start, p as int, v, d);
                        }
                    }
                }
            } else {
                proof {
                    assert forall|d: Seq<usize>| #[trigger] solves::<N>(start, d) implies d[p as int]
                        >= v + 1 by {
                        if d[p as int] == v {
                            lemma_placement_blocked::<N>(start, p as int, v, d);
                        }
                    }
                }
            }
            v += 1;
        }
        proof {
            assert forall|d: Seq<usize>| !#[trigger] solves::<N>(start, d) by {
                if solves::<N>(start, d) {
                    assert(d[p as int] <= m);
                }
            }
        }
        false
    }

    /// Completes the board, or reports that nothing completes it and leaves it
    /// as it was.
    pub fn solve_grid(&mut self) -> (r: Result<(), SudokuErr<N>>)
        requires
            old(self).wf(),
        ensures
            final(self).wf(),
            r is Ok ==> least_solution::<N>(old(self)@, final(self)@),
            r is Err ==> r == Err::<(), SudokuErr<N>>(SudokuErr::Unsolvable) && final(self)@ == old(self)@ && forall|d: Seq<usize>| !#[trigger] solves::<N>(old(self)@, d),
    {
        if self.recursive_backtrace_solver() {
            Ok(())
        } else {
            Err(SudokuErr::Unsolvable)
        }
    }

    /// Fills the boxes of the diagonal with shuffled values, which cannot
    /// contradict one another, and then completes the board by search. Where
    /// the search finds nothing, the board is left with the boxes filled.
    pub fn generate_grid(&mut self) -> (r: Result<(), SudokuErr<N>>)
        requires
            old(self).wf(),
        ensures
            final(self).wf(),
            exists|mid: Seq<usize>|
                {
                    &&& #[trigger] diag_seeded::<N>(old(self)@, mid, N as int)
                    &&& r is Ok ==> least_solution::<N>(mid, final(self)@)
                    &&& r is Err ==> r == Err::<(), SudokuErr<N>>(SudokuErr::Unsolvable) && final(self)@ == mid && forall|d: Seq<usize>| !#[trigger] solves::<N>(mid, d)
                },
    {
        let mut i: usize = 1;
        proof {
            lemma_dims::<N>();
        }
        while i <= N
            invariant
                self.wf(),
                1 <= i <= N + 1,
                N < usize::MAX,
                diag_seeded::<N>(old(self)@, self@, i - 1),
            decreases N + 1 - i,
        {
            let ghost before = self@;
            self.seed_box((i, i));
            proof {
                let seg = Segment::<N>::Minor((i - 1) as usize, (i - 1) as usize);
                let vals = choose|vals: Seq<usize>|
                    is_shuffle(vals, side::<N>()) && self@ == #[trigger] seeded(before, seg, vals);
                lemma_seed_extends_diagonal::<N>(old(self)@, before, vals, i - 1);
            }
            i += 1;
        }
        let ghost mid = self@;
        let r = self.solve_grid();
        proof {
            assert(diag_seeded::<N>(old(self)@, mid, N as int));
        }
        r
    }
}

/// Filling the next box of the diagonal with an arrangement of the values
/// keeps the boxes before it and adds this one.
pub proof fn lemma_seed_extends_diagonal<const N: usize>(
    start: Seq<usize>,
    before: Seq<usize>,
    vals: Seq<usize>,
    d: int,
)
    requires
        fits::<N>(),
        0 <= d < N,
        diag_seeded::<N>(start, before, d),
        is_shuffle(vals, side::<N>()),
    ensures
        diag_seeded::<N>(
            start,
            seeded(before, Segment::<N>::Minor(d as usize, d as usize), vals),
            d + 1,
        ),
{
    lemma_dims::<N>();
    lemma_shuffle_facts(vals, side::<N>());
    let seg = Segment::<N>::Minor(d as usize, d as usize);
    let after = seeded(before, seg, vals);
    assert forall|p: int| 0 <= p < after.len() implies #[trigger] after[p] <= side::<N>() by {
        if seg.contains(p) {
            lemma_segment_reaches(seg, p);
        }
    }
    assert forall|p: int| 0 <= p < after.len() implies if #[trigger] on_diagonal::<N>(p, d + 1) {
        after[p] != 0 && alone_in_box::<N>(after, p)
    } else {
        after[p] == start[p]
    } by {
        if seg.contains(p) {
            lemma_segment_reaches(seg, p);
            assert(on_diagonal::<N>(p, d + 1));
            assert forall|q: int|
                0 <= q < after.len() && q != p && #[trigger] same_box::<N>(p, q) implies after[q]
                != after[p] by {
                assert(seg.contains(q));
                lemma_segment_reaches(seg, q);
            }
        } else {
            assert(after[p] == before[p]);
            if on_diagonal::<N>(p, d + 1) {
                assert(on_diagonal::<N>(p, d));
                assert(alone_in_box::<N>(before, p));
                assert forall|q: int|
                    0 <= q < after.len() && q != p && #[trigger] same_box::<N>(p, q) implies after[q]
                    != after[p] by {
                    assert(!seg.contains(q));
                }
            } else {
                assert(!on_diagonal::<N>(p, d));
            }
        }
    }
}

} // verus!
