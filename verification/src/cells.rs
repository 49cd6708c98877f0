//! The candidates of a single cell, and the cell's state while candidates are
//! struck off.

use crate::bounded::BoundedValue;
use crate::dims::{fits, side, side_len};
use crate::error::SudokuErr;
use vstd::prelude::*;

verus! {

/// The number of entries among the first `k` of `s` that are set.
pub open spec fn count_set(s: Seq<bool>, k: int) -> int
    decreases k,
{
    if k <= 0 {
        0
    } else {
        count_set(s, k - 1) + (if s[k - 1] {
            1int
        } else {
            0int
        })
    }
}

/// The values `i + 1`, in rising order, of the entries `i` among the first `k`
/// of `s` that are set.
pub open spec fn set_values(s: Seq<bool>, k: int) -> Seq<usize>
    decreases k,
{
    if k <= 0 {
        Seq::empty()
    } else if s[k - 1] {
        set_values(s, k - 1).push(k as usize)
    } else {
        set_values(s, k - 1)
    }
}

/// Whether `v` is a value that a cell of a board of box size `N` can hold.
pub open spec fn is_value<const N: usize>(v: usize) -> bool {
    1 <= v <= side::<N>()
}

/// At most `k` of the first `k` entries are set, and none are exactly when
/// every one of them is clear.
pub proof fn lemma_count_set_bounds(s: Seq<bool>, k: int)
    requires
        0 <= k <= s.len(),
    ensures
        0 <= count_set(s, k) <= k,
        count_set(s, k) == 0 <==> (forall|j: int| 0 <= j < k ==> !s[j]),
    decreases k,
{
    if k > 0 {
        lemma_count_set_bounds(s, k - 1);
    }
}

/// Clearing an entry that is set lowers the count by one; clearing any other
/// entry, or one outside the first `k`, leaves it.
pub proof fn lemma_count_set_clear(s: Seq<bool>, i: int, k: int)
    requires
        0 <= i < s.len(),
        0 <= k <= s.len(),
    ensures
        count_set(s.update(i, false), k) == count_set(s, k) - (if i < k && s[i] {
            1int
        } else {
            0int
        }),
    decreases k,
{
    if k > 0 {
        lemma_count_set_clear(s, i, k - 1);
    }
}

/// Where exactly one of the first `k` entries is set, it is the first that is
/// set and the last.
pub proof fn lemma_count_set_single(s: Seq<bool>, k: int, i: int)
    requires
        0 <= i < k <= s.len(),
        s[i],
        forall|j: int| 0 <= j < i ==> !s[j],
    ensures
        count_set(s, k) == 1 <==> (forall|j: int| i < j < k ==> !s[j]),
    decreases k,
{
    if k - 1 > i {
        lemma_count_set_single(s, k - 1, i);
        lemma_count_set_bounds(s, k - 1);
    } else {
        lemma_count_set_bounds(s, i);
    }
}

/// Checks that `v` is a cell value.
pub fn board_value<const N: usize>(v: usize) -> (r: Result<usize, SudokuErr<N>>)
    requires
        fits::<N>(),
    ensures
        is_value::<N>(v) ==> r == Ok::<usize, SudokuErr<N>>(v),
        !is_value::<N>(v) ==> r == Err::<usize, SudokuErr<N>>(SudokuErr::InvalidBoardValue(v)),
{
    match BoundedValue::construct(1, side_len::<N>(), v) {
        Ok(b) => Ok(b.get()),
        Err(_) => Err(SudokuErr::InvalidBoardValue(v)),
    }
}

/// Checks that `i` and `j`, both counted from one, address a cell.
pub fn board_index<const N: usize>(i: usize, j: usize) -> (r: Result<(usize, usize), SudokuErr<N>>)
    requires
        fits::<N>(),
    ensures
        is_value::<N>(i) && is_value::<N>(j) ==> r == Ok::<(usize, usize), SudokuErr<N>>((i, j)),
        !(is_value::<N>(i) && is_value::<N>(j)) ==> r == Err::<(usize, usize), SudokuErr<N>>(
            SudokuErr::InvalidBoardIndex(i, j),
        ),
{
    match (board_value::<N>(i), board_value::<N>(j)) {
        (Ok(i), Ok(j)) => Ok((i, j)),
        _ => Err(SudokuErr::InvalidBoardIndex(i, j)),
    }
}

/// The row and the column of a checked address, both counted from one.
pub fn unwrap<const N: usize>(b: (usize, usize)) -> (rc: (usize, usize))
    ensures
        rc == b,
{
    let (r, c) = b;
    (r, c)
}

/// A cell that holds a value.
#[derive(Clone, Copy, Debug, PartialEq, Eq)]
pub struct Cell<const N: usize> {
    pub value: usize,
}

impl<const N: usize> Cell<N> {
    /// The value is one that a cell can hold.
    pub open spec fn wf(self) -> bool {
        is_value::<N>(self.value)
    }

    /// A cell that holds `value`, if that is a cell value.
    pub fn new(value: usize) -> (r: Result<Self, SudokuErr<N>>)
        requires
            fits::<N>(),
        ensures
            is_value::<N>(value) ==> r == Ok::<Self, SudokuErr<N>>((Cell { value })),
            !is_value::<N>(value) ==> r == Err::<Self, SudokuErr<N>>(
                SudokuErr::InvalidBoardValue(value),
            ),
    {
        match board_value::<N>(value) {
            Ok(value) => Ok(Cell { value }),
            Err(e) => Err(e),
        }
    }
}

/// The candidates of a cell: entry `v - 1` says whether `v` is still eligible.
#[derive(Clone, Debug, PartialEq, Eq)]
pub struct CellOptions<const N: usize> {
    pub options: Vec<bool>,
}

impl<const N: usize> View for CellOptions<N> {
    type V = Seq<bool>;

    open spec fn view(&self) -> Seq<bool> {
        self.options@
    }
}

impl<const N: usize> CellOptions<N> {
    /// There is one entry for each cell value.
    pub open spec fn wf(&self) -> bool {
        fits::<N>() && self@.len() == side::<N>()
    }

    /// The number of candidates.
    pub open spec fn count(&self) -> int {
        count_set(self@, self@.len() as int)
    }

    /// Candidates in which every value is eligible, or none is.
    pub fn new(start: bool) -> (co: Self)
        requires
            fits::<N>(),
        ensures
            co.wf(),
            forall|i: int| 0 <= i < side::<N>() ==> co@[i] == start,
    {
        let m = side_len::<N>();
        let mut options: Vec<bool> = Vec::new();
        let mut i: usize = 0;
        while i < m
            invariant
                i <= m,
                options@.len() == i,
                forall|j: int| 0 <= j < i ==> options@[j] == start,
            decreases m - i,
        {
            options.push(start);
            i += 1;
        }
        CellOptions { options }
    }

    /// Whether `index` is still a candidate.
    pub fn index(&self, index: usize) -> (b: &bool)
        requires
            self.wf(),
            is_value::<N>(index),
        ensures
            *b == self@[index - 1],
    {
        &self.options[index - 1]
    }

    /// Candidates in which `v` alone is eligible.
    pub fn with_value(v: usize) -> (r: Result<Self, SudokuErr<N>>)
        requires
            fits::<N>(),
        ensures
            is_value::<N>(v) ==> (r matches Ok(co) && co.wf() && forall|i: int|
                0 <= i < side::<N>() ==> co@[i] == (i == v - 1)),
            !is_value::<N>(v) ==> r == Err::<Self, SudokuErr<N>>(SudokuErr::InvalidBoardValue(v)),
    {
        match board_value::<N>(v) {
            Ok(v) => {
                let mut co = Self::new(false);
                co.options.set(v - 1, true);
                Ok(co)
            },
            Err(e) => Err(e),
        }
    }

    /// Strikes `v` off the candidates. A value that is no candidate, or no cell
    /// value at all, changes nothing.
    pub fn eliminate(&mut self, v: usize)
        requires
            old(self).wf(),
        ensures
            final(self).wf(),
            is_value::<N>(v) ==> final(self)@ == old(self)@.update(v - 1, false),
            !is_value::<N>(v) ==> final(self)@ == old(self)@,
            final(self).count() == old(self).count() - (if is_value::<N>(v) && old(self)@[v - 1] {
                1int
            } else {
                0int
            }),
    {
        if 1 <= v && v <= self.options.len() {
            proof {
                lemma_count_set_clear(self@, v - 1, self@.len() as int);
            }
            self.options.set(v - 1, false);
        }
    }

    /// The number of candidates.
    pub fn count_options(&self) -> (n: usize)
        ensures
            n == self.count(),
    {
        let mut n: usize = 0;
        let mut i: usize = 0;
        while i < self.options.len()
            invariant
                i <= self.options@.len(),
                n == count_set(self@, i as int),
                n <= i,
            decreases self.options@.len() - i,
        {
            if self.options[i] {
                n += 1;
            }
            i += 1;
        }
        n
    }

    /// The candidates, in rising order.
    pub fn option_values(&self) -> (vals: Vec<usize>)
        ensures
            vals@ == set_values(self@, self@.len() as int),
    {
        let mut vals: Vec<usize> = Vec::new();
        let mut i: usize = 0;
        while i < self.options.len()
            invariant
                i <= self.options@.len(),
                vals@ == set_values(self@, i as int),
            decreases self.options@.len() - i,
        {
            if self.options[i] {
                vals.push(i + 1);
            }
            i += 1;
        }
        vals
    }

    /// Whether exactly one candidate is left.
    pub fn implies_fixed(&self) -> (b: bool)
        ensures
            b == (self.count() == 1),
    {
        self.count_options() == 1
    }

    /// The smallest candidate; none is left exactly when this is refused.
    pub fn first_option(&self) -> (r: Result<usize, SudokuErr<N>>)
        ensures
            self.count() > 0 ==> (r matches Ok(v) && 1 <= v <= self@.len() && self@[v - 1]
                && forall|j: int| 0 <= j < v - 1 ==> !self@[j]),
            self.count() == 0 ==> r == Err::<usize, SudokuErr<N>>(SudokuErr::Contradiction),
    {
        proof {
            lemma_count_set_bounds(self@, self@.len() as int);
        }
        let mut i: usize = 0;
        while i < self.options.len()
            invariant
                i <= self.options@.len(),
                forall|j: int| 0 <= j < i ==> !self@[j],
            decreases self.options@.len() - i,
        {
            if self.options[i] {
                proof {
                    lemma_count_set_bounds(self@, self@.len() as int);
                }
                return Ok(i + 1);
            }
            i += 1;
        }
        Err(SudokuErr::Contradiction)
    }

    /// The cell that the candidates determine: with one candidate the cell that
    /// holds it, with none a contradiction, with several a refusal that hands
    /// the candidates back.
    pub fn try_into(self) -> (r: Result<Cell<N>, SudokuErr<N>>)
        requires
            self.wf(),
        ensures
            self.count() == 1 ==> (r matches Ok(c) && c.wf() && self@[c.value - 1] && forall|
                j: int,
            |
                0 <= j < self@.len() && j != c.value - 1 ==> !self@[j]),
            self.count() == 0 ==> r == Err::<Cell<N>, SudokuErr<N>>(SudokuErr::Contradiction),
            self.count() > 1 ==> (r matches Err(SudokuErr::MultipleCellOptionsForCast(co)) && co@
                == self@),
    {
        proof {
            lemma_count_set_bounds(self@, self@.len() as int);
        }
        let n = self.count_options();
        if n == 1 {
            match self.first_option() {
                Ok(value) => {
                    proof {
                        lemma_count_set_single(self@, self@.len() as int, value - 1);
                    }
                    Ok(Cell { value })
                },
                Err(e) => Err(e),
            }
        } else if n == 0 {
            Err(SudokuErr::Contradiction)
        } else {
            Err(SudokuErr::MultipleCellOptionsForCast(self))
        }
    }
}

/// What a cell's state amounts to: its candidates, or its value.
pub enum StateView {
    Unfixed(Seq<bool>),
    Fixed(usize),
}

/// The state of a cell while candidates are struck off: still open, with its
/// candidates, or settled on a value.
#[derive(Clone, Debug, PartialEq, Eq)]
pub enum CellState<const N: usize> {
    Unfixed(CellOptions<N>),
    Fixed(Cell<N>),
}

impl<const N: usize> View for CellState<N> {
    type V = StateView;

    open spec fn view(&self) -> StateView {
        match self {
            CellState::Unfixed(co) => StateView::Unfixed(co@),
            CellState::Fixed(c) => StateView::Fixed(c.value),
        }
    }
}

/// The state view after `v` is struck off: an open cell loses the candidate, a
/// settled cell stays as it is.
pub open spec fn struck<const N: usize>(st: StateView, v: usize) -> StateView {
    match st {
        StateView::Unfixed(s) => if is_value::<N>(v) {
            StateView::Unfixed(s.update(v - 1, false))
        } else {
            st
        },
        StateView::Fixed(_) => st,
    }
}

impl<const N: usize> CellState<N> {
    /// An open cell has one entry for each cell value; a settled cell holds a
    /// cell value.
    pub open spec fn wf(&self) -> bool {
        match self {
            CellState::Unfixed(co) => co.wf(),
            CellState::Fixed(c) => fits::<N>() && c.wf(),
        }
    }

    /// An open cell in which every value is eligible.
    pub fn new() -> (st: Self)
        requires
            fits::<N>(),
        ensures
            st.wf(),
            st@ == StateView::Unfixed(Seq::new(side::<N>() as nat, |i: int| true)),
    {
        let co = CellOptions::<N>::new(true);
        assert(co@ =~= Seq::new(side::<N>() as nat, |i: int| true));
        CellState::Unfixed(co)
    }

    /// Settles an open cell that has exactly one candidate on that candidate.
    /// An open cell with several candidates, and a settled cell, come back as
    /// they are; an open cell with no candidate is a contradiction.
    pub fn try_fix(self) -> (r: Result<Self, SudokuErr<N>>)
        requires
            self.wf(),
        ensures
            r matches Ok(st) ==> st.wf(),
            match self {
                CellState::Fixed(c) => r matches Ok(st) && st@ == self@,
                CellState::Unfixed(co) => {
                    &&& co.count() == 0 ==> r == Err::<Self, SudokuErr<N>>(
                        SudokuErr::Contradiction,
                    )
                    &&& co.count() > 1 ==> (r matches Ok(st) && st@ == self@)
                    &&& co.count() == 1 ==> (r matches Ok(CellState::Fixed(c)) && c.wf()
                        && co@[c.value - 1] && forall|j: int|
                        0 <= j < co@.len() && j != c.value - 1 ==> !co@[j])
                },
            },
    {
        match self {
            CellState::Unfixed(co) => match {
                proof {
                    lemma_count_set_bounds(co@, co@.len() as int);
                }
                co.try_into()
            } {
                Ok(c) => Ok(CellState::Fixed(c)),
                Err(SudokuErr::MultipleCellOptionsForCast(co)) => Ok(CellState::Unfixed(co)),
                Err(e) => Err(e),
            },
            CellState::Fixed(c) => Ok(CellState::Fixed(c)),
        }
    }

    /// Strikes `v` off the candidates of an open cell; a settled cell stays as
    /// it is.
    pub fn eliminate(&mut self, v: usize)
        requires
            old(self).wf(),
        ensures
            final(self).wf(),
            final(self)@ == struck::<N>(old(self)@, v),
    {
        match self {
            CellState::Unfixed(co) => {
                co.eliminate(v);
            },
            CellState::Fixed(_) => {},
        }
    }

    /// The cell that the state determines: the value of a settled cell, or of
    /// an open cell with exactly one candidate.
    pub fn try_into(self) -> (r: Result<Cell<N>, SudokuErr<N>>)
        requires
            self.wf(),
        ensures
            match self {
                CellState::Fixed(c) => r == Ok::<Cell<N>, SudokuErr<N>>(c),
                CellState::Unfixed(co) => {
                    &&& co.count() == 0 ==> r == Err::<Cell<N>, SudokuErr<N>>(
                        SudokuErr::Contradiction,
                    )
                    &&& co.count() > 1 ==> (r matches Err(SudokuErr::MultipleCellOptionsForCast(o))
                        && o@ == co@)
                    &&& co.count() == 1 ==> (r matches Ok(c) && c.wf() && co@[c.value - 1]
                        && forall|j: int| 0 <= j < co@.len() && j != c.value - 1 ==> !co@[j])
                },
            },
    {
        match self.try_fix() {
            Ok(CellState::Fixed(c)) => Ok(c),
            Ok(CellState::Unfixed(co)) => Err(SudokuErr::MultipleCellOptionsForCast(co)),
            Err(e) => Err(e),
        }
    }
}

} // verus!
