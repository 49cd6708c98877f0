//! A board of cell states, on which fixing one cell strikes its value off the
//! candidates of its peers.

use crate::board::peers;
use crate::cells::{is_value, struck, Cell, CellState, StateView};
use crate::dims::{
    cell_count, cells, col_of, fits, lemma_coords_offset, lemma_dims, row_of, side, side_len,
};
use crate::index::Index;
use vstd::prelude::*;

verus! {

/// One cell state for each cell of a board of box size `N`.
#[derive(Debug)]
pub struct BoardOptions<const N: usize> {
    pub board_states: Vec<CellState<N>>,
}

impl<const N: usize> View for BoardOptions<N> {
    type V = Seq<StateView>;

    open spec fn view(&self) -> Seq<StateView> {
        Seq::new(self.board_states@.len(), |p: int| self.board_states@[p]@)
    }
}

impl<const N: usize> BoardOptions<N> {
    /// There is a state for each cell, and each is in order.
    pub open spec fn wf(&self) -> bool {
        &&& fits::<N>()
        &&& self.board_states@.len() == cells::<N>()
        &&& forall|p: int| 0 <= p < self.board_states@.len() ==> (#[trigger] self.board_states@[p]).wf()
    }

    /// The board on which every cell is open and every value eligible.
    pub fn new() -> (b: Self)
        requires
            fits::<N>(),
        ensures
            b.wf(),
            forall|p: int|
                0 <= p < cells::<N>() ==> #[trigger] b@[p] == StateView::Unfixed(
                    Seq::new(side::<N>() as nat, |i: int| true),
                ),
    {
        let k = cell_count::<N>();
        let mut board_states: Vec<CellState<N>> = Vec::new();
        let mut p: usize = 0;
        while p < k
            invariant
                fits::<N>(),
                p <= k,
                board_states@.len() == p,
                forall|q: int| 0 <= q < p ==> (#[trigger] board_states@[q]).wf(),
                forall|q: int|
                    0 <= q < p ==> (#[trigger] board_states@[q])@ == StateView::Unfixed(
                        Seq::new(side::<N>() as nat, |i: int| true),
                    ),
            decreases k - p,
        {
            board_states.push(CellState::new());
            p += 1;
        }
        BoardOptions { board_states }
    }

    /// The state of the addressed cell.
    pub fn get(&self, index: Index<N>) -> (st: &CellState<N>)
        requires
            self.wf(),
            index.wf(),
        ensures
            st@ == self@[index.offset()],
            st.wf(),
    {
        &self.board_states[index.at()]
    }

    /// Settles the addressed cell on `v` and strikes `v` off the candidates of
    /// every other cell of its row, of its column and of its box. Nothing is
    /// searched and nothing taken back: a peer may be left with no candidate.
    pub fn fix(&mut self, index: Index<N>, v: usize)
        requires
            old(self).wf(),
            index.wf(),
            is_value::<N>(v),
        ensures
            final(self).wf(),
            forall|q: int|
                0 <= q < cells::<N>() ==> #[trigger] final(self)@[q] == (if q == index.offset() {
                    StateView::Fixed(v)
                } else if peers::<N>(index.offset(), q) {
                    struck::<N>(old(self)@[q], v)
                } else {
                    old(self)@[q]
                }),
    {
        let p = index.at();
        let m = side_len::<N>();
        let k = cell_count::<N>();
        proof {
            lemma_dims::<N>();
            lemma_coords_offset::<N>(p as int);
        }
        let (rp, cp) = (p / m, p % m);
        let mut q: usize = 0;
        while q < k
            invariant
                self.wf(),
                fits::<N>(),
                is_value::<N>(v),
                old(self)@.len() == cells::<N>(),
                m == side::<N>(),
                k == cells::<N>(),
                p == index.offset(),
                p < k,
                rp == row_of::<N>(p as int),
                cp == col_of::<N>(p as int),
                q <= k,
                forall|x: int|
                    0 <= x < k ==> #[trigger] self@[x] == (if x >= q {
                        old(self)@[x]
                    } else if x == p {
                        StateView::Fixed(v)
                    } else if peers::<N>(p as int, x) {
                        struck::<N>(old(self)@[x], v)
                    } else {
                        old(self)@[x]
                    }),
            decreases k - q,
        {
            proof {
                lemma_coords_offset::<N>(q as int);
            }
            let ghost before = self@;
            let (rq, cq) = (q / m, q % m);
            if q == p {
                self.board_states[q] = CellState::Fixed(Cell { value: v });
            } else if rq == rp || cq == cp || (rq / N == rp / N && cq / N == cp / N) {
                assert(peers::<N>(p as int, q as int));
                self.board_states[q].eliminate(v);
            } else {
                assert(!peers::<N>(p as int, q as int));
            }
            proof {
                assert forall|x: int| 0 <= x < k && x != q implies #[trigger] self@[x]
                    == before[x] by {}
            }
            q += 1;
        }
    }
}

} // verus!
