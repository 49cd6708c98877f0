//! Dimensions derived from the box size `N`, and the arithmetic facts about
//! them that the remaining modules lean on.

use vstd::prelude::*;
use vstd::arithmetic::div_mod::lemma_fundamental_div_mod_converse;

verus! {

/// The side `N * N` of the grid: the number of cells in a row, a column or a box,
/// and the largest value a cell can hold.
pub open spec fn side<const N: usize>() -> int {
    N * N
}

/// The number `N * N * N * N` of cells on the board.
pub open spec fn cells<const N: usize>() -> int {
    N * N * N * N
}

/// The box size is positive and the cell count fits in a `usize`.
pub open spec fn fits<const N: usize>() -> bool {
    1 <= N && cells::<N>() <= usize::MAX
}

/// The row of the cell at linear offset `p`.
pub open spec fn row_of<const N: usize>(p: int) -> int {
    p / side::<N>()
}

/// The column of the cell at linear offset `p`.
pub open spec fn col_of<const N: usize>(p: int) -> int {
    p % side::<N>()
}

/// The linear offset of the cell at row `r`, column `c`.
pub open spec fn offset_of<const N: usize>(r: int, c: int) -> int {
    side::<N>() * r + c
}

/// With `fits`, the side is positive, at least `N`, and its square is the cell count.
pub proof fn lemma_dims<const N: usize>()
    requires
        fits::<N>(),
    ensures
        1 <= N <= side::<N>() <= cells::<N>() <= usize::MAX,
        cells::<N>() == side::<N>() * side::<N>(),
        3 * side::<N>() <= usize::MAX,
        side::<N>() + 1 <= usize::MAX,
{
    let n = N as int;
    assert(n <= n * n) by (nonlinear_arith)
        requires
            1 <= n,
    ;
    assert(n * n * n * n == (n * n) * (n * n)) by (nonlinear_arith);
    assert(n * n <= (n * n) * (n * n)) by (nonlinear_arith)
        requires
            1 <= n,
    ;
    if n >= 2 {
        assert(4 * (n * n) <= (n * n) * (n * n)) by (nonlinear_arith)
            requires
                2 <= n,
        ;
    } else {
        assert(n * n == 1) by (nonlinear_arith)
            requires
                n == 1,
        ;
    }
}

/// Two digits below `n` make a number below `n * n`, from which division and
/// remainder by `n` read the digits back.
pub proof fn lemma_pair(n: int, a: int, b: int)
    requires
        1 <= n,
        0 <= a < n,
        0 <= b < n,
    ensures
        0 <= a * n + b < n * n,
        0 <= n * a + b < n * n,
        (a * n + b) / n == a,
        (a * n + b) % n == b,
        (n * a + b) / n == a,
        (n * a + b) % n == b,
{
    assert(a * n + b < n * n && 0 <= a * n && a * n == n * a) by (nonlinear_arith)
        requires
            0 <= a < n,
            0 <= b < n,
    ;
    lemma_fundamental_div_mod_converse(a * n + b, n, a, b);
}

/// A number below `n * n` has two digits below `n`.
pub proof fn lemma_unpair(n: int, x: int)
    requires
        1 <= n,
        0 <= x < n * n,
    ensures
        0 <= x / n < n,
        0 <= x % n < n,
        (x / n) * n + x % n == x,
        n * (x / n) + x % n == x,
{
    assert(0 <= x / n < n && 0 <= x % n < n && n * (x / n) + x % n == x && (x / n) * n == n * (x
        / n)) by (nonlinear_arith)
        requires
            0 <= x < n * n,
            n >= 1,
    ;
}

/// A row and a column inside the grid name a cell on the board, and the cell's
/// row and column are the ones it was named by.
pub proof fn lemma_offset_coords<const N: usize>(r: int, c: int)
    requires
        1 <= N,
        0 <= r < side::<N>(),
        0 <= c < side::<N>(),
    ensures
        0 <= offset_of::<N>(r, c) < cells::<N>(),
        row_of::<N>(offset_of::<N>(r, c)) == r,
        col_of::<N>(offset_of::<N>(r, c)) == c,
{
    let m = side::<N>();
    let n = N as int;
    assert(n * n * n * n == (n * n) * (n * n)) by (nonlinear_arith);
    assert(m * r + c < m * m && 0 <= m * r) by (nonlinear_arith)
        requires
            0 <= r < m,
            0 <= c < m,
    ;
    assert(m * r == r * m) by (nonlinear_arith);
    lemma_fundamental_div_mod_converse(m * r + c, m, r, c);
}

/// A cell on the board lies in a row and a column inside the grid, and is the
/// cell that they name.
pub proof fn lemma_coords_offset<const N: usize>(p: int)
    requires
        1 <= N,
        0 <= p < cells::<N>(),
    ensures
        0 <= row_of::<N>(p) < side::<N>(),
        0 <= col_of::<N>(p) < side::<N>(),
        offset_of::<N>(row_of::<N>(p), col_of::<N>(p)) == p,
{
    let m = side::<N>();
    let n = N as int;
    assert(n * n * n * n == (n * n) * (n * n)) by (nonlinear_arith);
    assert(m >= 1) by (nonlinear_arith)
        requires
            m == n * n,
            1 <= n,
    ;
    assert(0 <= p / m < m && 0 <= p % m < m && m * (p / m) + p % m == p) by (nonlinear_arith)
        requires
            0 <= p < m * m,
            m >= 1,
    ;
}

/// The side `N * N`, computed.
pub fn side_len<const N: usize>() -> (m: usize)
    requires
        fits::<N>(),
    ensures
        m == side::<N>(),
        1 <= m,
{
    proof {
        lemma_dims::<N>();
    }
    N * N
}

/// The cell count `N * N * N * N`, computed.
pub fn cell_count<const N: usize>() -> (k: usize)
    requires
        fits::<N>(),
    ensures
        k == cells::<N>(),
        1 <= k,
{
    proof {
        lemma_dims::<N>();
    }
    let m: usize = N * N;
    m * m
}

} // verus!
