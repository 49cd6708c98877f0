//! Why a segment that holds every value once adds up to the target sum.

use crate::board::{
    complete, free_of_conflict, grid_valid, layout_ok, lemma_peers_by_segments, peers, seg_sum,
    sums_match, target_sum, valid_cells,
};
use crate::dims::{cells, fits, lemma_dims, lemma_unpair, side};
use crate::segment::{lemma_offset_in_segment, Segment};
use vstd::prelude::*;

verus! {

/// The sum of a sequence of integers.
pub open spec fn total(v: Seq<int>) -> int
    decreases v.len(),
{
    if v.len() == 0 {
        0
    } else {
        total(v.drop_last()) + v.last()
    }
}

/// The sequence without its entry at `j`.
pub open spec fn without(v: Seq<int>, j: int) -> Seq<int> {
    Seq::new(
        (v.len() - 1) as nat,
        |i: int|
            if i < j {
                v[i]
            } else {
                v[i + 1]
            },
    )
}

/// No two entries are alike.
pub open spec fn distinct(v: Seq<int>) -> bool {
    forall|a: int, b: int| 0 <= a < b < v.len() ==> v[a] != v[b]
}

/// Every entry lies from one to `m`.
pub open spec fn within(v: Seq<int>, m: int) -> bool {
    forall|a: int| 0 <= a < v.len() ==> 1 <= #[trigger] v[a] <= m
}

/// What the cells of a segment hold, in the segment's order.
pub open spec fn seg_values<const N: usize>(s: Seq<usize>, seg: Segment<N>) -> Seq<int> {
    Seq::new(side::<N>() as nat, |x: int| s[seg.offset(x)] as int)
}

/// Taking an entry out lowers the sum by that entry.
pub proof fn lemma_total_without(v: Seq<int>, j: int)
    requires
        0 <= j < v.len(),
    ensures
        total(without(v, j)) == total(v) - v[j],
    decreases v.len(),
{
    let w = without(v, j);
    if j == v.len() - 1 {
        assert(w =~= v.drop_last());
    } else {
        lemma_total_without(v.drop_last(), j);
        assert(w.drop_last() =~= without(v.drop_last(), j));
        assert(w.last() == v.last());
    }
}

/// Taking an entry out of a sequence without repetition leaves one without
/// repetition.
pub proof fn lemma_without_distinct(v: Seq<int>, j: int)
    requires
        0 <= j < v.len(),
        distinct(v),
    ensures
        distinct(without(v, j)),
        forall|a: int| 0 <= a < v.len() - 1 ==> #[trigger] without(v, j)[a] != v[j],
{
    let w = without(v, j);
    assert forall|a: int, b: int| 0 <= a < b < w.len() implies w[a] != w[b] by {
        let a2 = if a < j {
            a
        } else {
            a + 1
        };
        let b2 = if b < j {
            b
        } else {
            b + 1
        };
        assert(v[a2] != v[b2]);
    }
    assert forall|a: int| 0 <= a < v.len() - 1 implies #[trigger] w[a] != v[j] by {
        let a2 = if a < j {
            a
        } else {
            a + 1
        };
        if a2 < j {
            assert(v[a2] != v[j]);
        } else {
            assert(v[j] != v[a2]);
        }
    }
}

/// A sequence without repetition whose entries lie from one to `m` has at most
/// `m` entries.
pub proof fn lemma_distinct_len(v: Seq<int>, m: int)
    requires
        0 <= m,
        distinct(v),
        within(v, m),
    ensures
        v.len() <= m,
    decreases m,
{
    if m == 0 {
        if v.len() > 0 {
            assert(1 <= v[0] <= m);
        }
    } else if exists|j: int| 0 <= j < v.len() && v[j] == m {
        let j = choose|j: int| 0 <= j < v.len() && v[j] == m;
        let w = without(v, j);
        lemma_without_distinct(v, j);
        assert forall|a: int| 0 <= a < w.len() implies 1 <= #[trigger] w[a] <= m - 1 by {
            let a2 = if a < j {
                a
            } else {
                a + 1
            };
            assert(1 <= v[a2] <= m);
        }
        lemma_distinct_len(w, m - 1);
    } else {
        assert forall|a: int| 0 <= a < v.len() implies 1 <= #[trigger] v[a] <= m - 1 by {
            assert(1 <= v[a] <= m);
        }
        lemma_distinct_len(v, m - 1);
    }
}

/// A sequence of `n` entries without repetition, each from one to `n`, adds up
/// to the sum of the numbers from one to `n`.
pub proof fn lemma_arrangement_total(v: Seq<int>, n: int)
    requires
        v.len() == n,
        distinct(v),
        within(v, n),
    ensures
        2 * total(v) == n * (n + 1),
    decreases n,
{
    if n > 0 {
        if exists|j: int| 0 <= j < v.len() && v[j] == n {
            let j = choose|j: int| 0 <= j < v.len() && v[j] == n;
            let w = without(v, j);
            lemma_without_distinct(v, j);
            lemma_total_without(v, j);
            assert forall|a: int| 0 <= a < w.len() implies 1 <= #[trigger] w[a] <= n - 1 by {
                let a2 = if a < j {
                    a
                } else {
                    a + 1
                };
                assert(1 <= v[a2] <= n);
            }
            lemma_arrangement_total(w, n - 1);
            assert(2 * total(v) == n * (n + 1)) by (nonlinear_arith)
                requires
                    2 * (total(v) - n) == (n - 1) * n,
            ;
        } else {
            assert forall|a: int| 0 <= a < v.len() implies 1 <= #[trigger] v[a] <= n - 1 by {
                assert(1 <= v[a] <= n);
            }
            lemma_distinct_len(v, n - 1);
        }
    } else {
        assert(n * (n + 1) == 0) by (nonlinear_arith)
            requires
                n == 0,
        ;
    }
}

/// The sum of the first `k` cells of a segment is the sum of the first `k` of
/// its values.
pub proof fn lemma_seg_sum_total<const N: usize>(s: Seq<usize>, seg: Segment<N>, k: int)
    requires
        0 <= k <= side::<N>(),
    ensures
        seg_sum(s, seg, k) == total(seg_values(s, seg).take(k)),
    decreases k,
{
    let vals = seg_values(s, seg);
    if k > 0 {
        lemma_seg_sum_total(s, seg, k - 1);
        assert(vals.take(k).drop_last() =~= vals.take(k - 1));
    }
}

/// In a grid without conflicts and without empty cells, every segment adds up
/// to the target sum.
pub proof fn lemma_segment_of_valid_grid<const N: usize>(s: Seq<usize>, seg: Segment<N>)
    requires
        fits::<N>(),
        valid_cells::<N>(s),
        complete(s),
        grid_valid::<N>(s),
        seg.wf(),
    ensures
        seg_sum(s, seg, side::<N>()) == target_sum::<N>(),
{
    lemma_dims::<N>();
    let m = side::<N>();
    let vals = seg_values(s, seg);
    assert forall|a: int| 0 <= a < vals.len() implies 1 <= #[trigger] vals[a] <= m by {
        lemma_offset_in_segment(seg, a);
        assert(s[seg.offset(a)] != 0);
    }
    assert forall|a: int, b: int| 0 <= a < b < vals.len() implies vals[a] != vals[b] by {
        lemma_offset_in_segment(seg, a);
        lemma_offset_in_segment(seg, b);
        let p = seg.offset(a);
        let q = seg.offset(b);
        lemma_peers_by_segments::<N>(p, q);
        assert(peers::<N>(p, q));
        assert(free_of_conflict::<N>(s, p));
    }
    lemma_arrangement_total(vals, m);
    lemma_seg_sum_total(s, seg, m);
    assert(vals.take(m) =~= vals);
}

/// A complete grid in which no two peers hold the same passes the check of
/// the sums: every row, column and box adds up to the target.
pub proof fn lemma_valid_grid_has_valid_layout<const N: usize>(s: Seq<usize>)
    requires
        fits::<N>(),
        valid_cells::<N>(s),
        complete(s),
        grid_valid::<N>(s),
    ensures
        layout_ok::<N>(s),
{
    lemma_dims::<N>();
    assert forall|i: int| 0 <= i < side::<N>() implies #[trigger] sums_match::<N>(s, i) by {
        lemma_unpair(N as int, i);
        lemma_segment_of_valid_grid(s, Segment::<N>::Row(i as usize));
        lemma_segment_of_valid_grid(s, Segment::<N>::Col(i as usize));
        lemma_segment_of_valid_grid(s, Segment::<N>::minor_number(i));
    }
}

} // verus!
