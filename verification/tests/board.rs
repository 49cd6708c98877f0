use sudoku_engine::array::LengthMismatch;
use sudoku_engine::board::Board;
use sudoku_engine::bounded::OutOfRange;
use sudoku_engine::error::SudokuErr;
use sudoku_engine::index::{new_index, Index};
use sudoku_engine::metadata::{Diagnostics, Metadata};
use sudoku_engine::segment::Segment;

fn four_by_four() -> Vec<usize> {
    vec![1, 2, 3, 4, 3, 4, 1, 2, 2, 1, 4, 3, 4, 3, 2, 1]
}

fn nine_by_nine() -> Vec<usize> {
    vec![
        5, 3, 4, 6, 7, 8, 9, 1, 2, 6, 7, 2, 1, 9, 5, 3, 4, 8, 1, 9, 8, 3, 4, 2, 5, 6, 7, 8, 5, 9,
        7, 6, 1, 4, 2, 3, 4, 2, 6, 8, 5, 3, 7, 9, 1, 7, 1, 3, 9, 2, 4, 8, 5, 6, 9, 6, 1, 5, 3, 7,
        2, 8, 4, 2, 8, 7, 4, 1, 9, 6, 3, 5, 3, 4, 5, 2, 8, 6, 1, 7, 9,
    ]
}

#[test]
fn completed_four_by_four_has_a_valid_layout() {
    let b = Board::<2>::new_from(four_by_four()).unwrap();
    assert_eq!(b.target(), 10);
    assert!(b.is_valid_layout());
    assert_eq!(b.is_valid_grid(), Some(true));
}

#[test]
fn altered_cell_breaks_the_layout() {
    let mut cells = four_by_four();
    cells[0] = 2;
    let b = Board::<2>::new_from(cells).unwrap();
    assert_eq!(b.segment_sum(Segment::Row(0)), 11);
    assert!(!b.is_valid_layout());
    assert_eq!(b.is_valid_grid(), Some(false));
}

#[test]
fn completed_nine_by_nine_has_a_valid_layout() {
    let b = Board::<3>::new_from(nine_by_nine()).unwrap();
    assert_eq!(b.target(), 45);
    assert!(b.is_valid_layout());
    assert_eq!(b.is_valid_grid(), Some(true));
}

#[test]
fn size_one_board_is_valid_when_filled() {
    let b = Board::<1>::new_from(vec![1]).unwrap();
    assert_eq!(b.target(), 1);
    assert!(b.is_valid_layout());
    assert_eq!(b.is_valid_grid(), Some(true));
    assert!(!Board::<1>::empty().is_valid_layout());
}

#[test]
fn sums_alone_do_not_catch_repeated_values() {
    let cells = vec![2, 2, 3, 3, 3, 3, 2, 2, 2, 2, 3, 3, 3, 3, 2, 2];
    let b = Board::<2>::new_from(cells).unwrap();
    assert!(b.is_valid_layout());
    assert_eq!(b.is_valid_grid(), Some(false));
}

#[test]
fn swapped_pair_in_a_row_keeps_sums_of_rows_only() {
    let mut cells = four_by_four();
    cells.swap(0, 1);
    let b = Board::<2>::new_from(cells).unwrap();
    assert_eq!(b.segment_sum(Segment::Row(0)), 10);
    assert_eq!(b.segment_sum(Segment::Minor(0, 0)), 10);
    assert_eq!(b.segment_sum(Segment::Col(0)), 11);
    assert!(!b.is_valid_layout());
}

#[test]
fn new_from_rejects_a_value_outside_one_to_side() {
    let mut cells = four_by_four();
    cells[5] = 5;
    assert!(matches!(
        Board::<2>::new_from(cells),
        Err(SudokuErr::OutOfRange(OutOfRange { value: 5, lo: 1, hi: 4 }))
    ));
    let mut cells = four_by_four();
    cells[15] = 0;
    cells[3] = 9;
    assert!(matches!(
        Board::<2>::new_from(cells),
        Err(SudokuErr::OutOfRange(OutOfRange { value: 9, lo: 1, hi: 4 }))
    ));
    assert!(matches!(
        Board::<2>::new_from(vec![0]),
        Err(SudokuErr::OutOfRange(OutOfRange { value: 0, lo: 1, hi: 4 }))
    ));
}

#[test]
fn new_from_rejects_a_wrong_length() {
    let mut cells = four_by_four();
    cells.pop();
    assert!(matches!(
        Board::<2>::new_from(cells),
        Err(SudokuErr::LengthMismatch(LengthMismatch { produced: 15, expected: 16 }))
    ));
    let mut cells = four_by_four();
    cells.extend_from_slice(&[1, 2, 3]);
    assert!(matches!(
        Board::<2>::new_from(cells),
        Err(SudokuErr::LengthMismatch(LengthMismatch { produced: 17, expected: 16 }))
    ));
    assert!(matches!(
        Board::<3>::new_from(Vec::new()),
        Err(SudokuErr::LengthMismatch(LengthMismatch { produced: 0, expected: 81 }))
    ));
}

#[test]
fn new_keeps_the_cells_it_is_given() {
    let mut cells = four_by_four();
    cells[6] = 0;
    let b = Board::<2>::new(cells.clone());
    assert_eq!(b.base, cells);
    assert_eq!(*b.get(Index::RC(1, 2)), 0);
    assert_eq!(*b.get(Index::Std(7)), 2);
    assert_eq!(b.next_unassigned(), Some(Index::RC(1, 2)));
    assert_eq!(b.is_valid_grid(), None);
}

#[test]
fn get_reads_by_either_form_of_address() {
    let b = Board::<3>::new_from(nine_by_nine()).unwrap();
    assert_eq!(*b.get(Index::from_linear(0).unwrap()), 5);
    assert_eq!(*b.get(Index::rc(4, 4).unwrap()), 5);
    assert_eq!(*b.get(Index::rc(8, 0).unwrap()), 3);
    assert_eq!(*b.get(Index::from_linear(80).unwrap()), 9);
    assert_eq!(*b.get(new_index::<3>(2, 3)), 2);
    assert_eq!(*b.get(new_index::<3>(3, 3)), 8);
}

#[test]
fn set_and_clear_change_cells_in_place() {
    let mut b = Board::<2>::empty();
    assert_eq!(b.base, vec![0; 16]);
    b.set(Index::RC(2, 1), 4);
    assert_eq!(b.base[9], 4);
    assert_eq!(b.base.iter().filter(|&&v| v != 0).count(), 1);
    assert_eq!(b.next_unassigned(), Some(Index::RC(0, 0)));
    b.clear();
    assert_eq!(b.base, vec![0; 16]);
}

#[test]
fn next_unassigned_scans_in_linear_order() {
    let mut b = Board::<3>::empty();
    for i in 1..=9 {
        b.set(new_index::<3>(i, 1), i);
    }
    assert_eq!(b.next_unassigned(), Some(new_index::<3>(1, 2)));
    assert_eq!(b.is_valid_grid(), None);
    let full = Board::<3>::new_from(nine_by_nine()).unwrap();
    assert_eq!(full.next_unassigned(), None);
}

#[test]
fn segment_values_follow_the_order_of_the_segment() {
    let b = Board::<3>::new_from(nine_by_nine()).unwrap();
    assert_eq!(b.segment(Segment::Row(1)), vec![6, 7, 2, 1, 9, 5, 3, 4, 8]);
    assert_eq!(b.segment(Segment::Col(8)), vec![2, 8, 7, 3, 1, 6, 4, 5, 9]);
    assert_eq!(b.segment(Segment::Minor(1, 1)), vec![7, 6, 1, 8, 5, 3, 9, 2, 4]);
    assert_eq!(b.segment(Segment::nth_minor(6)), vec![9, 6, 1, 2, 8, 7, 3, 4, 5]);
    assert_eq!(b.segment_count(Segment::Row(1), 9), 1);
}

#[test]
fn placement_looks_at_row_column_and_box() {
    let mut b = Board::<2>::empty();
    b.set(Index::RC(0, 3), 1);
    b.set(Index::RC(3, 0), 2);
    b.set(Index::RC(1, 1), 3);
    let at = Index::RC(0, 0);
    assert!(b.value_in_row(at, 1));
    assert!(!b.value_in_col(at, 1));
    assert!(!b.value_in_block(at, 1));
    assert!(b.value_in_col(at, 2));
    assert!(!b.value_in_row(at, 2));
    assert!(b.value_in_block(at, 3));
    assert!(!b.valid_value_placement(at, 1));
    assert!(!b.valid_value_placement(at, 2));
    assert!(!b.valid_value_placement(at, 3));
    assert!(b.valid_value_placement(at, 4));
    assert!(b.valid_value_placement(Index::RC(2, 2), 3));
}

#[test]
fn metadata_counts_every_value_per_segment() {
    let mut cells = four_by_four();
    cells[0] = 0;
    let md = Metadata::<2>::new(&Board::<2>::new(cells)).unwrap();
    assert_eq!(md.cnts, vec![9, 10, 10, 10, 9, 10, 10, 10, 9, 10, 10, 10]);
    assert_eq!(md.freqs.len(), 12);
    assert_eq!(md.freqs[0], vec![1, 0, 1, 1, 1]);
    assert_eq!(md.freqs[1], vec![0, 1, 1, 1, 1]);
    assert_eq!(md.freqs[4], vec![1, 0, 1, 1, 1]);
    assert_eq!(md.freqs[8], vec![1, 0, 1, 1, 1]);
    assert_eq!(md.freqs[11], vec![0, 1, 1, 1, 1]);
}

#[test]
fn metadata_shows_repeats_that_the_sums_hide() {
    let cells = vec![2, 2, 3, 3, 3, 3, 2, 2, 2, 2, 3, 3, 3, 3, 2, 2];
    let md = Metadata::<2>::new(&Board::<2>::new(cells)).unwrap();
    assert_eq!(md.cnts, vec![10; 12]);
    assert_eq!(md.freqs[0], vec![0, 0, 2, 2, 0]);
    assert_eq!(md.freqs[8], vec![0, 0, 2, 2, 0]);
}

#[test]
fn diagnostics_count_values_up_to_the_box_size() {
    let d = Diagnostics::<2>::new(&Board::<2>::new(four_by_four())).unwrap();
    assert_eq!(d.cnts, vec![10; 12]);
    assert_eq!(d.freqs.len(), 12);
    assert_eq!(d.freqs[0], vec![0, 1, 1]);
    assert_eq!(d.freqs[7], vec![0, 1, 1]);
    let d = Diagnostics::<3>::new(&Board::<3>::empty()).unwrap();
    assert_eq!(d.cnts, vec![0; 27]);
    assert_eq!(d.freqs[26], vec![9, 0, 0, 0]);
}

fn shifted_grid(n: usize) -> Vec<usize> {
    let m = n * n;
    let mut cells = Vec::new();
    for r in 0..m {
        for c in 0..m {
            cells.push((n * (r % n) + r / n + c) % m + 1);
        }
    }
    cells
}

#[test]
fn valid_grids_of_every_size_pass_both_checks() {
    let b = Board::<2>::new_from(shifted_grid(2)).unwrap();
    assert_eq!(b.is_valid_grid(), Some(true));
    assert!(b.is_valid_layout());
    let b = Board::<3>::new_from(shifted_grid(3)).unwrap();
    assert_eq!(b.is_valid_grid(), Some(true));
    assert!(b.is_valid_layout());
    let b = Board::<4>::new_from(shifted_grid(4)).unwrap();
    assert_eq!(b.target(), 136);
    assert_eq!(b.is_valid_grid(), Some(true));
    assert!(b.is_valid_layout());
    let b = Board::<5>::new_from(shifted_grid(5)).unwrap();
    assert_eq!(b.target(), 325);
    assert_eq!(b.is_valid_grid(), Some(true));
    assert!(b.is_valid_layout());
}

#[test]
fn a_repeat_in_a_box_alone_is_found() {
    let mut cells = shifted_grid(3);
    cells.swap(0, 9 * 3);
    let b = Board::<3>::new_from(cells).unwrap();
    assert_eq!(b.is_valid_grid(), Some(false));
}
