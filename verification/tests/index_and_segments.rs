use sudoku_engine::bounded::{index_bound, new_value, BoundedValue, OutOfRange};
use sudoku_engine::index::{destructure, into_index, new_index, Index};
use sudoku_engine::segment::Segment;

#[test]
fn test_index_conversion() {
    assert_eq!(destructure::<3>(into_index::<3>(0)), (0, 0));
    assert_eq!(destructure::<3>(into_index::<3>(9)), (1, 0));
    assert_eq!(destructure::<3>(into_index::<3>(80)), (8, 8));
    assert_eq!(destructure::<2>(into_index::<2>(15)), (3, 3));
}

#[test]
fn bounded_value_accepts_the_range_ends() {
    let lo = BoundedValue::construct(1, 9, 1).unwrap();
    let hi = BoundedValue::construct(1, 9, 9).unwrap();
    assert_eq!(lo.get(), 1);
    assert_eq!(hi.get(), 9);
    assert_eq!((lo.lo(), lo.hi()), (1, 9));
    assert!(lo < hi);
    assert!(!(hi < lo));
    assert!(lo != hi);
    assert!(hi >= lo);
}

#[test]
fn bounded_value_compares_by_value_alone() {
    let a = BoundedValue::construct(0, 9, 4).unwrap();
    let b = BoundedValue::construct(1, 16, 4).unwrap();
    assert!(a == b);
    assert!(!(a < b));
    assert!(a <= b);
    assert_eq!(a.partial_cmp(&b), Some(std::cmp::Ordering::Equal));
    let c = BoundedValue::construct(0, 9, 7).unwrap();
    assert_eq!(b.partial_cmp(&c), Some(std::cmp::Ordering::Less));
    assert_eq!(c.partial_cmp(&b), Some(std::cmp::Ordering::Greater));
}

#[test]
fn cell_values_are_bounded_by_the_side() {
    let v = new_value::<3>(9);
    assert_eq!((v.lo(), v.get(), v.hi()), (1, 9, 9));
    let v = new_value::<2>(1);
    assert_eq!((v.lo(), v.get(), v.hi()), (1, 1, 4));
}

#[test]
fn bounded_value_rejects_what_lies_outside() {
    assert_eq!(
        BoundedValue::construct(1, 9, 0).unwrap_err(),
        OutOfRange { value: 0, lo: 1, hi: 9 }
    );
    assert_eq!(
        BoundedValue::construct(1, 9, 10).unwrap_err(),
        OutOfRange { value: 10, lo: 1, hi: 9 }
    );
    assert!(BoundedValue::construct(5, 4, 4).is_err());
}

#[test]
fn index_bound_checks_against_the_constant() {
    assert_eq!(index_bound::<4>(0), Ok(0));
    assert_eq!(index_bound::<4>(3), Ok(3));
    assert_eq!(index_bound::<4>(4), Ok(4));
    assert_eq!(index_bound::<4>(5), Err(OutOfRange { value: 5, lo: 0, hi: 4 }));
    assert_eq!(index_bound::<0>(1), Err(OutOfRange { value: 1, lo: 0, hi: 0 }));
}

#[test]
fn linear_index_is_checked_against_the_cell_count() {
    assert_eq!(Index::<2>::from_linear(0), Ok(Index::Std(0)));
    assert_eq!(Index::<2>::from_linear(15), Ok(Index::Std(15)));
    assert_eq!(Index::<2>::from_linear(16), Err(OutOfRange { value: 16, lo: 0, hi: 15 }));
    assert_eq!(Index::<3>::from_linear(80), Ok(Index::Std(80)));
    assert_eq!(Index::<3>::from_linear(81), Err(OutOfRange { value: 81, lo: 0, hi: 80 }));
    assert_eq!(Index::<1>::from_linear(1), Err(OutOfRange { value: 1, lo: 0, hi: 0 }));
}

#[test]
fn row_col_index_reports_the_row_first() {
    assert_eq!(Index::<2>::rc(3, 3), Ok(Index::RC(3, 3)));
    assert_eq!(Index::<2>::rc(4, 0), Err(OutOfRange { value: 4, lo: 0, hi: 3 }));
    assert_eq!(Index::<2>::rc(0, 7), Err(OutOfRange { value: 7, lo: 0, hi: 3 }));
    assert_eq!(Index::<2>::rc(9, 7), Err(OutOfRange { value: 9, lo: 0, hi: 3 }));
}

#[test]
fn offset_formula_for_both_forms() {
    assert_eq!(Index::<2>::rc(1, 2).unwrap().at(), 6);
    assert_eq!(Index::<3>::rc(4, 5).unwrap().at(), 41);
    assert_eq!(Index::<3>::rc(8, 8).unwrap().at(), 80);
    assert_eq!(Index::<3>::from_linear(41).unwrap().at(), 41);
    assert_eq!(new_index::<3>(1, 2), Index::RC(0, 1));
    assert_eq!(new_index::<3>(9, 9).at(), 80);
}

#[test]
fn linear_offsets_round_trip_through_row_and_column() {
    for i in 0..16 {
        let (r, c) = destructure::<2>(Index::<2>::from_linear(i).unwrap());
        assert_eq!(Index::<2>::rc(r, c).unwrap().at(), i);
    }
    for i in 0..81 {
        let (r, c) = destructure::<3>(Index::<3>::from_linear(i).unwrap());
        assert_eq!(Index::<3>::rc(r, c).unwrap().at(), i);
    }
    for i in 0..256 {
        let (r, c) = destructure::<4>(Index::<4>::from_linear(i).unwrap());
        assert_eq!(Index::<4>::rc(r, c).unwrap().at(), i);
    }
}

#[test]
fn segments_through_a_cell() {
    assert_eq!(Segment::<3>::row(41), Segment::Row(4));
    assert_eq!(Segment::<3>::col(41), Segment::Col(5));
    assert_eq!(Segment::<3>::minor(41), Segment::Minor(1, 1));
    assert_eq!(Segment::<3>::minor(80), Segment::Minor(2, 2));
    assert_eq!(Segment::<2>::minor(7), Segment::Minor(0, 1));
    assert_eq!(Segment::<2>::nth_minor(2), Segment::Minor(1, 0));
}

#[test]
fn row_offsets_run_left_to_right() {
    assert_eq!(Segment::<2>::Row(1).offsets_vec(), vec![4, 5, 6, 7]);
    assert_eq!(Segment::<3>::Row(8).offsets_vec(), vec![72, 73, 74, 75, 76, 77, 78, 79, 80]);
}

#[test]
fn column_offsets_run_top_to_bottom() {
    assert_eq!(Segment::<2>::Col(2).offsets_vec(), vec![2, 6, 10, 14]);
    assert_eq!(Segment::<3>::Col(0).offsets_vec(), vec![0, 9, 18, 27, 36, 45, 54, 63, 72]);
}

#[test]
fn box_offsets_are_aligned_to_boxes() {
    assert_eq!(Segment::<2>::Minor(0, 0).offsets_vec(), vec![0, 1, 4, 5]);
    assert_eq!(Segment::<2>::Minor(0, 1).offsets_vec(), vec![2, 3, 6, 7]);
    assert_eq!(Segment::<2>::Minor(1, 0).offsets_vec(), vec![8, 9, 12, 13]);
    assert_eq!(Segment::<2>::Minor(1, 1).offsets_vec(), vec![10, 11, 14, 15]);
    assert_eq!(Segment::<3>::Minor(1, 2).offsets_vec(), vec![33, 34, 35, 42, 43, 44, 51, 52, 53]);
    assert_eq!(Segment::<3>::Minor(2, 2).offset_at(8), 80);
    assert_eq!(Segment::<1>::Minor(0, 0).offsets_vec(), vec![0]);
}

#[test]
fn every_cell_lies_in_the_box_around_it() {
    for p in 0..81 {
        assert!(Segment::<3>::minor(p).offsets_vec().contains(&p));
        assert!(Segment::<3>::row(p).offsets_vec().contains(&p));
        assert!(Segment::<3>::col(p).offsets_vec().contains(&p));
    }
    for p in 0..256 {
        assert!(Segment::<4>::minor(p).offsets_vec().contains(&p));
    }
}
