use sudoku_engine::cells::{board_index, board_value, unwrap, Cell, CellOptions, CellState};
use sudoku_engine::error::SudokuErr;
use sudoku_engine::index::Index;
use sudoku_engine::propagate::BoardOptions;

#[test]
fn board_value_accepts_one_to_side() {
    assert!(matches!(board_value::<3>(1), Ok(1)));
    assert!(matches!(board_value::<3>(9), Ok(9)));
    assert!(matches!(board_value::<3>(0), Err(SudokuErr::InvalidBoardValue(0))));
    assert!(matches!(board_value::<3>(10), Err(SudokuErr::InvalidBoardValue(10))));
    assert!(matches!(board_value::<2>(5), Err(SudokuErr::InvalidBoardValue(5))));
}

#[test]
fn board_index_needs_both_coordinates() {
    assert!(matches!(board_index::<3>(1, 9), Ok((1, 9))));
    assert!(matches!(board_index::<3>(0, 9), Err(SudokuErr::InvalidBoardIndex(0, 9))));
    assert!(matches!(board_index::<3>(4, 10), Err(SudokuErr::InvalidBoardIndex(4, 10))));
    assert_eq!(unwrap::<3>(board_index::<3>(2, 7).unwrap()), (2, 7));
}

#[test]
fn cell_holds_a_checked_value() {
    assert_eq!(Cell::<2>::new(4).unwrap(), Cell { value: 4 });
    assert!(matches!(Cell::<2>::new(5), Err(SudokuErr::InvalidBoardValue(5))));
}

#[test]
fn fresh_options_allow_everything_or_nothing() {
    let all = CellOptions::<3>::new(true);
    assert_eq!(all.options, vec![true; 9]);
    assert_eq!(all.count_options(), 9);
    assert_eq!(all.option_values(), vec![1, 2, 3, 4, 5, 6, 7, 8, 9]);
    assert!(!all.implies_fixed());
    let none = CellOptions::<3>::new(false);
    assert_eq!(none.count_options(), 0);
    assert_eq!(none.option_values(), Vec::<usize>::new());
    assert!(!none.implies_fixed());
}

#[test]
fn with_value_leaves_one_candidate() {
    let co = CellOptions::<2>::with_value(3).unwrap();
    assert_eq!(co.options, vec![false, false, true, false]);
    assert!(co.implies_fixed());
    assert!(matches!(co.first_option(), Ok(3)));
    assert!(matches!(CellOptions::<2>::with_value(0), Err(SudokuErr::InvalidBoardValue(0))));
    assert!(matches!(CellOptions::<2>::with_value(5), Err(SudokuErr::InvalidBoardValue(5))));
}

#[test]
fn eliminate_never_fails() {
    let mut co = CellOptions::<2>::new(true);
    co.eliminate(2);
    assert_eq!(co.option_values(), vec![1, 3, 4]);
    co.eliminate(2);
    assert_eq!(co.option_values(), vec![1, 3, 4]);
    co.eliminate(0);
    co.eliminate(5);
    assert_eq!(co.option_values(), vec![1, 3, 4]);
    assert_eq!(co.count_options(), 3);
    assert!(matches!(co.first_option(), Ok(1)));
    co.eliminate(1);
    assert!(matches!(co.first_option(), Ok(3)));
}

#[test]
fn options_turn_into_a_cell_only_when_one_is_left() {
    let mut co = CellOptions::<2>::new(true);
    co.eliminate(1);
    co.eliminate(2);
    match co.clone().try_into() {
        Err(SudokuErr::MultipleCellOptionsForCast(back)) => assert_eq!(back, co),
        _ => panic!("two candidates are left"),
    }
    co.eliminate(4);
    assert!(matches!(co.clone().try_into(), Ok(Cell { value: 3 })));
    co.eliminate(3);
    assert!(matches!(co.clone().try_into(), Err(SudokuErr::Contradiction)));
    assert!(matches!(co.first_option(), Err(SudokuErr::Contradiction)));
}

#[test]
fn state_is_fixed_by_the_last_candidate() {
    let mut st = CellState::<2>::new();
    assert_eq!(st, CellState::Unfixed(CellOptions::<2>::new(true)));
    st.eliminate(1);
    st.eliminate(4);
    let st = st.try_fix().unwrap();
    assert!(matches!(st, CellState::Unfixed(_)));
    let mut st = st;
    st.eliminate(2);
    let st = st.try_fix().unwrap();
    assert_eq!(st, CellState::Fixed(Cell { value: 3 }));
    let mut st = st.try_fix().unwrap();
    assert_eq!(st, CellState::Fixed(Cell { value: 3 }));
    st.eliminate(3);
    assert_eq!(st, CellState::Fixed(Cell { value: 3 }));
    assert!(matches!(st.try_into(), Ok(Cell { value: 3 })));
}

#[test]
fn state_without_candidates_is_a_contradiction() {
    let st = CellState::Unfixed(CellOptions::<2>::new(false));
    assert!(matches!(st.clone().try_fix(), Err(SudokuErr::Contradiction)));
    assert!(matches!(st.try_into(), Err(SudokuErr::Contradiction)));
    let open = CellState::<2>::new();
    assert!(matches!(open.try_into(), Err(SudokuErr::MultipleCellOptionsForCast(_))));
}

#[test]
fn fixing_a_cell_strikes_its_value_off_the_peers() {
    let mut b = BoardOptions::<2>::new();
    b.fix(Index::RC(1, 1), 3);
    assert_eq!(*b.get(Index::RC(1, 1)), CellState::Fixed(Cell { value: 3 }));
    let struck = CellState::Unfixed(CellOptions { options: vec![true, true, false, true] });
    let open = CellState::<2>::new();
    for p in 0..16 {
        let (r, c) = (p / 4, p % 4);
        if (r, c) == (1, 1) {
            continue;
        }
        let peer = r == 1 || c == 1 || (r / 2 == 0 && c / 2 == 0);
        let expected = if peer { &struck } else { &open };
        assert_eq!(b.get(Index::Std(p)), expected);
    }
    b.fix(Index::RC(0, 1), 1);
    assert_eq!(*b.get(Index::RC(1, 1)), CellState::Fixed(Cell { value: 3 }));
    assert_eq!(
        *b.get(Index::RC(0, 0)),
        CellState::Unfixed(CellOptions { options: vec![false, true, false, true] })
    );
}
