use sudoku_engine::board::Board;
use sudoku_engine::cells::{Cell, CellOptions, CellState};
use sudoku_engine::index::new_index;
use sudoku_engine::render::push_decimal;
use sudoku_engine::text::parse_str_into_grid;

#[test]
fn delimited_grid_parses_to_a_flat_sequence() {
    let csv = "1,2,3,4;3,4,1,2;2,1,4,3;4,3,2,1;";
    let flat = parse_str_into_grid(csv).unwrap();
    assert_eq!(flat, vec![1, 2, 3, 4, 3, 4, 1, 2, 2, 1, 4, 3, 4, 3, 2, 1]);
    let b = Board::<2>::new_from(flat).unwrap();
    assert!(b.is_valid_layout());
}

#[test]
fn parsed_grid_with_an_altered_cell_fails_the_layout() {
    let flat = parse_str_into_grid("2,2,3,4;3,4,1,2;2,1,4,3;4,3,2,1;").unwrap();
    let b = Board::<2>::new_from(flat).unwrap();
    assert!(!b.is_valid_layout());
}

#[test]
fn blank_pieces_and_white_space_are_passed_over() {
    assert_eq!(parse_str_into_grid(""), Some(vec![]));
    assert_eq!(parse_str_into_grid(" ;;, ,\t;"), Some(vec![]));
    assert_eq!(parse_str_into_grid("  7 , 8\n;\n 9 ,;"), Some(vec![7, 8, 9]));
    assert_eq!(parse_str_into_grid("1;2,3"), Some(vec![1, 2, 3]));
    assert_eq!(parse_str_into_grid("\u{a0}4\u{3000},\u{2003}5"), Some(vec![4, 5]));
    assert_eq!(parse_str_into_grid("+6,007,0"), Some(vec![6, 7, 0]));
}

#[test]
fn a_piece_that_is_no_number_spoils_the_text() {
    assert_eq!(parse_str_into_grid("1,x,3"), None);
    assert_eq!(parse_str_into_grid("1,-2,3"), None);
    assert_eq!(parse_str_into_grid("1,2 3"), None);
    assert_eq!(parse_str_into_grid("+"), None);
    assert_eq!(parse_str_into_grid("1,++2"), None);
    assert_eq!(parse_str_into_grid("1.5"), None);
    assert_eq!(parse_str_into_grid("\u{0663}"), None);
}

#[test]
fn numbers_are_read_up_to_the_machine_word() {
    let max = usize::MAX.to_string();
    assert_eq!(parse_str_into_grid(&max), Some(vec![usize::MAX]));
    let over = format!("{}0", max);
    assert_eq!(parse_str_into_grid(&over), None);
    let next = format!("{}{}", &max[..max.len() - 1], "9");
    if next != max {
        assert_eq!(parse_str_into_grid(&next), None);
    }
    assert_eq!(parse_str_into_grid("99999999999999999999999999999999999999999"), None);
}

#[test]
fn parser_agrees_with_the_standard_reading_of_each_piece() {
    let texts = ["12", " 12 ", "+12", "0012", "1 2", "", "-", "+", "12a", "٣", "1_000", "18446744073709551616"];
    for t in texts {
        let expected: Option<Vec<usize>> = if t.trim().is_empty() {
            Some(vec![])
        } else {
            t.trim().parse::<usize>().ok().map(|v| vec![v])
        };
        assert_eq!(parse_str_into_grid(t), expected);
    }
}

#[test]
fn decimal_digits_of_numbers() {
    for v in [0usize, 1, 9, 10, 11, 99, 100, 12345, 1000000, usize::MAX] {
        let mut out = String::from("x");
        push_decimal(&mut out, v);
        assert_eq!(out, format!("x{}", v));
    }
}

#[test]
fn test_board_display() {
    assert_eq!(Board::<1>::empty().display(), ".");
    assert_eq!(Board::<2>::empty().display(), "................");
    let mut b = Board::<3>::empty();
    (1..=9).for_each(|i| {
        let ind = new_index::<3>(i, 1);
        b.set(ind, i);
    });
    println!("{}", b.display());
    assert_eq!(
        b.display(),
        [
            "1........",
            "2........",
            "3........",
            "4........",
            "5........",
            "6........",
            "7........",
            "8........",
            "9........",
        ]
        .concat()
    );
    assert_eq!(b.next_unassigned(), Some(new_index::<3>(1, 2)));
    assert_eq!(b.is_valid_grid(), None);
}

#[test]
fn board_display_writes_values_of_several_digits() {
    let mut b = Board::<4>::empty();
    b.set(new_index::<4>(1, 1), 16);
    b.set(new_index::<4>(1, 3), 10);
    b.set(new_index::<4>(16, 16), 7);
    let text = b.display();
    assert!(text.starts_with("16.10."));
    assert!(text.ends_with("..7"));
    assert_eq!(text.len(), 256 + 2);
}

#[test]
fn options_display_lists_the_candidates() {
    let mut co = CellOptions::<2>::new(true);
    assert_eq!(co.display(), "[1,2,3,4]");
    co.eliminate(1);
    co.eliminate(3);
    assert_eq!(co.display(), "[2,4]");
    co.eliminate(2);
    assert_eq!(co.display(), "[4]");
    co.eliminate(4);
    assert_eq!(co.display(), "[]");
    assert_eq!(CellOptions::<4>::new(true).display(), "[1,2,3,4,5,6,7,8,9,10,11,12,13,14,15,16]");
}

#[test]
fn state_display_tells_open_from_settled() {
    let mut st = CellState::<4>::new();
    assert_eq!(st.display(), "<16>");
    st.eliminate(5);
    assert_eq!(st.display(), "<15>");
    assert_eq!(CellState::<4>::Fixed(Cell { value: 12 }).display(), "=12=");
    assert_eq!(CellState::<2>::Fixed(Cell { value: 3 }).display(), "=3=");
}

#[test]
fn options_index_reads_one_candidate() {
    let mut co = CellOptions::<2>::new(true);
    co.eliminate(2);
    assert!(*co.index(1));
    assert!(!*co.index(2));
    assert!(*co.index(4));
}

#[test]
fn white_space_is_what_trimming_removes() {
    for c in '\0'..=char::MAX {
        let expected = if c.is_whitespace() || c == ';' || c == ',' {
            Some(vec![])
        } else if let Some(d) = c.to_digit(10).filter(|_| c.is_ascii()) {
            Some(vec![d as usize])
        } else {
            None
        };
        let mut text = String::new();
        text.push(c);
        assert_eq!(parse_str_into_grid(&text), expected, "{:?}", c);
    }
}
