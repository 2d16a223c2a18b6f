use sudoku::{OptionVector, Position, Sudoku, SudokuError};

const CLASSIC: &str =
    "53..7....6..195....98....6.8...6...34..8.3..17...2...6.6....28....419..5....8..79";
const CLASSIC_SOLVED: &str =
    "534678912672195348198342567859761423426853791713924856961537284287419635345286179";

fn at(row: usize, col: usize) -> Position {
    Position { row, col }
}

fn blank() -> String {
    ".".repeat(81)
}

fn with(text: &str, changes: &[(usize, usize, char)]) -> String {
    let mut chars: Vec<char> = text.chars().collect();
    for &(row, col, c) in changes {
        chars[9 * row + col] = c;
    }
    chars.into_iter().collect()
}

#[test]
fn text_round_trips() {
    for text in [CLASSIC, CLASSIC_SOLVED, blank().as_str()] {
        let board = Sudoku::create_from_string(text).unwrap();
        assert_eq!(board.to_string(), text);
    }
}

#[test]
fn digits_give_solved_cells_and_blanks_open_ones() {
    let board = Sudoku::create_from_string(CLASSIC).unwrap();
    let given = board.cell(0);
    assert!(given.is_solved());
    assert_eq!(given.value(), 5);
    assert_eq!(given.option(0), 0);
    let open = board.cell(2);
    assert!(!open.is_solved());
    for k in 0..9 {
        assert_eq!(open.option(k), k + 1);
    }
    assert!(open.same(&OptionVector::new_unsolved([1, 2, 3, 4, 5, 6, 7, 8, 9])));
}

#[test]
fn value_at_reads_row_major() {
    let board = Sudoku::create_from_string(CLASSIC).unwrap();
    assert_eq!(board.value_at(&at(0, 0)), 5);
    assert_eq!(board.value_at(&at(0, 1)), 3);
    assert_eq!(board.value_at(&at(0, 2)), 0);
    assert_eq!(board.value_at(&at(1, 0)), 6);
    assert_eq!(board.value_at(&at(1, 3)), 1);
    assert_eq!(board.value_at(&at(8, 8)), 9);
}

#[test]
fn short_text_is_malformed() {
    let text = &CLASSIC[..80];
    assert_eq!(Sudoku::create_from_string(text).unwrap_err(), SudokuError::MalformedPuzzle);
}

#[test]
fn long_text_is_malformed() {
    let text = format!("{}.", CLASSIC);
    assert_eq!(Sudoku::create_from_string(&text).unwrap_err(), SudokuError::MalformedPuzzle);
}

#[test]
fn empty_text_is_malformed() {
    assert_eq!(Sudoku::create_from_string("").unwrap_err(), SudokuError::MalformedPuzzle);
}

#[test]
fn letter_is_malformed() {
    let text = with(CLASSIC, &[(4, 4, 'x')]);
    assert_eq!(Sudoku::create_from_string(&text).unwrap_err(), SudokuError::MalformedPuzzle);
}

#[test]
fn zero_and_other_blank_markers_are_malformed() {
    for c in ['0', ' ', '_', '*', '\u{ff11}'] {
        let text = with(CLASSIC, &[(0, 2, c)]);
        assert_eq!(Sudoku::create_from_string(&text).unwrap_err(), SudokuError::MalformedPuzzle);
    }
}

#[test]
fn length_is_counted_in_characters() {
    let text = with(CLASSIC, &[(0, 2, '\u{e9}')]);
    assert_eq!(text.chars().count(), 81);
    assert_eq!(Sudoku::create_from_string(&text).unwrap_err(), SudokuError::MalformedPuzzle);
}

#[test]
fn partial_board_without_duplicates_is_valid() {
    let board = Sudoku::create_from_string(CLASSIC).unwrap();
    assert!(board.is_valid());
    assert!(!board.is_complete());
    assert!(!board.is_solved());
    assert!(Sudoku::create_from_string(&blank()).unwrap().is_valid());
}

#[test]
fn duplicate_in_a_row_is_invalid() {
    let text = with(&blank(), &[(4, 0, '7'), (4, 8, '7')]);
    assert!(!Sudoku::create_from_string(&text).unwrap().is_valid());
}

#[test]
fn duplicate_in_a_column_is_invalid() {
    let text = with(&blank(), &[(0, 5, '2'), (8, 5, '2')]);
    assert!(!Sudoku::create_from_string(&text).unwrap().is_valid());
}

#[test]
fn duplicate_in_a_box_is_invalid() {
    let text = with(&blank(), &[(3, 6, '9'), (5, 8, '9')]);
    assert!(!Sudoku::create_from_string(&text).unwrap().is_valid());
}

#[test]
fn equal_digits_in_different_units_are_valid() {
    let text = with(&blank(), &[(0, 0, '4'), (1, 3, '4'), (3, 1, '4'), (8, 8, '4')]);
    assert!(Sudoku::create_from_string(&text).unwrap().is_valid());
}

#[test]
fn complete_valid_board_is_solved() {
    let board = Sudoku::create_from_string(CLASSIC_SOLVED).unwrap();
    assert!(board.is_complete());
    assert!(board.is_valid());
    assert!(board.is_solved());
    assert_eq!(board.first_open(), None);
}

#[test]
fn complete_board_with_a_duplicate_is_not_solved() {
    let text = with(CLASSIC_SOLVED, &[(0, 0, '3')]);
    let board = Sudoku::create_from_string(&text).unwrap();
    assert!(board.is_complete());
    assert!(!board.is_valid());
    assert!(!board.is_solved());
}

#[test]
fn first_open_is_the_first_blank_in_row_major_order() {
    assert_eq!(Sudoku::create_from_string(CLASSIC).unwrap().first_open(), Some(2));
    assert_eq!(Sudoku::create_from_string(&blank()).unwrap().first_open(), Some(0));
    let text = with(CLASSIC_SOLVED, &[(7, 3, '.'), (8, 0, '.')]);
    assert_eq!(Sudoku::create_from_string(&text).unwrap().first_open(), Some(66));
}

#[test]
fn check_row_looks_at_the_row_only() {
    let board = Sudoku::create_from_string(CLASSIC).unwrap();
    assert!(!board.check_row(5, &at(0, 2)));
    assert!(!board.check_row(7, &at(0, 2)));
    assert!(board.check_row(9, &at(0, 2)));
    assert!(board.check_row(6, &at(0, 2)));
    assert!(board.check_row(0, &at(0, 2)));
}

#[test]
fn check_col_looks_at_the_column_only() {
    let board = Sudoku::create_from_string(CLASSIC).unwrap();
    assert!(!board.check_col(8, &at(0, 2)));
    assert!(board.check_col(5, &at(0, 2)));
    assert!(board.check_col(0, &at(0, 2)));
}

#[test]
fn check_sub_area_looks_at_the_box_only() {
    let board = Sudoku::create_from_string(CLASSIC).unwrap();
    assert!(!board.check_sub_area(9, &at(0, 2)));
    assert!(!board.check_sub_area(6, &at(0, 2)));
    assert!(board.check_sub_area(7, &at(0, 2)));
    assert!(board.check_sub_area(1, &at(2, 0)));
    assert!(!board.check_sub_area(2, &at(7, 6)));
    assert!(board.check_sub_area(0, &at(0, 2)));
}

#[test]
fn checks_refuse_every_digit_in_a_unit_with_a_duplicate() {
    let text = with(&blank(), &[(4, 0, '7'), (4, 8, '7')]);
    let board = Sudoku::create_from_string(&text).unwrap();
    for value in 1..=9 {
        assert!(!board.check_row(value, &at(4, 4)));
        assert!(!board.validate_option(value, at(4, 4)));
    }
    assert!(board.check_row(0, &at(4, 4)));
    assert!(board.check_row(3, &at(5, 4)));
    assert!(board.check_col(3, &at(4, 4)));
    assert!(board.check_sub_area(3, &at(4, 4)));
}

#[test]
fn validate_option_asks_row_column_and_box() {
    let board = Sudoku::create_from_string(CLASSIC).unwrap();
    let pos = at(0, 2);
    let legal: Vec<usize> = (1..=9).filter(|&v| board.validate_option(v, pos)).collect();
    assert_eq!(legal, vec![1, 2, 4]);
    let pos = at(4, 4);
    let legal: Vec<usize> = (1..=9).filter(|&v| board.validate_option(v, pos)).collect();
    assert_eq!(legal, vec![5]);
    assert!(board.validate_option(0, pos));
}

#[test]
fn validate_option_refuses_a_solved_cell() {
    let board = Sudoku::create_from_string(CLASSIC).unwrap();
    for value in 0..=9 {
        assert!(!board.validate_option(value, at(0, 0)));
    }
}

#[test]
fn put_replaces_one_cell() {
    let mut board = Sudoku::create_from_string(CLASSIC).unwrap();
    board.put(2, OptionVector::new_solved(4));
    assert_eq!(board.to_string(), with(CLASSIC, &[(0, 2, '4')]));
    assert!(board.cell(2).same(&OptionVector::new_solved(4)));
    assert!(board.cell(3).same(&OptionVector::new_unsolved([1, 2, 3, 4, 5, 6, 7, 8, 9])));
}

#[test]
fn boards_are_equal_when_their_digits_are() {
    let fresh = Sudoku::create_from_string(CLASSIC).unwrap();
    let mut pruned = fresh;
    pruned.put(2, OptionVector::new_unsolved([1, 2, 4, 0, 0, 0, 0, 0, 0]));
    assert!(fresh == pruned);
    assert!(!fresh.same(&pruned));
    assert!(fresh.same(&fresh));
    let mut other = fresh;
    other.put(2, OptionVector::new_solved(4));
    assert!(fresh != other);
    assert!(!fresh.same(&other));
}

#[test]
fn a_legal_digit_keeps_the_board_valid_and_an_illegal_one_does_not() {
    let board = Sudoku::create_from_string(CLASSIC).unwrap();
    for row in 0..9 {
        for col in 0..9 {
            if board.value_at(&at(row, col)) != 0 {
                continue;
            }
            for value in 1..=9 {
                let mut next = board;
                next.put(9 * row + col, OptionVector::new_solved(value));
                assert_eq!(board.validate_option(value, at(row, col)), next.is_valid());
            }
        }
    }
}
