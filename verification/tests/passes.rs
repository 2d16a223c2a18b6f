use sudoku::{OptionVector, Sudoku, SudokuError};

const CLASSIC: &str =
    "53..7....6..195....98....6.8...6...34..8.3..17...2...6.6....28....419..5....8..79";
const CLASSIC_AFTER_ONE_PASS: &str =
    "53..7....6..195....98....6.8...6...34..853..17..92...6.6..37284...419.35....8..79";
const CLASSIC_SOLVED: &str =
    "534678912672195348198342567859761423426853791713924856961537284287419635345286179";
const SPARSE: &str =
    "6....894.9....61...7..4....2..61..........2...89..2.......6...5.......3.8....16..";
const LATE: &str =
    ".3456789.........1..........23456789.............................................";
const LATE_AFTER_ONE_PASS: &str =
    ".34567892........1.........123456789.............................................";

fn candidates(cell: &OptionVector) -> Vec<usize> {
    let mut out = Vec::new();
    let mut k = 0;
    while cell.option(k) != 0 {
        out.push(cell.option(k));
        k += 1;
    }
    out
}

fn lone_one() -> String {
    format!("1{}", ".".repeat(80))
}

fn doubled_five() -> String {
    format!("55{}", ".".repeat(79))
}

#[test]
fn one_pass_settles_the_forced_cells() {
    let mut board = Sudoku::create_from_string(CLASSIC).unwrap();
    assert_eq!(board.solve(), Ok(()));
    assert_eq!(board.to_string(), CLASSIC_AFTER_ONE_PASS);
}

#[test]
fn one_pass_strikes_candidates_in_row_column_and_box() {
    let mut board = Sudoku::create_from_string(&lone_one()).unwrap();
    assert_eq!(board.solve(), Ok(()));
    assert_eq!(board.to_string(), lone_one());
    let pruned = vec![2, 3, 4, 5, 6, 7, 8, 9];
    let full = vec![1, 2, 3, 4, 5, 6, 7, 8, 9];
    assert_eq!(candidates(&board.cell(1)), pruned);
    assert_eq!(candidates(&board.cell(8)), pruned);
    assert_eq!(candidates(&board.cell(9)), pruned);
    assert_eq!(candidates(&board.cell(72)), pruned);
    assert_eq!(candidates(&board.cell(10)), pruned);
    assert_eq!(candidates(&board.cell(20)), pruned);
    assert_eq!(candidates(&board.cell(12)), full);
    assert_eq!(candidates(&board.cell(30)), full);
    assert_eq!(candidates(&board.cell(80)), full);
}

#[test]
fn one_pass_uses_the_digits_it_has_just_placed() {
    let text = format!("12345678.{}", ".".repeat(72));
    let mut board = Sudoku::create_from_string(&text).unwrap();
    assert_eq!(board.solve(), Ok(()));
    assert_eq!(board.value_at(&sudoku::Position { row: 0, col: 8 }), 9);
    assert_eq!(candidates(&board.cell(17)), vec![1, 2, 3, 4, 5, 6]);
    assert_eq!(candidates(&board.cell(80)), vec![1, 2, 3, 4, 5, 6, 7, 8]);
}

#[test]
fn one_pass_reports_a_contradiction() {
    let mut board = Sudoku::create_from_string(&doubled_five()).unwrap();
    let before = board;
    assert_eq!(board.solve(), Err(SudokuError::UnsolvableCell));
    assert!(board.same(&before));
}

#[test]
fn one_pass_keeps_what_it_did_before_the_contradiction() {
    let text = format!("{}7{}7", ".".repeat(72), ".".repeat(7));
    let mut board = Sudoku::create_from_string(&text).unwrap();
    assert_eq!(board.solve(), Err(SudokuError::UnsolvableCell));
    assert_eq!(board.to_string(), text);
    let pruned = vec![1, 2, 3, 4, 5, 6, 8, 9];
    let full = vec![1, 2, 3, 4, 5, 6, 7, 8, 9];
    assert_eq!(candidates(&board.cell(0)), pruned);
    assert_eq!(candidates(&board.cell(8)), pruned);
    assert_eq!(candidates(&board.cell(54)), pruned);
    assert_eq!(candidates(&board.cell(71)), pruned);
    assert_eq!(candidates(&board.cell(1)), full);
    assert_eq!(candidates(&board.cell(57)), full);
    assert_eq!(candidates(&board.cell(73)), full);
    assert_eq!(candidates(&board.cell(74)), full);
}

#[test]
fn propagate_solves_a_puzzle_of_forced_cells() {
    let mut board = Sudoku::create_from_string(CLASSIC).unwrap();
    assert_eq!(board.propagate(), Ok(()));
    assert_eq!(board.to_string(), CLASSIC_SOLVED);
    assert!(board.is_complete() && board.is_valid());
}

#[test]
fn propagate_stalls_where_nothing_is_forced() {
    let mut board = Sudoku::create_from_string(SPARSE).unwrap();
    assert_eq!(board.propagate(), Ok(()));
    assert_eq!(board.to_string(), SPARSE);
    assert!(!board.is_complete());
    assert_eq!(candidates(&board.cell(1)), vec![1, 2, 3, 5]);
}

#[test]
fn propagate_reports_a_contradiction() {
    let mut board = Sudoku::create_from_string(&doubled_five()).unwrap();
    assert_eq!(board.propagate(), Err(SudokuError::UnsolvableCell));
}

#[test]
fn propagate_reports_a_contradiction_that_shows_late() {
    let mut board = Sudoku::create_from_string(LATE).unwrap();
    assert_eq!(board.solve(), Ok(()));
    assert_eq!(board.to_string(), LATE_AFTER_ONE_PASS);
    assert_eq!(candidates(&board.cell(0)), vec![1, 2]);
    assert_eq!(board.solve(), Err(SudokuError::UnsolvableCell));
    let mut board = Sudoku::create_from_string(LATE).unwrap();
    assert_eq!(board.propagate(), Err(SudokuError::UnsolvableCell));
    assert_eq!(board.to_string(), LATE_AFTER_ONE_PASS);
}

#[test]
fn a_pass_on_a_fixed_point_changes_nothing() {
    for text in [CLASSIC, SPARSE, lone_one().as_str()] {
        let mut board = Sudoku::create_from_string(text).unwrap();
        assert_eq!(board.propagate(), Ok(()));
        let settled = board;
        assert_eq!(board.solve(), Ok(()));
        assert!(board.same(&settled));
        assert_eq!(board.propagate(), Ok(()));
        assert!(board.same(&settled));
    }
}

#[test]
fn passes_keep_a_valid_board_valid_and_its_givens_in_place() {
    for text in [CLASSIC, SPARSE, LATE] {
        let mut board = Sudoku::create_from_string(text).unwrap();
        assert!(board.is_valid());
        let _ = board.solve();
        assert!(board.is_valid());
        let _ = board.propagate();
        assert!(board.is_valid());
        for (given, digit) in text.chars().zip(board.to_string().chars()) {
            assert!(given == '.' || given == digit);
        }
    }
}

#[test]
fn text_of_a_board_keeps_its_digits_and_drops_its_candidates() {
    let mut board = Sudoku::create_from_string(SPARSE).unwrap();
    assert_eq!(board.propagate(), Ok(()));
    let read_back = Sudoku::create_from_string(&board.to_string()).unwrap();
    assert!(read_back == board);
    assert!(!read_back.same(&board));
    assert_eq!(read_back.to_string(), board.to_string());
}
