use sudoku::{master_solve, Sudoku};

const CLASSIC: &str =
    "53..7....6..195....98....6.8...6...34..8.3..17...2...6.6....28....419..5....8..79";
const CLASSIC_SOLVED: &str =
    "534678912672195348198342567859761423426853791713924856961537284287419635345286179";
const LOOSE: &str =
    "53.......6..195....98....6.8.......34..8.3..17...2...6.6....28....419..5....8..79";

const SPARSE: &str =
    "6....894.9....61...7..4....2..61..........2...89..2.......6...5.......3.8....16..";
const SPARSE_SOLVED: &str =
    "625178943948326157371945862257619384463587291189432576792863415516294738834751629";

fn texts(boards: &[Sudoku]) -> Vec<String> {
    let mut out: Vec<String> = boards.iter().map(|b| b.to_string()).collect();
    out.sort();
    out
}

#[test]
fn unique_puzzle_has_one_solution() {
    let puzzle = Sudoku::create_from_string(CLASSIC).unwrap();
    let solutions = master_solve(&puzzle);
    assert_eq!(solutions.len(), 1);
    assert!(solutions[0].is_complete() && solutions[0].is_valid());
    assert!(solutions[0].is_solved());
    assert_eq!(solutions[0].to_string(), CLASSIC_SOLVED);
}

#[test]
fn search_leaves_the_puzzle_as_it_was() {
    let puzzle = Sudoku::create_from_string(CLASSIC).unwrap();
    let before = puzzle;
    master_solve(&puzzle);
    assert!(puzzle.same(&before));
}

#[test]
fn loose_puzzle_has_several_distinct_solutions() {
    let puzzle = Sudoku::create_from_string(LOOSE).unwrap();
    let solutions = master_solve(&puzzle);
    assert!(solutions.len() > 1);
    for (i, a) in solutions.iter().enumerate() {
        assert!(a.is_complete() && a.is_valid());
        for b in &solutions[i + 1..] {
            assert!(a != b);
        }
    }
    assert_eq!(
        texts(&solutions),
        vec![
            "534678912672195348198342567826751493459863721713924856961537284287419635345286179",
            "534678912672195348198342567859761423426853791713924856961537284287419635345286179",
            "534768912672195348198342567859671423426853791713924856961537284287419635345286179",
        ]
    );
}

#[test]
fn solutions_repeat_the_givens() {
    let puzzle = Sudoku::create_from_string(LOOSE).unwrap();
    for solution in master_solve(&puzzle) {
        for (given, digit) in LOOSE.chars().zip(solution.to_string().chars()) {
            assert!(given == '.' || given == digit);
        }
    }
}

#[test]
fn puzzle_with_an_interchangeable_rectangle_has_two_solutions() {
    let text = "534..8912672195348198342567859..1423426853791713924856961537284287419635345286179";
    let puzzle = Sudoku::create_from_string(text).unwrap();
    assert_eq!(
        texts(&master_solve(&puzzle)),
        vec![
            "534678912672195348198342567859761423426853791713924856961537284287419635345286179",
            "534768912672195348198342567859671423426853791713924856961537284287419635345286179",
        ]
    );
}

#[test]
fn contradictory_puzzle_has_no_solution() {
    let text = format!("55{}", ".".repeat(79));
    let puzzle = Sudoku::create_from_string(&text).unwrap();
    assert!(master_solve(&puzzle).is_empty());
}

#[test]
fn puzzle_with_a_hidden_contradiction_has_no_solution() {
    let text = ".3456789.........1..........23456789.............................................";
    let puzzle = Sudoku::create_from_string(text).unwrap();
    assert!(master_solve(&puzzle).is_empty());
}

#[test]
fn finished_puzzle_is_its_own_solution() {
    let puzzle = Sudoku::create_from_string(CLASSIC_SOLVED).unwrap();
    let solutions = master_solve(&puzzle);
    assert_eq!(solutions.len(), 1);
    assert!(solutions[0] == puzzle);
}

#[test]
fn full_board_with_a_duplicate_has_no_solution() {
    let mut chars: Vec<char> = CLASSIC_SOLVED.chars().collect();
    chars[0] = '3';
    let text: String = chars.into_iter().collect();
    let puzzle = Sudoku::create_from_string(&text).unwrap();
    assert!(master_solve(&puzzle).is_empty());
}

#[test]
fn search_honours_the_candidates_of_open_cells() {
    let text = "534..8912672195348198342567859..1423426853791713924856961537284287419635345286179";
    let mut puzzle = Sudoku::create_from_string(text).unwrap();
    let mut cell = puzzle.cell(3);
    cell.remove_option(7);
    puzzle.put(3, cell);
    assert_eq!(texts(&master_solve(&puzzle)), vec![CLASSIC_SOLVED.to_string()]);
}

#[test]
fn sparse_puzzle_takes_search_and_has_one_solution() {
    let puzzle = Sudoku::create_from_string(SPARSE).unwrap();
    let mut settled = puzzle;
    assert_eq!(settled.propagate(), Ok(()));
    assert!(!settled.is_complete());
    let solutions = master_solve(&puzzle);
    assert_eq!(solutions.len(), 1);
    assert!(solutions[0].is_complete() && solutions[0].is_valid());
    assert_eq!(solutions[0].to_string(), SPARSE_SOLVED);
}
