use sudoku::{OptionVector, SudokuError};

fn candidates(cell: &OptionVector) -> Vec<usize> {
    let mut out = Vec::new();
    let mut k = 0;
    while cell.option(k) != 0 {
        out.push(cell.option(k));
        k += 1;
    }
    out
}

#[test]
fn solved_cell_holds_its_digit_and_no_candidates() {
    let cell = OptionVector::new_solved(7);
    assert!(cell.is_solved());
    assert_eq!(cell.value(), 7);
    assert_eq!(candidates(&cell), Vec::<usize>::new());
}

#[test]
fn open_cell_lists_its_candidates_in_order() {
    let cell = OptionVector::new_unsolved([1, 2, 3, 4, 5, 6, 7, 8, 9]);
    assert!(!cell.is_solved());
    assert_eq!(cell.value(), 0);
    assert_eq!(candidates(&cell), vec![1, 2, 3, 4, 5, 6, 7, 8, 9]);
    assert_eq!(cell.option(9), 0);
    assert_eq!(cell.option(100), 0);
}

#[test]
fn open_cell_may_list_candidates_in_any_order() {
    let cell = OptionVector::new_unsolved([9, 2, 5, 0, 0, 0, 0, 0, 0]);
    assert_eq!(candidates(&cell), vec![9, 2, 5]);
}

#[test]
fn remove_option_strikes_the_value_and_keeps_the_order() {
    let mut cell = OptionVector::new_unsolved([1, 2, 3, 4, 5, 6, 7, 8, 9]);
    cell.remove_option(4);
    assert_eq!(candidates(&cell), vec![1, 2, 3, 5, 6, 7, 8, 9]);
    cell.remove_option(1);
    assert_eq!(candidates(&cell), vec![2, 3, 5, 6, 7, 8, 9]);
    cell.remove_option(9);
    assert_eq!(candidates(&cell), vec![2, 3, 5, 6, 7, 8]);
    assert!(!cell.is_solved());
}

#[test]
fn remove_option_of_an_absent_value_changes_nothing() {
    let mut cell = OptionVector::new_unsolved([3, 6, 0, 0, 0, 0, 0, 0, 0]);
    let before = cell;
    cell.remove_option(5);
    assert!(cell.same(&before));
    cell.remove_option(0);
    assert!(cell.same(&before));
    cell.remove_option(12);
    assert!(cell.same(&before));
    assert_eq!(candidates(&cell), vec![3, 6]);
}

#[test]
fn remove_option_leaves_a_solved_cell_alone() {
    let mut cell = OptionVector::new_solved(4);
    cell.remove_option(4);
    assert!(cell.is_solved());
    assert_eq!(cell.value(), 4);
}

#[test]
fn remove_option_can_empty_the_list() {
    let mut cell = OptionVector::new_unsolved([8, 0, 0, 0, 0, 0, 0, 0, 0]);
    cell.remove_option(8);
    assert_eq!(candidates(&cell), Vec::<usize>::new());
    assert!(!cell.is_solved());
}

#[test]
fn solve_promotes_a_single_candidate() {
    let mut cell = OptionVector::new_unsolved([6, 0, 0, 0, 0, 0, 0, 0, 0]);
    assert_eq!(cell.solve(), Ok(()));
    assert!(cell.is_solved());
    assert_eq!(cell.value(), 6);
    assert_eq!(candidates(&cell), Vec::<usize>::new());
}

#[test]
fn solve_reports_a_cell_without_candidates() {
    let mut cell = OptionVector::new_unsolved([0; 9]);
    let before = cell;
    assert_eq!(cell.solve(), Err(SudokuError::UnsolvableCell));
    assert!(cell.same(&before));
    assert!(!cell.is_solved());
}

#[test]
fn solve_leaves_a_cell_with_several_candidates_alone() {
    let mut cell = OptionVector::new_unsolved([2, 7, 0, 0, 0, 0, 0, 0, 0]);
    assert_eq!(cell.solve(), Ok(()));
    assert!(!cell.is_solved());
    assert_eq!(candidates(&cell), vec![2, 7]);
}

#[test]
fn solve_leaves_a_solved_cell_alone() {
    let mut cell = OptionVector::new_solved(3);
    assert_eq!(cell.solve(), Ok(()));
    assert_eq!(cell.value(), 3);
}

#[test]
fn set_option_imposes_the_value_and_drops_the_candidates() {
    let mut cell = OptionVector::new_unsolved([2, 5, 9, 0, 0, 0, 0, 0, 0]);
    cell.set_option(5);
    assert!(cell.is_solved());
    assert_eq!(cell.value(), 5);
    assert_eq!(candidates(&cell), Vec::<usize>::new());
    assert!(cell.same(&OptionVector::new_solved(5)));
}

#[test]
fn set_option_leaves_a_solved_cell_alone() {
    let mut cell = OptionVector::new_solved(1);
    cell.set_option(8);
    assert_eq!(cell.value(), 1);
}

#[test]
fn cells_are_equal_when_their_digits_are() {
    let all = OptionVector::new_unsolved([1, 2, 3, 4, 5, 6, 7, 8, 9]);
    let few = OptionVector::new_unsolved([4, 5, 0, 0, 0, 0, 0, 0, 0]);
    assert!(all == few);
    assert!(!all.same(&few));
    assert!(OptionVector::new_solved(2) == OptionVector::new_solved(2));
    assert!(OptionVector::new_solved(2) != OptionVector::new_solved(3));
    assert!(OptionVector::new_solved(2) != all);
}
