//! The board: eighty-one cells in row-major order, and the checks on its rows, columns and
//! boxes.
use crate::cell::{lemma_spells_unique, spells, CellView, OptionVector};
use crate::error::SudokuError;
use crate::grid::{
    board_digits, board_wf, box_of, col_of, digits_seen, grid_complete, grid_shape, grid_valid,
    legal, row_of, unit_allows, unit_clean, unit_admits, unit_view,
};
use crate::text::{
    all_digits, digits_text, fresh_board, glyph_digit, glyph_value, is_puzzle_text, text_digits,
    value_glyph,
};
use vstd::prelude::*;
use vstd::string::{StrSliceExecFns, StringExecFns};

verus! {

/// A place on the board: row and column, each counted from 0.
#[derive(Clone, Copy, Debug)]
pub struct Position {
    pub row: usize,
    pub col: usize,
}

/// A Sudoku board.
#[derive(Clone, Copy, Debug)]
pub struct Sudoku {
    board: [OptionVector; 81],
}

impl View for Sudoku {
    type V = Seq<CellView>;

    closed spec fn view(&self) -> Seq<CellView> {
        Seq::new(81, |p: int| self.board[p]@)
    }
}

impl Sudoku {
    /// Every cell of the board is well formed.
    pub closed spec fn wf(&self) -> bool {
        forall|p: int| 0 <= p < 81 ==> (#[trigger] self.board[p]).wf()
    }

    /// The digits the board holds, with 0 for each open cell.
    pub open spec fn digits(&self) -> Seq<nat> {
        board_digits(self@)
    }

    /// A well-formed board describes eighty-one well-formed cells, and its digits form a grid.
    pub proof fn lemma_wf_view(&self)
        requires
            self.wf(),
        ensures
            board_wf(self@),
            grid_shape(self.digits()),
    {
        assert forall|p: int| 0 <= p < 81 implies (#[trigger] self@[p]).wf() by {
            self.board[p].lemma_wf_view();
        }
        assert forall|p: int| 0 <= p < 81 implies #[trigger] self.digits()[p] <= 9 by {
            assert(self@[p].wf());
        }
    }

    /// The cell at place `p`.
    pub fn cell(&self, p: usize) -> (c: OptionVector)
        requires
            self.wf(),
            p < 81,
        ensures
            c.wf(),
            c@ == self@[p as int],
    {
        self.board[p]
    }

    /// Puts `c` at place `p`.
    pub fn put(&mut self, p: usize, c: OptionVector)
        requires
            old(self).wf(),
            c.wf(),
            p < 81,
        ensures
            final(self).wf(),
            final(self)@ == old(self)@.update(p as int, c@),
    {
        self.board[p] = c;
    }

    /// The digit at `pos`, or 0 if the cell there is open.
    pub fn value_at(&self, pos: &Position) -> (d: usize)
        requires
            self.wf(),
            pos.row < 9,
            pos.col < 9,
        ensures
            d == self.digits()[9 * pos.row + pos.col],
            d <= 9,
    {
        proof {
            self.lemma_wf_view();
        }
        self.board[pos.row * 9 + pos.col].value()
    }

    /// The digits of row `row`, left to right.
    fn row_digits(&self, row: usize) -> (u: [usize; 9])
        requires
            self.wf(),
            row < 9,
        ensures
            unit_view(u) == row_of(self.digits(), row as int),
            forall|k: int| 0 <= k < 9 ==> u[k] <= 9,
    {
        let mut u = [0usize;9];
        let mut k: usize = 0;
        while k < 9
            invariant
                k <= 9,
                row < 9,
                self.wf(),
                forall|i: int| 0 <= i < k ==> u[i] == self.digits()[9 * row + i],
                forall|i: int| 0 <= i < 9 ==> u[i] <= 9,
            decreases 9 - k,
        {
            u[k] = self.value_at(&Position { row: row, col: k });
            k += 1;
        }
        u
    }

    /// The digits of column `col`, top to bottom.
    fn col_digits(&self, col: usize) -> (u: [usize; 9])
        requires
            self.wf(),
            col < 9,
        ensures
            unit_view(u) == col_of(self.digits(), col as int),
            forall|k: int| 0 <= k < 9 ==> u[k] <= 9,
    {
        let mut u = [0usize;9];
        let mut k: usize = 0;
        while k < 9
            invariant
                k <= 9,
                col < 9,
                self.wf(),
                forall|i: int| 0 <= i < k ==> u[i] == self.digits()[9 * i + col],
                forall|i: int| 0 <= i < 9 ==> u[i] <= 9,
            decreases 9 - k,
        {
            u[k] = self.value_at(&Position { row: k, col: col });
            k += 1;
        }
        u
    }

    /// The digits of the box in band `band` and stack `stack`, row by row.
    fn box_digits(&self, band: usize, stack: usize) -> (u: [usize; 9])
        requires
            self.wf(),
            band < 3,
            stack < 3,
        ensures
            unit_view(u) == box_of(self.digits(), band as int, stack as int),
            forall|k: int| 0 <= k < 9 ==> u[k] <= 9,
    {
        let mut u = [0usize;9];
        let row = band * 3;
        let col = stack * 3;
        let mut i: usize = 0;
        while i < 3
            invariant
                i <= 3,
                band < 3,
                stack < 3,
                row == band * 3,
                col == stack * 3,
                self.wf(),
                forall|k: int|
                    0 <= k < 3 * i ==> u[k] == self.digits()[9 * (3 * band + k / 3) + 3 * stack + k
                        % 3],
                forall|k: int| 0 <= k < 9 ==> u[k] <= 9,
            decreases 3 - i,
        {
            let mut j: usize = 0;
            while j < 3
                invariant
                    i < 3,
                    j <= 3,
                    band < 3,
                    stack < 3,
                    row == band * 3,
                    col == stack * 3,
                    self.wf(),
                    forall|k: int|
                        0 <= k < 3 * i + j ==> u[k] == self.digits()[9 * (3 * band + k / 3) + 3
                            * stack + k % 3],
                    forall|k: int| 0 <= k < 9 ==> u[k] <= 9,
                decreases 3 - j,
            {
                u[3 * i + j] = self.value_at(&Position { row: row + i, col: col + j });
                j += 1;
            }
            i += 1;
        }
        u
    }

    /// Whether the box that holds `pos` leaves room for `value`.
    pub fn check_sub_area(&self, value: usize, pos: &Position) -> (r: bool)
        requires
            self.wf(),
            value <= 9,
            pos.row < 9,
            pos.col < 9,
        ensures
            r == unit_admits(
                box_of(self.digits(), pos.row as int / 3, pos.col as int / 3),
                value as nat,
            ),
    {
        let u = self.box_digits(pos.row / 3, pos.col / 3);
        unit_allows(&u, value)
    }

    /// Whether the row of `pos` leaves room for `value`.
    pub fn check_row(&self, value: usize, pos: &Position) -> (r: bool)
        requires
            self.wf(),
            value <= 9,
            pos.row < 9,
        ensures
            r == unit_admits(row_of(self.digits(), pos.row as int), value as nat),
    {
        let u = self.row_digits(pos.row);
        unit_allows(&u, value)
    }

    /// Whether the column of `pos` leaves room for `value`.
    pub fn check_col(&self, value: usize, pos: &Position) -> (r: bool)
        requires
            self.wf(),
            value <= 9,
            pos.col < 9,
        ensures
            r == unit_admits(col_of(self.digits(), pos.col as int), value as nat),
    {
        let u = self.col_digits(pos.col);
        unit_allows(&u, value)
    }

    /// Whether `value` may be placed at `pos`: the cell there is open, and its row, its
    /// column and its box each leave room for `value`.
    pub fn validate_option(&self, value: usize, pos: Position) -> (r: bool)
        requires
            self.wf(),
            value <= 9,
            pos.row < 9,
            pos.col < 9,
        ensures
            r == legal(self.digits(), value as nat, pos.row as int, pos.col as int),
    {
        if self.value_at(&pos) != 0 {
            return false;
        }
        self.check_row(value, &pos) && self.check_col(value, &pos) && self.check_sub_area(
            value,
            &pos,
        )
    }

    /// Whether every cell holds a digit.
    pub fn is_complete(&self) -> (r: bool)
        ensures
            r == grid_complete(self.digits()),
    {
        let mut p: usize = 0;
        while p < 81
            invariant
                p <= 81,
                forall|q: int| 0 <= q < p ==> self.digits()[q] != 0,
            decreases 81 - p,
        {
            if !self.board[p].is_solved() {
                assert(self.digits()[p as int] == 0);
                return false;
            }
            p += 1;
        }
        true
    }

    /// Whether no row, column or box holds a digit twice. Open cells are ignored, so a board
    /// need not be complete to be valid.
    pub fn is_valid(&self) -> (r: bool)
        requires
            self.wf(),
        ensures
            r == grid_valid(self.digits()),
    {
        let mut i: usize = 0;
        while i < 9
            invariant
                i <= 9,
                self.wf(),
                forall|r: int| 0 <= r < i ==> unit_clean(#[trigger] row_of(self.digits(), r)),
                forall|c: int| 0 <= c < i ==> unit_clean(#[trigger] col_of(self.digits(), c)),
            decreases 9 - i,
        {
            let row = self.row_digits(i);
            if digits_seen(&row).is_none() {
                return false;
            }
            let col = self.col_digits(i);
            if digits_seen(&col).is_none() {
                return false;
            }
            i += 1;
        }
        let mut b: usize = 0;
        while b < 9
            invariant
                b <= 9,
                self.wf(),
                forall|br: int, bc: int|
                    0 <= br < 3 && 0 <= bc < 3 && 3 * br + bc < b ==> unit_clean(
                        #[trigger] box_of(self.digits(), br, bc),
                    ),
            decreases 9 - b,
        {
            let u = self.box_digits(b / 3, b % 3);
            if digits_seen(&u).is_none() {
                return false;
            }
            b += 1;
        }
        true
    }

    /// The place of the first open cell in row-major order, or `None` if every cell holds a
    /// digit.
    pub fn first_open(&self) -> (r: Option<usize>)
        ensures
            match r {
                Some(q) => {
                    &&& q < 81
                    &&& self@[q as int].digit == 0
                    &&& forall|p: int| 0 <= p < q ==> (#[trigger] self@[p]).digit != 0
                },
                None => grid_complete(self.digits()),
            },
    {
        let mut p: usize = 0;
        while p < 81
            invariant
                p <= 81,
                forall|q: int| 0 <= q < p ==> (#[trigger] self@[q]).digit != 0,
            decreases 81 - p,
        {
            if !self.board[p].is_solved() {
                return Some(p);
            }
            p += 1;
        }
        None
    }

    /// Whether the puzzle is finished: every cell holds a digit, and no row, column or box
    /// holds a digit twice.
    pub fn is_solved(&self) -> (r: bool)
        requires
            self.wf(),
        ensures
            r == (grid_complete(self.digits()) && grid_valid(self.digits())),
    {
        self.is_complete() && self.is_valid()
    }

    /// Reads a puzzle from its text: eighty-one characters in row-major order, `1` to `9` for
    /// the digits and `.` for a blank. A digit gives a cell that holds it, a blank an open cell
    /// with every digit as a candidate. Any other text is malformed.
    pub fn create_from_string(string: &str) -> (r: Result<Sudoku, SudokuError>)
        ensures
            match r {
                Ok(sudoku) => {
                    &&& is_puzzle_text(string@)
                    &&& sudoku.wf()
                    &&& sudoku@ == fresh_board(text_digits(string@))
                },
                Err(e) => !is_puzzle_text(string@) && e == SudokuError::MalformedPuzzle,
            },
    {
        if string.unicode_len() != 81 {
            return Err(SudokuError::MalformedPuzzle);
        }
        let every = [1usize, 2, 3, 4, 5, 6, 7, 8, 9];
        proof {
            assert(spells(every@, all_digits()));
            assert(all_digits().no_duplicates());
        }
        let blank = OptionVector::new_unsolved(every);
        proof {
            lemma_spells_unique(every@, blank@.candidates, all_digits());
        }
        let mut sudoku = Sudoku { board: [blank;81] };
        let mut p: usize = 0;
        while p < 81
            invariant
                p <= 81,
                string@.len() == 81,
                sudoku.wf(),
                blank.wf(),
                blank@ == CellView::open(all_digits()),
                forall|q: int| 0 <= q < p ==> glyph_digit(#[trigger] string@[q]) is Some,
                forall|q: int|
                    0 <= q < p ==> #[trigger] sudoku@[q] == fresh_board(text_digits(string@))[q],
                forall|q: int| p <= q < 81 ==> #[trigger] sudoku@[q] == blank@,
            decreases 81 - p,
        {
            match glyph_value(string.get_char(p)) {
                None => {
                    return Err(SudokuError::MalformedPuzzle);
                },
                Some(d) => {
                    if d != 0 {
                        sudoku.put(p, OptionVector::new_solved(d));
                    }
                },
            }
            p += 1;
        }
        Ok(sudoku)
    }

    /// Writes the board as text: eighty-one characters in row-major order, the digit of each
    /// cell that holds one and `.` for each open cell.
    pub fn to_string(&self) -> (string: String)
        ensures
            string@ == digits_text(self.digits()),
    {
        let mut string = String::new();
        let mut p: usize = 0;
        while p < 81
            invariant
                p <= 81,
                string@ == digits_text(self.digits()).take(p as int),
            decreases 81 - p,
        {
            string.append(value_glyph(self.board[p].value()));
            p += 1;
        }
        string
    }

    /// Whether two boards agree cell by cell, in digits and in candidates.
    pub fn same(&self, other: &Sudoku) -> (r: bool)
        requires
            self.wf(),
            other.wf(),
        ensures
            r == (self@ == other@),
    {
        let mut p: usize = 0;
        while p < 81
            invariant
                p <= 81,
                self.wf(),
                other.wf(),
                forall|q: int| 0 <= q < p ==> self@[q] == other@[q],
            decreases 81 - p,
        {
            if !self.board[p].same(&other.board[p]) {
                assert(self@[p as int] != other@[p as int]);
                return false;
            }
            p += 1;
        }
        assert(self@ =~= other@);
        true
    }
}

/// Two boards are equal when they hold the same digits in the same places, whatever
/// candidates their open cells list.
impl PartialEq for Sudoku {
    fn eq(&self, other: &Sudoku) -> (r: bool) {
        let mut p: usize = 0;
        while p < 81
            invariant
                p <= 81,
                forall|q: int| 0 <= q < p ==> self.digits()[q] == other.digits()[q],
            decreases 81 - p,
        {
            if self.board[p].value() != other.board[p].value() {
                assert(self.digits()[p as int] != other.digits()[p as int]);
                return false;
            }
            p += 1;
        }
        assert(self.digits() =~= other.digits());
        true
    }
}

impl Eq for Sudoku {

}

impl vstd::std_specs::cmp::PartialEqSpecImpl for Sudoku {
    open spec fn obeys_eq_spec() -> bool {
        true
    }

    open spec fn eq_spec(&self, other: &Sudoku) -> bool {
        self.digits() == other.digits()
    }
}

} // verus!
