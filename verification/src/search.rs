//! The search: elimination as far as it goes, then one branch for each candidate of the first
//! open cell, until every branch is finished or has run into a contradiction.
use crate::board::Sudoku;
use crate::cell::CellView;
use crate::grid::{board_digits, completes};
use crate::search_facts::{
    lemma_branched, lemma_dead_end, lemma_finished, lemma_spoilt, lemma_start,
};
use std::collections::VecDeque;
use vstd::prelude::*;

verus! {

/// The grid `g` repeats every digit of the grid `d`.
pub open spec fn agrees(g: Seq<nat>, d: Seq<nat>) -> bool {
    forall|p: int| 0 <= p < 81 && #[trigger] d[p] != 0 ==> g[p] == d[p]
}

/// The board `b` is a branch of the puzzle `root`: the finished puzzles that fill `b` are
/// those that fill `root` and repeat the digits of `b`.
pub open spec fn branch_of(b: Seq<CellView>, root: Seq<CellView>) -> bool {
    forall|g: Seq<nat>|
        #![trigger completes(g, b)]
        #![trigger completes(g, root)]
        completes(g, b) <==> completes(g, root) && agrees(g, board_digits(b))
}

/// The board `b` with the digit `v` imposed on the cell at place `q`.
pub open spec fn child(b: Seq<CellView>, q: int, v: nat) -> Seq<CellView> {
    b.update(q, CellView::solved(v))
}

/// Some board of the list shows exactly the digits `d`.
pub open spec fn shows(list: Seq<Sudoku>, d: Seq<nat>) -> bool {
    exists|i: int| 0 <= i < list.len() && (#[trigger] list[i]).digits() == d
}

/// Some board waiting in the frontier may still lead to the finished puzzle `g`.
pub open spec fn pending(frontier: Seq<Sudoku>, g: Seq<nat>) -> bool {
    exists|i: int| 0 <= i < frontier.len() && agrees(g, (#[trigger] frontier[i]).digits())
}

/// Every board in the frontier is well formed and a branch of the puzzle.
pub open spec fn branches(frontier: Seq<Sudoku>, root: Seq<CellView>) -> bool {
    forall|i: int|
        0 <= i < frontier.len() ==> (#[trigger] frontier[i]).wf() && branch_of(frontier[i]@, root)
}

/// Every board found is well formed and shows a finished puzzle that fills the puzzle.
pub open spec fn sound(found: Seq<Sudoku>, root: Seq<CellView>) -> bool {
    forall|j: int|
        0 <= j < found.len() ==> (#[trigger] found[j]).wf() && completes(found[j].digits(), root)
}

/// No two boards of the list show the same digits.
pub open spec fn distinct(found: Seq<Sudoku>) -> bool {
    forall|i: int, j: int|
        0 <= i < j < found.len() ==> (#[trigger] found[i]).digits() != (
        #[trigger] found[j]).digits()
}

/// Every finished puzzle that fills the puzzle has been found or may still be reached from
/// the frontier.
pub open spec fn covered(root: Seq<CellView>, frontier: Seq<Sudoku>, found: Seq<Sudoku>) -> bool {
    forall|g: Seq<nat>| #[trigger] completes(g, root) ==> pending(frontier, g) || shows(found, g)
}

/// The frontier `after` is the frontier `before` with branches of the board `b` on its open
/// cell at place `q` added at the back: at most one for each candidate of the cell, each the
/// board with one of the candidates imposed, and for each candidate a board in `after` that
/// shows the digits of its branch.
pub open spec fn grown(b: Seq<CellView>, q: int, before: Seq<Sudoku>, after: Seq<Sudoku>) -> bool {
    &&& before.len() <= after.len() <= before.len() + b[q].candidates.len()
    &&& after.take(before.len() as int) == before
    &&& forall|i: int|
        before.len() <= i < after.len() ==> {
            &&& (#[trigger] after[i]).wf()
            &&& exists|k: int|
                0 <= k < b[q].candidates.len() && after[i]@ == child(
                    b,
                    q,
                    #[trigger] b[q].candidates[k],
                )
        }
    &&& forall|k: int|
        0 <= k < b[q].candidates.len() ==> shows(
            after,
            board_digits(child(b, q, #[trigger] b[q].candidates[k])),
        )
}

/// The number of open cells among the first `n` cells of a board.
pub open spec fn open_upto(b: Seq<CellView>, n: int) -> nat
    decreases n,
{
    if n <= 0 {
        0
    } else {
        open_upto(b, n - 1) + if b[n - 1].digit == 0 {
            1nat
        } else {
            0nat
        }
    }
}

/// The number of open cells of a board.
pub open spec fn open_cells(b: Seq<CellView>) -> nat {
    open_upto(b, 81)
}

/// A bound on the number of boards the search takes from the frontier for a board with `n`
/// open cells: the board itself, and at most nine branches with one open cell fewer.
pub open spec fn tree_bound(n: nat) -> nat
    decreases n,
{
    if n == 0 {
        1
    } else {
        1 + 9 * tree_bound((n - 1) as nat)
    }
}

/// A bound on the number of boards the search has yet to take from the frontier.
pub open spec fn load(frontier: Seq<Sudoku>) -> nat
    decreases frontier.len(),
{
    if frontier.len() == 0 {
        0
    } else {
        load(frontier.drop_last()) + tree_bound(open_cells(frontier.last()@))
    }
}

/// Whether some board of the frontier shows the same digits as `board`.
fn queued(frontier: &VecDeque<Sudoku>, board: &Sudoku) -> (r: bool)
    ensures
        r == shows(frontier@, board.digits()),
{
    let mut i: usize = 0;
    while i < frontier.len()
        invariant
            i <= frontier.len(),
            forall|j: int| 0 <= j < i ==> (#[trigger] frontier@[j]).digits() != board.digits(),
        decreases frontier.len() - i,
    {
        if frontier[i] == *board {
            return true;
        }
        i += 1;
    }
    false
}

/// Whether some board of the list shows the same digits as `board`.
fn holds(found: &Vec<Sudoku>, board: &Sudoku) -> (r: bool)
    ensures
        r == shows(found@, board.digits()),
{
    let mut i: usize = 0;
    while i < found.len()
        invariant
            i <= found.len(),
            forall|j: int| 0 <= j < i ==> (#[trigger] found@[j]).digits() != board.digits(),
        decreases found.len() - i,
    {
        if found[i] == *board {
            return true;
        }
        i += 1;
    }
    false
}

impl Sudoku {
    /// Branches on the open cell at place `q`: for each of its candidates, in their order, a
    /// copy of the board with that candidate imposed on the cell joins the back of the
    /// frontier, unless a board showing the same digits waits there already.
    fn branch(&self, q: usize, frontier: &mut VecDeque<Sudoku>)
        requires
            self.wf(),
            q < 81,
            self@[q as int].digit == 0,
        ensures
            grown(self@, q as int, old(frontier)@, final(frontier)@),
    {
        let cell = self.cell(q);
        let ghost start = frontier@;
        let ghost options = cell@.candidates;
        proof {
            cell.lemma_wf_view();
            assert(frontier@.take(start.len() as int) =~= start);
        }
        let mut k: usize = 0;
        while k < 9 && cell.option(k) != 0
            invariant
                k <= options.len() <= 9,
                q < 81,
                self.wf(),
                cell.wf(),
                cell@.wf(),
                cell@ == self@[q as int],
                cell@.digit == 0,
                options == cell@.candidates,
                start == old(frontier)@,
                start.len() <= frontier@.len() <= start.len() + k,
                frontier@.take(start.len() as int) == start,
                forall|i: int|
                    start.len() <= i < frontier@.len() ==> {
                        &&& (#[trigger] frontier@[i]).wf()
                        &&& exists|m: int|
                            0 <= m < options.len() && frontier@[i]@ == child(
                                self@,
                                q as int,
                                #[trigger] options[m],
                            )
                    },
                forall|m: int|
                    0 <= m < k ==> shows(
                        frontier@,
                        board_digits(child(self@, q as int, #[trigger] options[m])),
                    ),
            decreases 9 - k,
        {
            let v = cell.option(k);
            let mut imposed = cell;
            imposed.set_option(v);
            let mut next = *self;
            next.put(q, imposed);
            let ghost before = frontier@;
            assert(next@ == child(self@, q as int, options[k as int]));
            if !queued(frontier, &next) {
                frontier.push_back(next);
                proof {
                    assert(frontier@[before.len() as int] == next);
                    assert(frontier@.take(start.len() as int) =~= before.take(start.len() as int));
                }
            }
            proof {
                let after = frontier@;
                assert(shows(after, next.digits())) by {
                    if shows(before, next.digits()) {
                        let i = choose|i: int|
                            0 <= i < before.len() && (#[trigger] before[i]).digits()
                                == next.digits();
                        assert(after[i] == before[i]);
                    } else {
                        assert(after[before.len() as int].digits() == next.digits());
                    }
                }
                assert forall|m: int| 0 <= m < k + 1 implies shows(
                    after,
                    board_digits(child(self@, q as int, #[trigger] options[m])),
                ) by {
                    let d = board_digits(child(self@, q as int, options[m]));
                    if m < k {
                        assert(shows(before, d));
                        let i = choose|i: int|
                            0 <= i < before.len() && (#[trigger] before[i]).digits() == d;
                        assert(after[i] == before[i]);
                    }
                }
                assert forall|i: int| start.len() <= i < after.len() implies {
                    &&& (#[trigger] after[i]).wf()
                    &&& exists|m: int|
                        0 <= m < options.len() && after[i]@ == child(
                            self@,
                            q as int,
                            #[trigger] options[m],
                        )
                } by {
                    if i < before.len() {
                        assert(after[i] == before[i]);
                    }
                }
            }
            k += 1;
        }
        assert(k == options.len());
    }
}

/// Finds every finished puzzle that fills `sudoku`.
///
/// The boards returned are complete and valid, each repeats the digits of `sudoku` and gives
/// every open cell one of its candidates, no two of them show the same digits, and every
/// such finished puzzle is among them. The list is empty if the puzzle has no solution.
pub fn master_solve(sudoku: &Sudoku) -> (solved: Vec<Sudoku>)
    requires
        sudoku.wf(),
    ensures
        sound(solved@, sudoku@),
        distinct(solved@),
        forall|g: Seq<nat>| #[trigger] completes(g, sudoku@) ==> shows(solved@, g),
{
    let ghost root = sudoku@;
    let mut frontier: VecDeque<Sudoku> = VecDeque::new();
    let mut solved: Vec<Sudoku> = Vec::new();
    frontier.push_back(*sudoku);
    proof {
        lemma_start(*sudoku, frontier@, solved@);
    }
    while frontier.len() > 0
        invariant
            root == sudoku@,
            branches(frontier@, root),
            sound(solved@, root),
            distinct(solved@),
            covered(root, frontier@, solved@),
        decreases load(frontier@),
    {
        let ghost waiting = frontier@;
        let ghost known = solved@;
        let mut board = frontier.pop_front().unwrap();
        if board.propagate().is_ok() {
            if board.is_solved() {
                if !holds(&solved, &board) {
                    solved.push(board);
                }
                proof {
                    lemma_finished(root, waiting, known, board, solved@);
                }
            } else {
                match board.first_open() {
                    Some(q) => {
                        board.branch(q, &mut frontier);
                        proof {
                            lemma_branched(root, waiting, known, board, q as int, frontier@);
                        }
                    },
                    None => {
                        proof {
                            lemma_spoilt(root, waiting, known, board);
                        }
                    },
                }
            }
        } else {
            proof {
                lemma_dead_end(root, waiting, known);
            }
        }
    }
    proof {
        assert forall|g: Seq<nat>| #[trigger] completes(g, root) implies shows(solved@, g) by {
            assert(!pending(frontier@, g));
        }
    }
    solved
}

} // verus!
