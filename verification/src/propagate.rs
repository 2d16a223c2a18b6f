//! Elimination: striking from each open cell the candidates that its row, column or box
//! rules out, once over the board or until nothing changes.
use crate::board::{Position, Sudoku};
use crate::cell::{CellView, OptionVector};
use crate::error::SudokuError;
use crate::grid::{board_digits, board_wf, legal};
use crate::pass_facts::lemma_sweep_facts;
use vstd::prelude::*;

verus! {

/// The test a candidate of the cell at place `p` has to pass on the grid `g`.
pub open spec fn legal_at(g: Seq<nat>, p: int) -> spec_fn(nat) -> bool {
    |v: nat| legal(g, v, p / 9, p % 9)
}

/// What the pass makes of the cell at place `p` of the board `b`, or `None` if the cell turns
/// out to be unsolvable. A cell that holds a digit stays as it is. An open cell keeps, in
/// their order, the candidates that are legal on the board as it stands, and is then settled
/// if a single one is left.
pub open spec fn step_cell(b: Seq<CellView>, p: int) -> Option<CellView> {
    if b[p].digit != 0 {
        Some(b[p])
    } else {
        CellView::open(b[p].candidates.filter(legal_at(board_digits(b), p))).forced()
    }
}

/// How a pass ends: the board it leaves, and whether it stopped at an unsolvable cell.
pub struct Pass {
    pub board: Seq<CellView>,
    pub stuck: bool,
}

/// The pass over the places `from..81` of the board `b`, in order. Each cell is replaced by
/// what [`step_cell`] makes of it on the board as the cells before it left it. The pass stops
/// at the first unsolvable cell and leaves that cell and all after it untouched.
pub open spec fn sweep(b: Seq<CellView>, from: int) -> Pass
    decreases 81 - from,
{
    if from >= 81 {
        Pass { board: b, stuck: false }
    } else {
        match step_cell(b, from) {
            None => Pass { board: b, stuck: true },
            Some(c) => sweep(b.update(from, c), from + 1),
        }
    }
}

/// What is still undecided about a cell: nothing if it holds a digit, and otherwise one more
/// than the number of its candidates.
pub open spec fn cell_slack(c: CellView) -> nat {
    if c.digit != 0 {
        0
    } else {
        1 + c.candidates.len()
    }
}

/// The slack of the first `n` cells of a board, added up.
pub open spec fn slack_upto(b: Seq<CellView>, n: int) -> nat
    decreases n,
{
    if n <= 0 {
        0
    } else {
        slack_upto(b, n - 1) + cell_slack(b[n - 1])
    }
}

/// What is still undecided about a board: the slack of its cells, added up.
pub open spec fn slack(b: Seq<CellView>) -> nat {
    slack_upto(b, 81)
}

/// Passes repeated until one stops at an unsolvable cell or changes nothing: how the last of
/// them ends.
pub open spec fn settle(b: Seq<CellView>) -> Pass
    decreases slack(b),
    when board_wf(b)
    via settle_terminates
{
    let pass = sweep(b, 0);
    if pass.stuck || pass.board == b {
        pass
    } else {
        settle(pass.board)
    }
}

#[via_fn]
proof fn settle_terminates(b: Seq<CellView>) {
    lemma_sweep_facts(b, 0);
}

impl Sudoku {
    /// Strikes from the open cell `cell`, which sits at place `p`, every candidate that is not
    /// legal on this board.
    fn prune(&self, cell: &mut OptionVector, p: usize)
        requires
            self.wf(),
            old(cell).wf(),
            old(cell)@.digit == 0,
            p < 81,
        ensures
            final(cell).wf(),
            final(cell)@ == CellView::open(
                old(cell)@.candidates.filter(legal_at(self.digits(), p as int)),
            ),
    {
        let listed = *cell;
        let ghost all = listed@.candidates;
        let ghost keep = legal_at(self.digits(), p as int);
        proof {
            listed.lemma_wf_view();
            reveal(Seq::filter);
            assert(all.take(0).filter(keep) + all.skip(0) =~= all);
        }
        let mut k: usize = 0;
        while k < 9 && listed.option(k) != 0
            invariant
                k <= all.len() <= 9,
                p < 81,
                self.wf(),
                listed.wf(),
                listed@.wf(),
                all == listed@.candidates,
                keep == legal_at(self.digits(), p as int),
                cell.wf(),
                cell@ == CellView::open(all.take(k as int).filter(keep) + all.skip(k as int)),
            decreases 9 - k,
        {
            let v = listed.option(k);
            let ghost kept = all.take(k as int).filter(keep);
            proof {
                assert(all.take(k + 1) =~= all.take(k as int).push(v as nat));
                all.take(k as int).lemma_filter_push(v as nat, keep);
                assert(keep(v as nat) == legal(
                    self.digits(),
                    v as nat,
                    (p / 9) as int,
                    (p % 9) as int,
                ));
                assert(all.take(k + 1).filter(keep) == if keep(v as nat) {
                    kept.push(v as nat)
                } else {
                    kept
                });
                assert(all.skip(k as int) =~= seq![v as nat] + all.skip(k + 1));
            }
            if !self.validate_option(v, Position { row: p / 9, col: p % 9 }) {
                proof {
                    cell.lemma_wf_view();
                    let now = cell@.candidates;
                    let at = kept.len() as int;
                    assert(now[at] == v);
                    assert(now.index_of(v as nat) == at);
                    assert(now.remove(at) =~= kept + all.skip(k + 1));
                    assert(cell@.without(v as nat) == CellView::open(kept + all.skip(k + 1)));
                }
                cell.remove_option(v);
            } else {
                assert(kept + all.skip(k as int) =~= kept.push(v as nat) + all.skip(k + 1));
            }
            k += 1;
        }
        proof {
            assert(k == all.len());
            assert(all.take(k as int) =~= all);
            assert(all.filter(keep) + all.skip(k as int) =~= all.filter(keep));
        }
    }

    /// Runs one elimination pass over the board, cell by cell in row-major order.
    ///
    /// Each open cell loses the candidates that are not legal on the board as it stands when
    /// the pass reaches the cell, and takes the one that is left as its digit if there is just
    /// one. The pass stops with [`SudokuError::UnsolvableCell`] at the first open cell that is
    /// left without a candidate; the cells before it keep what the pass made of them.
    pub fn solve(&mut self) -> (r: Result<(), SudokuError>)
        requires
            old(self).wf(),
        ensures
            final(self).wf(),
            final(self)@ == sweep(old(self)@, 0).board,
            r == if sweep(old(self)@, 0).stuck {
                Err::<(), SudokuError>(SudokuError::UnsolvableCell)
            } else {
                Ok::<(), SudokuError>(())
            },
    {
        let ghost start = self@;
        let mut p: usize = 0;
        while p < 81
            invariant
                p <= 81,
                self.wf(),
                start == old(self)@,
                sweep(start, 0) == sweep(self@, p as int),
            decreases 81 - p,
        {
            let mut cell = self.cell(p);
            let ghost before = self@;
            proof {
                self.lemma_wf_view();
            }
            if !cell.is_solved() {
                self.prune(&mut cell, p);
                let ghost pruned = cell@;
                assert(step_cell(before, p as int) == pruned.forced());
                if cell.solve().is_err() {
                    assert(sweep(before, p as int) == Pass { board: before, stuck: true });
                    return Err(SudokuError::UnsolvableCell);
                }
                self.put(p, cell);
            } else {
                assert(before.update(p as int, before[p as int]) =~= before);
            }
            p += 1;
        }
        Ok(())
    }

    /// Runs elimination passes until one changes nothing, or until one stops at an unsolvable
    /// cell, which is reported as [`SudokuError::UnsolvableCell`].
    ///
    /// On success the board is at a fixed point: a further pass would leave it as it is.
    pub fn propagate(&mut self) -> (r: Result<(), SudokuError>)
        requires
            old(self).wf(),
        ensures
            final(self).wf(),
            final(self)@ == settle(old(self)@).board,
            r == if settle(old(self)@).stuck {
                Err::<(), SudokuError>(SudokuError::UnsolvableCell)
            } else {
                Ok::<(), SudokuError>(())
            },
            r is Ok ==> sweep(final(self)@, 0) == (Pass { board: final(self)@, stuck: false }),
    {
        loop
            invariant
                self.wf(),
                settle(old(self)@) == settle(self@),
            decreases slack(self@),
        {
            let before = *self;
            proof {
                self.lemma_wf_view();
                lemma_sweep_facts(self@, 0);
            }
            if self.solve().is_err() {
                return Err(SudokuError::UnsolvableCell);
            }
            if self.same(&before) {
                return Ok(());
            }
        }
    }
}

} // verus!
