//! What an elimination pass keeps and what it changes.
use crate::cell::CellView;
use crate::grid::{
    board_digits, board_wf, box_of, col_of, completes, legal, row_of, unit_admits, unit_clean,
};
use crate::propagate::{
    cell_slack, legal_at, settle, slack, slack_upto, step_cell, sweep, Pass,
};
use vstd::prelude::*;

verus! {

/// The board `after` holds every digit that `before` holds, in the same place.
pub open spec fn keeps_digits(before: Seq<CellView>, after: Seq<CellView>) -> bool {
    forall|p: int|
        0 <= p < 81 && (#[trigger] before[p]).digit != 0 ==> after[p].digit == before[p].digit
}

/// Filtering a list keeps the entries that pass the test, adds none, makes no entry occur
/// twice that did not, and either drops an entry or leaves the list as it was.
pub proof fn lemma_filter_facts(s: Seq<nat>, keep: spec_fn(nat) -> bool)
    ensures
        s.filter(keep).len() <= s.len(),
        s.filter(keep).len() == s.len() ==> s.filter(keep) == s,
        forall|v: nat| #[trigger] s.filter(keep).contains(v) <==> s.contains(v) && keep(v),
        s.no_duplicates() ==> s.filter(keep).no_duplicates(),
    decreases s.len(),
{
    reveal(Seq::filter);
    if s.len() > 0 {
        let t = s.drop_last();
        let x = s.last();
        let ft = t.filter(keep);
        let fs = s.filter(keep);
        lemma_filter_facts(t, keep);
        assert(s =~= t.push(x));
        assert forall|v: nat| #[trigger] fs.contains(v) <==> s.contains(v) && keep(v) by {
            if fs.contains(v) {
                let i = choose|i: int| 0 <= i < fs.len() && fs[i] == v;
                if i < ft.len() {
                    assert(ft[i] == v);
                    assert(ft.contains(v));
                    let j = choose|j: int| 0 <= j < t.len() && t[j] == v;
                    assert(s[j] == v);
                } else {
                    assert(v == x);
                    assert(s[s.len() - 1] == v);
                }
            }
            if s.contains(v) && keep(v) {
                let j = choose|j: int| 0 <= j < s.len() && s[j] == v;
                if j < t.len() {
                    assert(t[j] == v);
                    assert(t.contains(v));
                    assert(ft.contains(v));
                    let i = choose|i: int| 0 <= i < ft.len() && ft[i] == v;
                    assert(fs[i] == v);
                } else {
                    assert(fs[fs.len() - 1] == v);
                }
            }
        }
        if s.no_duplicates() {
            assert(t.no_duplicates());
            if keep(x) {
                assert forall|i: int, j: int| 0 <= i < fs.len() && 0 <= j < fs.len() && i != j
                    implies fs[i] != fs[j] by {
                    if i == ft.len() || j == ft.len() {
                        let m = if i == ft.len() { j } else { i };
                        assert(ft.contains(ft[m]));
                        assert(t.contains(ft[m]));
                        let n = choose|n: int| 0 <= n < t.len() && t[n] == ft[m];
                        assert(s[n] == ft[m] && s[s.len() - 1] == x);
                    }
                }
            }
        }
    }
}

/// Replacing one cell changes the slack of a board by the change in that cell's slack.
pub proof fn lemma_slack_update(b: Seq<CellView>, p: int, c: CellView, n: int)
    requires
        b.len() == 81,
        0 <= p < 81,
        0 <= n <= 81,
    ensures
        slack_upto(b.update(p, c), n) == if p < n {
            slack_upto(b, n) - cell_slack(b[p]) + cell_slack(c)
        } else {
            slack_upto(b, n) as int
        },
    decreases n,
{
    if n > 0 {
        lemma_slack_update(b, p, c, n - 1);
    }
}

/// What the pass makes of a cell is well formed and no less decided than the cell was. A
/// cell that holds a digit is left alone, and so is one that has become no more decided.
pub proof fn lemma_step_cell(b: Seq<CellView>, p: int)
    requires
        board_wf(b),
        0 <= p < 81,
        step_cell(b, p) is Some,
    ensures
        step_cell(b, p).unwrap().wf(),
        cell_slack(step_cell(b, p).unwrap()) <= cell_slack(b[p]),
        cell_slack(step_cell(b, p).unwrap()) == cell_slack(b[p]) ==> step_cell(b, p).unwrap()
            == b[p],
        b[p].digit != 0 ==> step_cell(b, p).unwrap() == b[p],
{
    assert(b[p].wf());
    if b[p].digit == 0 {
        let all = b[p].candidates;
        let kept = all.filter(legal_at(board_digits(b), p));
        lemma_filter_facts(all, legal_at(board_digits(b), p));
        assert forall|i: int| 0 <= i < kept.len() implies 1 <= #[trigger] kept[i] <= 9 by {
            assert(kept.contains(kept[i]));
            let j = choose|j: int| 0 <= j < all.len() && all[j] == kept[i];
            assert(1 <= all[j] <= 9);
        }
    }
}

/// A pass leaves a well-formed board, keeps every digit the board held, and does not add to
/// its slack. Unless it stops at an unsolvable cell, it lowers the slack or changes nothing.
pub proof fn lemma_sweep_facts(b: Seq<CellView>, from: int)
    requires
        board_wf(b),
        0 <= from <= 81,
    ensures
        board_wf(sweep(b, from).board),
        keeps_digits(b, sweep(b, from).board),
        slack(sweep(b, from).board) <= slack(b),
        !sweep(b, from).stuck && slack(sweep(b, from).board) == slack(b) ==> sweep(b, from).board
            == b,
    decreases 81 - from,
{
    if from < 81 {
        match step_cell(b, from) {
            None => {},
            Some(c) => {
                let next = b.update(from, c);
                lemma_step_cell(b, from);
                lemma_slack_update(b, from, c, 81);
                lemma_sweep_facts(next, from + 1);
                let end = sweep(b, from).board;
                assert forall|q: int| 0 <= q < 81 && (#[trigger] b[q]).digit != 0 implies end[q]
                    .digit == b[q].digit by {
                    assert(next[q].digit == b[q].digit);
                }
                if !sweep(b, from).stuck && slack(end) == slack(b) {
                    assert(next =~= b);
                }
            },
        }
    }
}

/// A unit of a board that a finished puzzle fills leaves room, at each of its blank places,
/// for the digit the puzzle puts there.
proof fn lemma_unit_admits(held: Seq<nat>, full: Seq<nat>, k: int)
    requires
        held.len() == 9,
        full.len() == 9,
        unit_clean(full),
        forall|i: int| 0 <= i < 9 ==> #[trigger] full[i] != 0,
        forall|i: int| 0 <= i < 9 && #[trigger] held[i] != 0 ==> held[i] == full[i],
        0 <= k < 9,
        held[k] == 0,
    ensures
        unit_admits(held, full[k]),
{
    assert forall|i: int, j: int| 0 <= i < j < 9 && held[i] != 0 implies held[i] != held[j] by {
        if held[j] == held[i] {
            assert(full[i] == full[j]);
        }
    }
    if held.contains(full[k]) {
        let i = choose|i: int| 0 <= i < 9 && held[i] == full[k];
        assert(full[i] == full[k]);
        if i < k {
            assert(full[i] != full[k]);
        } else {
            assert(full[k] != full[i]);
        }
    }
}

/// On a board that a finished puzzle fills, the row of an open place leaves room for the
/// digit the puzzle puts there.
proof fn lemma_row_admits(b: Seq<CellView>, g: Seq<nat>, p: int)
    requires
        board_wf(b),
        completes(g, b),
        0 <= p < 81,
        b[p].digit == 0,
    ensures
        unit_admits(row_of(board_digits(b), p / 9), g[p]),
{
    let r = p / 9;
    let c = p % 9;
    let held = row_of(board_digits(b), r);
    let full = row_of(g, r);
    assert(unit_clean(full));
    assert forall|i: int| 0 <= i < 9 implies #[trigger] full[i] != 0 by {
        assert(g[9 * r + i] != 0);
    }
    assert forall|i: int| 0 <= i < 9 && #[trigger] held[i] != 0 implies held[i] == full[i] by {
        assert(b[9 * r + i].digit != 0);
    }
    assert(9 * r + c == p);
    lemma_unit_admits(held, full, c);
}

/// On a board that a finished puzzle fills, the column of an open place leaves room for the
/// digit the puzzle puts there.
proof fn lemma_col_admits(b: Seq<CellView>, g: Seq<nat>, p: int)
    requires
        board_wf(b),
        completes(g, b),
        0 <= p < 81,
        b[p].digit == 0,
    ensures
        unit_admits(col_of(board_digits(b), p % 9), g[p]),
{
    let r = p / 9;
    let c = p % 9;
    let held = col_of(board_digits(b), c);
    let full = col_of(g, c);
    assert(unit_clean(full));
    assert forall|i: int| 0 <= i < 9 implies #[trigger] full[i] != 0 by {
        assert(g[9 * i + c] != 0);
    }
    assert forall|i: int| 0 <= i < 9 && #[trigger] held[i] != 0 implies held[i] == full[i] by {
        assert(b[9 * i + c].digit != 0);
    }
    assert(9 * r + c == p);
    lemma_unit_admits(held, full, r);
}

/// On a board that a finished puzzle fills, the box of an open place leaves room for the
/// digit the puzzle puts there.
proof fn lemma_box_admits(b: Seq<CellView>, g: Seq<nat>, p: int)
    requires
        board_wf(b),
        completes(g, b),
        0 <= p < 81,
        b[p].digit == 0,
    ensures
        unit_admits(box_of(board_digits(b), (p / 9) / 3, (p % 9) / 3), g[p]),
{
    let r = p / 9;
    let c = p % 9;
    let br = r / 3;
    let bc = c / 3;
    let held = box_of(board_digits(b), br, bc);
    let full = box_of(g, br, bc);
    assert(unit_clean(full));
    assert forall|i: int| 0 <= i < 9 implies #[trigger] full[i] != 0 by {
        let q = 9 * (3 * br + i / 3) + 3 * bc + i % 3;
        assert(0 <= q < 81);
        assert(g[q] != 0);
    }
    assert forall|i: int| 0 <= i < 9 && #[trigger] held[i] != 0 implies held[i] == full[i] by {
        let q = 9 * (3 * br + i / 3) + 3 * bc + i % 3;
        assert(0 <= q < 81);
        assert(b[q].digit != 0);
    }
    let k = 3 * (r % 3) + c % 3;
    assert(k / 3 == r % 3 && k % 3 == c % 3);
    assert(9 * (3 * br + k / 3) + 3 * bc + k % 3 == p);
    lemma_unit_admits(held, full, k);
}

/// On a board that a finished puzzle fills, the digit the puzzle puts at an open place is
/// legal there.
pub proof fn lemma_solution_digit_is_legal(b: Seq<CellView>, g: Seq<nat>, p: int)
    requires
        board_wf(b),
        completes(g, b),
        0 <= p < 81,
        b[p].digit == 0,
    ensures
        legal(board_digits(b), g[p], p / 9, p % 9),
{
    lemma_row_admits(b, g, p);
    lemma_col_admits(b, g, p);
    lemma_box_admits(b, g, p);
    assert(9 * (p / 9) + p % 9 == p);
}

/// A finished puzzle that fills a board still fills it after the pass has dealt with one
/// cell, and that cell is not unsolvable.
pub proof fn lemma_step_keeps_solution(b: Seq<CellView>, p: int, g: Seq<nat>)
    requires
        board_wf(b),
        0 <= p < 81,
        completes(g, b),
    ensures
        step_cell(b, p) is Some,
        completes(g, b.update(p, step_cell(b, p).unwrap())),
{
    assert(b[p].wf());
    if b[p].digit == 0 {
        let keep = legal_at(board_digits(b), p);
        let kept = b[p].candidates.filter(keep);
        lemma_filter_facts(b[p].candidates, keep);
        lemma_solution_digit_is_legal(b, g, p);
        assert(keep(g[p]));
        assert(kept.contains(g[p]));
        if kept.len() == 1 {
            let i = choose|i: int| 0 <= i < kept.len() && kept[i] == g[p];
            assert(kept[0] == g[p]);
        }
    }
    let next = b.update(p, step_cell(b, p).unwrap());
    assert forall|q: int| 0 <= q < 81 implies if (#[trigger] next[q]).digit != 0 {
        g[q] == next[q].digit
    } else {
        next[q].candidates.contains(g[q])
    } by {
        assert(b[q].wf());
    }
}

/// A finished puzzle that fills a board after the pass has dealt with one cell filled it
/// before.
pub proof fn lemma_step_adds_no_solution(b: Seq<CellView>, p: int, g: Seq<nat>)
    requires
        board_wf(b),
        0 <= p < 81,
        step_cell(b, p) is Some,
        completes(g, b.update(p, step_cell(b, p).unwrap())),
    ensures
        completes(g, b),
{
    let next = b.update(p, step_cell(b, p).unwrap());
    assert(b[p].wf());
    if b[p].digit == 0 {
        let keep = legal_at(board_digits(b), p);
        let kept = b[p].candidates.filter(keep);
        lemma_filter_facts(b[p].candidates, keep);
        assert(next[p] == step_cell(b, p).unwrap());
        if kept.len() == 1 {
            assert(g[p] == kept[0]);
            assert(kept.contains(kept[0]));
        } else {
            assert(kept.contains(g[p]));
        }
        assert(b[p].candidates.contains(g[p]));
    }
    assert forall|q: int| 0 <= q < 81 implies if (#[trigger] b[q]).digit != 0 {
        g[q] == b[q].digit
    } else {
        b[q].candidates.contains(g[q])
    } by {
        if q != p {
            assert(next[q] == b[q]);
        } else {
            assert(next[p] == step_cell(b, p).unwrap());
        }
    }
}

/// A pass loses no solution: a finished puzzle that fills the board fills it after the pass,
/// and the pass does not stop at an unsolvable cell.
pub proof fn lemma_sweep_keeps_solution(b: Seq<CellView>, from: int, g: Seq<nat>)
    requires
        board_wf(b),
        0 <= from <= 81,
        completes(g, b),
    ensures
        !sweep(b, from).stuck,
        completes(g, sweep(b, from).board),
    decreases 81 - from,
{
    if from < 81 {
        lemma_step_keeps_solution(b, from, g);
        lemma_step_cell(b, from);
        lemma_sweep_keeps_solution(b.update(from, step_cell(b, from).unwrap()), from + 1, g);
    }
}

/// A pass brings in no solution: a finished puzzle that fills the board after the pass filled
/// it before.
pub proof fn lemma_sweep_adds_no_solution(b: Seq<CellView>, from: int, g: Seq<nat>)
    requires
        board_wf(b),
        0 <= from <= 81,
        completes(g, sweep(b, from).board),
    ensures
        completes(g, b),
    decreases 81 - from,
{
    if from < 81 && step_cell(b, from) is Some {
        lemma_step_cell(b, from);
        lemma_sweep_adds_no_solution(b.update(from, step_cell(b, from).unwrap()), from + 1, g);
        lemma_step_adds_no_solution(b, from, g);
    }
}

/// Repeated passes leave a well-formed board, keep every digit the board held, and do not
/// add to its slack. Unless they end at an unsolvable cell, they end at a fixed point: one
/// more pass changes nothing.
pub proof fn lemma_settle_facts(b: Seq<CellView>)
    requires
        board_wf(b),
    ensures
        board_wf(settle(b).board),
        keeps_digits(b, settle(b).board),
        slack(settle(b).board) <= slack(b),
        !settle(b).stuck ==> sweep(settle(b).board, 0) == (Pass {
            board: settle(b).board,
            stuck: false,
        }),
    decreases slack(b),
{
    lemma_sweep_facts(b, 0);
    let pass = sweep(b, 0);
    if !pass.stuck && pass.board != b {
        lemma_settle_facts(pass.board);
        let end = settle(b).board;
        assert forall|p: int| 0 <= p < 81 && (#[trigger] b[p]).digit != 0 implies end[p].digit
            == b[p].digit by {
            assert(pass.board[p].digit == b[p].digit);
        }
    }
}

/// Repeated passes lose no solution: a finished puzzle that fills the board fills it at the
/// end, and no pass stops at an unsolvable cell.
pub proof fn lemma_settle_keeps_solution(b: Seq<CellView>, g: Seq<nat>)
    requires
        board_wf(b),
        completes(g, b),
    ensures
        !settle(b).stuck,
        completes(g, settle(b).board),
    decreases slack(b),
{
    lemma_sweep_facts(b, 0);
    lemma_sweep_keeps_solution(b, 0, g);
    let pass = sweep(b, 0);
    if !pass.stuck && pass.board != b {
        lemma_settle_keeps_solution(pass.board, g);
    }
}

/// Repeated passes bring in no solution: a finished puzzle that fills the board at the end
/// filled it at the start.
pub proof fn lemma_settle_adds_no_solution(b: Seq<CellView>, g: Seq<nat>)
    requires
        board_wf(b),
        completes(g, settle(b).board),
    ensures
        completes(g, b),
    decreases slack(b),
{
    lemma_sweep_facts(b, 0);
    let pass = sweep(b, 0);
    if !pass.stuck && pass.board != b {
        lemma_settle_adds_no_solution(pass.board, g);
    }
    lemma_sweep_adds_no_solution(b, 0, g);
}

} // verus!
