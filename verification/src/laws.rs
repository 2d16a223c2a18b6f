//! What holds of the library as a whole, stated over the models its contracts use.
use crate::board::Sudoku;
use crate::cell::CellView;
use crate::grid::{
    board_digits, board_wf, box_of, col_of, completes, grid_complete, grid_shape, grid_valid,
    legal, row_of, unit_clean,
};
use crate::pass_facts::{
    lemma_filter_facts, lemma_settle_adds_no_solution, lemma_settle_facts,
    lemma_settle_keeps_solution, lemma_step_cell, lemma_sweep_adds_no_solution,
    lemma_sweep_facts, lemma_sweep_keeps_solution,
};
use crate::propagate::{legal_at, settle, slack, step_cell, sweep, Pass};
use crate::search::{distinct, shows, sound};
use crate::text::{
    digits_text, fresh_board, is_puzzle_text, lemma_digits_round_trip, lemma_text_round_trip,
    text_digits,
};
use vstd::prelude::*;

verus! {

/// Reading a puzzle from a well-formed text and writing the board back gives the same text.
pub proof fn law_text_round_trip(s: Seq<char>)
    requires
        is_puzzle_text(s),
    ensures
        digits_text(board_digits(fresh_board(text_digits(s)))) == s,
{
    lemma_text_round_trip(s);
    assert(board_digits(fresh_board(text_digits(s))) =~= text_digits(s));
}

/// Writing a board as text and reading the text back gives a board with the same digits:
/// the text of a board is always well formed, and it loses the candidates but no digit.
pub proof fn law_board_round_trip(b: Seq<CellView>)
    requires
        board_wf(b),
    ensures
        is_puzzle_text(digits_text(board_digits(b))),
        board_digits(fresh_board(text_digits(digits_text(board_digits(b))))) == board_digits(b),
{
    let d = board_digits(b);
    assert forall|p: int| 0 <= p < 81 implies #[trigger] d[p] <= 9 by {
        assert(b[p].wf());
    }
    lemma_digits_round_trip(d);
    assert(board_digits(fresh_board(d)) =~= d);
}

/// A board on which elimination has come to rest is a fixed point: one more pass runs to the
/// end and leaves every cell as it is.
pub proof fn law_pass_at_rest(b: Seq<CellView>)
    requires
        board_wf(b),
        !settle(b).stuck,
    ensures
        sweep(settle(b).board, 0) == (Pass { board: settle(b).board, stuck: false }),
{
    lemma_settle_facts(b);
}

/// On a fixed point, elimination until rest does what one pass does: nothing.
pub proof fn law_rest_at_rest(b: Seq<CellView>)
    requires
        board_wf(b),
        sweep(b, 0) == (Pass { board: b, stuck: false }),
    ensures
        settle(b) == (Pass { board: b, stuck: false }),
{
}

/// Elimination changes nothing about what solves a board: a finished puzzle fills the board
/// exactly when elimination does not stop at an unsolvable cell and the finished puzzle fills
/// the board that elimination leaves. This holds of one pass and of passes repeated until
/// rest.
pub proof fn law_elimination_keeps_solutions(b: Seq<CellView>, g: Seq<nat>)
    requires
        board_wf(b),
    ensures
        completes(g, b) <==> !sweep(b, 0).stuck && completes(g, sweep(b, 0).board),
        completes(g, b) <==> !settle(b).stuck && completes(g, settle(b).board),
{
    if completes(g, b) {
        lemma_sweep_keeps_solution(b, 0, g);
        lemma_settle_keeps_solution(b, g);
    }
    if completes(g, sweep(b, 0).board) {
        lemma_sweep_adds_no_solution(b, 0, g);
    }
    if completes(g, settle(b).board) {
        lemma_settle_adds_no_solution(b, g);
    }
}

/// A puzzle with exactly one solution: a search that finds every solution, only solutions,
/// and none twice, finds one board, and that board shows the solution, complete and valid.
pub proof fn law_unique_solution(root: Seq<CellView>, found: Seq<Sudoku>, g: Seq<nat>)
    requires
        sound(found, root),
        distinct(found),
        forall|h: Seq<nat>| #[trigger] completes(h, root) ==> shows(found, h),
        completes(g, root),
        forall|h: Seq<nat>| #[trigger] completes(h, root) ==> h == g,
    ensures
        found.len() == 1,
        found[0].digits() == g,
        grid_complete(found[0].digits()),
        grid_valid(found[0].digits()),
{
    assert(shows(found, g));
    assert(completes(found[0].digits(), root));
    if found.len() > 1 {
        assert(completes(found[1].digits(), root));
        assert(found[0].digits() != found[1].digits());
    }
}

/// A puzzle with more than one solution: a search that finds every solution finds more than
/// one board.
pub proof fn law_several_solutions(
    root: Seq<CellView>,
    found: Seq<Sudoku>,
    g: Seq<nat>,
    h: Seq<nat>,
)
    requires
        forall|f: Seq<nat>| #[trigger] completes(f, root) ==> shows(found, f),
        completes(g, root),
        completes(h, root),
        g != h,
    ensures
        found.len() > 1,
{
    assert(shows(found, g));
    assert(shows(found, h));
    let i = choose|i: int| 0 <= i < found.len() && (#[trigger] found[i]).digits() == g;
    let j = choose|j: int| 0 <= j < found.len() && (#[trigger] found[j]).digits() == h;
    assert(i != j);
}

/// A puzzle without a solution: a search that finds only solutions finds nothing.
pub proof fn law_no_solution(root: Seq<CellView>, found: Seq<Sudoku>)
    requires
        sound(found, root),
        forall|h: Seq<nat>| !#[trigger] completes(h, root),
    ensures
        found.len() == 0,
{
    if found.len() > 0 {
        assert(completes(found[0].digits(), root));
    }
}

/// Some unit of the place `p` holds a digit twice on the grid `d`: its row, its column or
/// its box.
pub open spec fn spoilt_at(d: Seq<nat>, p: int) -> bool {
    ||| !unit_clean(row_of(d, p / 9))
    ||| !unit_clean(col_of(d, p % 9))
    ||| !unit_clean(box_of(d, (p / 9) / 3, (p % 9) / 3))
}

/// A unit that holds a digit twice still does so after more of its places have been filled.
proof fn lemma_unit_stays_spoilt(before: Seq<nat>, after: Seq<nat>)
    requires
        before.len() == 9,
        after.len() == 9,
        forall|i: int| 0 <= i < 9 && #[trigger] before[i] != 0 ==> after[i] == before[i],
        !unit_clean(before),
    ensures
        !unit_clean(after),
{
    let (i, j) = choose|i: int, j: int|
        0 <= i < j < before.len() && before[i] != 0 && before[i] == before[j];
    assert(after[i] == before[i] && after[j] == before[j]);
}

/// A place that has a spoilt unit still has one after the pass has dealt with another cell.
proof fn lemma_stays_spoilt(b: Seq<CellView>, q: int, c: CellView, p: int)
    requires
        board_wf(b),
        0 <= q < 81,
        0 <= p < 81,
        b[q].digit != 0 ==> c.digit == b[q].digit,
        spoilt_at(board_digits(b), p),
    ensures
        spoilt_at(board_digits(b.update(q, c)), p),
{
    let d = board_digits(b);
    let e = board_digits(b.update(q, c));
    let r = p / 9;
    let k = p % 9;
    assert forall|x: int| 0 <= x < 81 && d[x] != 0 implies e[x] == d[x] by {}
    if !unit_clean(row_of(d, r)) {
        assert forall|i: int| 0 <= i < 9 && #[trigger] row_of(d, r)[i] != 0 implies row_of(e, r)[i]
            == row_of(d, r)[i] by {
            assert(d[9 * r + i] != 0);
        }
        lemma_unit_stays_spoilt(row_of(d, r), row_of(e, r));
    } else if !unit_clean(col_of(d, k)) {
        assert forall|i: int| 0 <= i < 9 && #[trigger] col_of(d, k)[i] != 0 implies col_of(e, k)[i]
            == col_of(d, k)[i] by {
            assert(d[9 * i + k] != 0);
        }
        lemma_unit_stays_spoilt(col_of(d, k), col_of(e, k));
    } else {
        let br = r / 3;
        let bc = k / 3;
        assert forall|i: int| 0 <= i < 9 && #[trigger] box_of(d, br, bc)[i] != 0 implies box_of(
            e,
            br,
            bc,
        )[i] == box_of(d, br, bc)[i] by {
            let x = 9 * (3 * br + i / 3) + 3 * bc + i % 3;
            assert(0 <= x < 81);
            assert(d[x] != 0);
        }
        lemma_unit_stays_spoilt(box_of(d, br, bc), box_of(e, br, bc));
    }
}

/// A pass that has yet to reach an open cell with a spoilt unit stops at an unsolvable cell,
/// at that cell or before it.
proof fn lemma_spoilt_stops_pass(b: Seq<CellView>, from: int, p: int)
    requires
        board_wf(b),
        0 <= from <= p < 81,
        b[p].digit == 0,
        spoilt_at(board_digits(b), p),
    ensures
        sweep(b, from).stuck,
    decreases p - from,
{
    if from == p {
        let keep = legal_at(board_digits(b), p);
        let kept = b[p].candidates.filter(keep);
        lemma_filter_facts(b[p].candidates, keep);
        assert(b[p].wf());
        if kept.len() > 0 {
            assert(kept.contains(kept[0]));
            assert(b[p].candidates.contains(kept[0]) && keep(kept[0]));
            let i = choose|i: int| 0 <= i < b[p].candidates.len() && b[p].candidates[i] == kept[0];
            assert(1 <= b[p].candidates[i] <= 9);
        }
    } else {
        match step_cell(b, from) {
            None => {},
            Some(c) => {
                lemma_step_cell(b, from);
                lemma_stays_spoilt(b, from, c, p);
                lemma_spoilt_stops_pass(b.update(from, c), from + 1, p);
            },
        }
    }
}

/// A contradiction in plain sight stops the pass: if some row, column or box holds a digit
/// twice and has an open cell, the pass ends at an unsolvable cell.
pub proof fn law_duplicate_stops_pass(b: Seq<CellView>, p: int)
    requires
        board_wf(b),
        0 <= p < 81,
        b[p].digit == 0,
        spoilt_at(board_digits(b), p),
    ensures
        sweep(b, 0).stuck,
        settle(b).stuck,
{
    lemma_spoilt_stops_pass(b, 0, p);
}

/// Filling a blank place of a clean unit keeps the unit clean exactly when the unit did not
/// hold the digit.
proof fn lemma_unit_filled(u: Seq<nat>, k: int, v: nat)
    requires
        u.len() == 9,
        0 <= k < 9,
        u[k] == 0,
        v != 0,
        unit_clean(u),
    ensures
        unit_clean(u.update(k, v)) <==> !u.contains(v),
{
    let w = u.update(k, v);
    if u.contains(v) {
        let i = choose|i: int| 0 <= i < u.len() && u[i] == v;
        assert(w[i] == v && w[k] == v && i != k);
        if i < k {
            assert(w[i] != 0 && w[i] == w[k]);
        } else {
            assert(w[k] != 0 && w[k] == w[i]);
        }
    } else {
        assert forall|i: int, j: int| 0 <= i < j < 9 && w[i] != 0 implies w[i] != w[j] by {
            if i != k && j != k {
                assert(u[i] != u[j]);
            } else if i == k {
                assert(u[j] != v);
            } else {
                assert(u[i] != v);
            }
        }
    }
}

/// On a valid grid, a digit is legal at a blank place exactly when the grid with the digit
/// written there is valid again.
pub proof fn law_legal_keeps_valid(g: Seq<nat>, p: int, v: nat)
    requires
        grid_shape(g),
        grid_valid(g),
        0 <= p < 81,
        g[p] == 0,
        1 <= v <= 9,
    ensures
        legal(g, v, p / 9, p % 9) <==> grid_valid(g.update(p, v)),
{
    let h = g.update(p, v);
    let r = p / 9;
    let c = p % 9;
    let br = r / 3;
    let bc = c / 3;
    let k = 3 * (r % 3) + c % 3;
    assert(9 * r + c == p);
    assert(k / 3 == r % 3 && k % 3 == c % 3);
    assert(9 * (3 * br + k / 3) + 3 * bc + k % 3 == p);
    assert(unit_clean(row_of(g, r)));
    assert(unit_clean(col_of(g, c)));
    assert(unit_clean(box_of(g, br, bc)));
    assert(row_of(h, r) =~= row_of(g, r).update(c, v));
    assert(col_of(h, c) =~= col_of(g, c).update(r, v));
    assert(box_of(h, br, bc) =~= box_of(g, br, bc).update(k, v)) by {
        assert forall|i: int| 0 <= i < 9 implies box_of(h, br, bc)[i] == box_of(g, br, bc).update(
            k,
            v,
        )[i] by {
            let x = 9 * (3 * br + i / 3) + 3 * bc + i % 3;
            assert(x == p <==> i == k);
        }
    }
    lemma_unit_filled(row_of(g, r), c, v);
    lemma_unit_filled(col_of(g, c), r, v);
    lemma_unit_filled(box_of(g, br, bc), k, v);
    if legal(g, v, r, c) {
        assert forall|x: int| 0 <= x < 9 implies unit_clean(#[trigger] row_of(h, x)) by {
            if x != r {
                assert(row_of(h, x) =~= row_of(g, x));
            }
        }
        assert forall|x: int| 0 <= x < 9 implies unit_clean(#[trigger] col_of(h, x)) by {
            if x != c {
                assert(col_of(h, x) =~= col_of(g, x));
            }
        }
        assert forall|x: int, y: int| 0 <= x < 3 && 0 <= y < 3 implies unit_clean(
            #[trigger] box_of(h, x, y),
        ) by {
            if x != br || y != bc {
                assert forall|i: int| 0 <= i < 9 implies box_of(h, x, y)[i] == box_of(
                    g,
                    x,
                    y,
                )[i] by {
                    let z = 9 * (3 * x + i / 3) + 3 * y + i % 3;
                    assert(z / 9 == 3 * x + i / 3 && z % 9 == 3 * y + i % 3);
                    assert(z != p);
                }
                assert(box_of(h, x, y) =~= box_of(g, x, y));
            }
        }
    }
    if grid_valid(h) {
        assert(unit_clean(row_of(h, r)));
        assert(unit_clean(col_of(h, c)));
        assert(unit_clean(box_of(h, br, bc)));
    }
}

/// A pass keeps a valid board valid, from whichever place it starts.
proof fn lemma_sweep_keeps_valid(b: Seq<CellView>, from: int)
    requires
        board_wf(b),
        grid_valid(board_digits(b)),
        0 <= from <= 81,
    ensures
        grid_valid(board_digits(sweep(b, from).board)),
    decreases 81 - from,
{
    if from < 81 {
        match step_cell(b, from) {
            None => {},
            Some(c) => {
                let next = b.update(from, c);
                let d = board_digits(b);
                lemma_step_cell(b, from);
                assert(b[from].wf());
                if c.digit == b[from].digit {
                    assert(board_digits(next) =~= d);
                } else {
                    let keep = legal_at(d, from);
                    let kept = b[from].candidates.filter(keep);
                    lemma_filter_facts(b[from].candidates, keep);
                    assert(kept.contains(kept[0]));
                    assert(keep(kept[0]));
                    assert(c.wf());
                    assert forall|x: int| 0 <= x < 81 implies #[trigger] d[x] <= 9 by {
                        assert(b[x].wf());
                    }
                    law_legal_keeps_valid(d, from, kept[0]);
                    assert(board_digits(next) =~= d.update(from, kept[0]));
                }
                lemma_sweep_keeps_valid(next, from + 1);
            },
        }
    }
}

/// Passes repeated until rest keep a valid board valid.
proof fn lemma_settle_keeps_valid(b: Seq<CellView>)
    requires
        board_wf(b),
        grid_valid(board_digits(b)),
    ensures
        grid_valid(board_digits(settle(b).board)),
    decreases slack(b),
{
    lemma_sweep_facts(b, 0);
    lemma_sweep_keeps_valid(b, 0);
    let pass = sweep(b, 0);
    if !pass.stuck && pass.board != b {
        lemma_settle_keeps_valid(pass.board);
    }
}

/// Elimination keeps a valid board valid: whatever digits a pass places, no row, column or
/// box comes to hold a digit twice, whether the pass runs to the end or stops at an unsolvable
/// cell.
pub proof fn law_pass_keeps_valid(b: Seq<CellView>)
    requires
        board_wf(b),
        grid_valid(board_digits(b)),
    ensures
        grid_valid(board_digits(sweep(b, 0).board)),
        grid_valid(board_digits(settle(b).board)),
{
    lemma_sweep_keeps_valid(b, 0);
    lemma_settle_keeps_valid(b);
}

} // verus!
