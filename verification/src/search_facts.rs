//! Why the search finds every solution, finds nothing else, and comes to an end.
use crate::board::Sudoku;
use crate::cell::CellView;
use crate::grid::{
    board_digits, board_wf, completes, fits, grid_complete, grid_shape, grid_valid,
};
use crate::pass_facts::{
    keeps_digits, lemma_settle_adds_no_solution, lemma_settle_facts, lemma_settle_keeps_solution,
};
use crate::propagate::settle;
use crate::search::{
    agrees, branch_of, branches, child, covered, distinct, grown, load, open_cells, open_upto,
    pending, shows, sound, tree_bound,
};
use vstd::prelude::*;

verus! {

/// A grid that fills a board repeats the digits of the board.
pub proof fn lemma_fits_agrees(g: Seq<nat>, b: Seq<CellView>)
    requires
        b.len() == 81,
        fits(g, b),
    ensures
        agrees(g, board_digits(b)),
{
    assert forall|p: int| 0 <= p < 81 && #[trigger] board_digits(b)[p] != 0 implies g[p]
        == board_digits(b)[p] by {
        assert(b[p].digit != 0);
    }
}

/// A board without open cells is filled by the grid of its own digits and by no other.
pub proof fn lemma_full_board(b: Seq<CellView>)
    requires
        board_wf(b),
        grid_complete(board_digits(b)),
    ensures
        fits(board_digits(b), b),
        grid_shape(board_digits(b)),
        forall|g: Seq<nat>| #[trigger] completes(g, b) ==> g == board_digits(b),
{
    let d = board_digits(b);
    assert forall|p: int| 0 <= p < 81 implies (#[trigger] b[p]).digit != 0 && d[p] <= 9 by {
        assert(d[p] != 0);
        assert(b[p].wf());
    }
    assert forall|g: Seq<nat>| #[trigger] completes(g, b) implies g == d by {
        assert forall|p: int| 0 <= p < 81 implies g[p] == d[p] by {
            assert(b[p].digit != 0);
        }
        assert(g =~= d);
    }
}

/// A board that keeps the digits of another has no more open cells.
pub proof fn lemma_open_upto_kept(before: Seq<CellView>, after: Seq<CellView>, n: int)
    requires
        keeps_digits(before, after),
        0 <= n <= 81,
    ensures
        open_upto(after, n) <= open_upto(before, n),
    decreases n,
{
    if n > 0 {
        lemma_open_upto_kept(before, after, n - 1);
        assert(before[n - 1].digit != 0 ==> after[n - 1].digit != 0);
    }
}

/// Imposing a digit on an open cell leaves one open cell fewer.
pub proof fn lemma_open_upto_child(b: Seq<CellView>, q: int, v: nat, n: int)
    requires
        b.len() == 81,
        0 <= q < 81,
        b[q].digit == 0,
        v != 0,
        0 <= n <= 81,
    ensures
        open_upto(child(b, q, v), n) == if q < n {
            open_upto(b, n) - 1
        } else {
            open_upto(b, n) as int
        },
    decreases n,
{
    if n > 0 {
        lemma_open_upto_child(b, q, v, n - 1);
    }
}

/// More open cells allow for more boards.
pub proof fn lemma_tree_bound_grows(m: nat, n: nat)
    requires
        m <= n,
    ensures
        1 <= tree_bound(m) <= tree_bound(n),
    decreases n,
{
    if n > 0 {
        if m < n {
            lemma_tree_bound_grows(m, (n - 1) as nat);
        } else {
            lemma_tree_bound_grows((m - 1) as nat, (n - 1) as nat);
        }
    }
}

/// The board at the front of the frontier accounts for its own bound in the load.
pub proof fn lemma_load_pop(frontier: Seq<Sudoku>)
    requires
        frontier.len() > 0,
    ensures
        load(frontier) == tree_bound(open_cells(frontier[0]@)) + load(
            frontier.subrange(1, frontier.len() as int),
        ),
    decreases frontier.len(),
{
    let rest = frontier.subrange(1, frontier.len() as int);
    let front = frontier.drop_last();
    if frontier.len() == 1 {
        assert(load(front) == 0);
        assert(load(rest) == 0);
    } else {
        lemma_load_pop(front);
        assert(front.subrange(1, front.len() as int) =~= rest.drop_last());
        assert(rest.last() == frontier.last());
        assert(front[0] == frontier[0]);
        assert(load(rest) == load(rest.drop_last()) + tree_bound(open_cells(rest.last()@)));
    }
}

/// Boards that join the back of the frontier, each with a bound of at most `w`, add at most
/// `w` each to the load.
pub proof fn lemma_load_grown(before: Seq<Sudoku>, after: Seq<Sudoku>, w: nat)
    requires
        before.len() <= after.len(),
        after.take(before.len() as int) == before,
        forall|i: int|
            before.len() <= i < after.len() ==> tree_bound(open_cells((#[trigger] after[i])@))
                <= w,
    ensures
        load(after) <= load(before) + (after.len() - before.len()) * w,
    decreases after.len(),
{
    if after.len() == before.len() {
        assert(after =~= after.take(before.len() as int));
    } else {
        let shorter = after.drop_last();
        assert(shorter.take(before.len() as int) =~= after.take(before.len() as int));
        assert forall|i: int| before.len() <= i < shorter.len() implies tree_bound(
            open_cells((#[trigger] shorter[i])@),
        ) <= w by {
            assert(shorter[i] == after[i]);
        }
        lemma_load_grown(before, shorter, w);
        assert(tree_bound(open_cells(after[after.len() - 1]@)) <= w);
        assert((shorter.len() - before.len()) * w + w == (after.len() - before.len()) * w)
            by (nonlinear_arith)
            requires
                shorter.len() + 1 == after.len(),
        ;
    }
}

/// At the start the frontier holds the puzzle alone and nothing has been found.
pub proof fn lemma_start(s: Sudoku, frontier: Seq<Sudoku>, found: Seq<Sudoku>)
    requires
        s.wf(),
        frontier == seq![s],
        found == Seq::<Sudoku>::empty(),
    ensures
        branches(frontier, s@),
        sound(found, s@),
        distinct(found),
        covered(s@, frontier, found),
{
    s.lemma_wf_view();
    assert forall|g: Seq<nat>| #[trigger] completes(g, s@) implies agrees(g, board_digits(s@)) by {
        lemma_fits_agrees(g, s@);
    }
    assert(branch_of(s@, s@));
    assert forall|g: Seq<nat>| #[trigger] completes(g, s@) implies pending(frontier, g) by {
        assert(agrees(g, frontier[0].digits()));
    }
}

/// Taking the board at the front off the frontier leaves a frontier of branches.
proof fn lemma_rest_branches(root: Seq<CellView>, waiting: Seq<Sudoku>)
    requires
        waiting.len() > 0,
        branches(waiting, root),
    ensures
        branches(waiting.subrange(1, waiting.len() as int), root),
{
    let rest = waiting.subrange(1, waiting.len() as int);
    assert forall|i: int| 0 <= i < rest.len() implies (#[trigger] rest[i]).wf() && branch_of(
        rest[i]@,
        root,
    ) by {
        assert(rest[i] == waiting[i + 1]);
    }
}

/// A board at the front of the frontier that no finished puzzle fills can be dropped.
proof fn lemma_drop(root: Seq<CellView>, waiting: Seq<Sudoku>, known: Seq<Sudoku>)
    requires
        waiting.len() > 0,
        branches(waiting, root),
        covered(root, waiting, known),
        forall|g: Seq<nat>| !#[trigger] completes(g, waiting[0]@),
    ensures
        branches(waiting.subrange(1, waiting.len() as int), root),
        covered(root, waiting.subrange(1, waiting.len() as int), known),
        load(waiting.subrange(1, waiting.len() as int)) < load(waiting),
{
    let rest = waiting.subrange(1, waiting.len() as int);
    lemma_rest_branches(root, waiting);
    lemma_load_pop(waiting);
    lemma_tree_bound_grows(0, open_cells(waiting[0]@));
    assert forall|g: Seq<nat>| #[trigger] completes(g, root) implies pending(rest, g) || shows(
        known,
        g,
    ) by {
        if pending(waiting, g) {
            let i = choose|i: int|
                0 <= i < waiting.len() && agrees(g, (#[trigger] waiting[i]).digits());
            if i == 0 {
                assert(branch_of(waiting[0]@, root));
                assert(completes(g, waiting[0]@));
            } else {
                assert(rest[i - 1] == waiting[i]);
            }
        }
    }
}

/// A board on which elimination has run into an unsolvable cell can be dropped.
pub proof fn lemma_dead_end(root: Seq<CellView>, waiting: Seq<Sudoku>, known: Seq<Sudoku>)
    requires
        waiting.len() > 0,
        branches(waiting, root),
        covered(root, waiting, known),
        settle(waiting[0]@).stuck,
    ensures
        branches(waiting.subrange(1, waiting.len() as int), root),
        covered(root, waiting.subrange(1, waiting.len() as int), known),
        load(waiting.subrange(1, waiting.len() as int)) < load(waiting),
{
    waiting[0].lemma_wf_view();
    assert forall|g: Seq<nat>| !#[trigger] completes(g, waiting[0]@) by {
        if completes(g, waiting[0]@) {
            lemma_settle_keeps_solution(waiting[0]@, g);
        }
    }
    lemma_drop(root, waiting, known);
}

/// A board that elimination has filled, but with a digit twice in some row, column or box,
/// can be dropped.
pub proof fn lemma_spoilt(
    root: Seq<CellView>,
    waiting: Seq<Sudoku>,
    known: Seq<Sudoku>,
    board: Sudoku,
)
    requires
        waiting.len() > 0,
        branches(waiting, root),
        covered(root, waiting, known),
        board.wf(),
        board@ == settle(waiting[0]@).board,
        grid_complete(board.digits()),
        !grid_valid(board.digits()),
    ensures
        branches(waiting.subrange(1, waiting.len() as int), root),
        covered(root, waiting.subrange(1, waiting.len() as int), known),
        load(waiting.subrange(1, waiting.len() as int)) < load(waiting),
{
    waiting[0].lemma_wf_view();
    board.lemma_wf_view();
    lemma_full_board(board@);
    assert forall|g: Seq<nat>| !#[trigger] completes(g, waiting[0]@) by {
        if completes(g, waiting[0]@) {
            lemma_settle_keeps_solution(waiting[0]@, g);
            assert(completes(g, board@));
        }
    }
    lemma_drop(root, waiting, known);
}

/// A board that elimination has finished joins the boards found, unless one showing the
/// same digits is among them already.
pub proof fn lemma_finished(
    root: Seq<CellView>,
    waiting: Seq<Sudoku>,
    known: Seq<Sudoku>,
    board: Sudoku,
    found: Seq<Sudoku>,
)
    requires
        waiting.len() > 0,
        branches(waiting, root),
        sound(known, root),
        distinct(known),
        covered(root, waiting, known),
        board.wf(),
        board@ == settle(waiting[0]@).board,
        !settle(waiting[0]@).stuck,
        grid_complete(board.digits()),
        grid_valid(board.digits()),
        found == if shows(known, board.digits()) {
            known
        } else {
            known.push(board)
        },
    ensures
        branches(waiting.subrange(1, waiting.len() as int), root),
        sound(found, root),
        distinct(found),
        covered(root, waiting.subrange(1, waiting.len() as int), found),
        load(waiting.subrange(1, waiting.len() as int)) < load(waiting),
{
    let rest = waiting.subrange(1, waiting.len() as int);
    let d = board.digits();
    waiting[0].lemma_wf_view();
    board.lemma_wf_view();
    lemma_full_board(board@);
    lemma_rest_branches(root, waiting);
    lemma_load_pop(waiting);
    lemma_tree_bound_grows(0, open_cells(waiting[0]@));
    assert(completes(d, board@));
    lemma_settle_adds_no_solution(waiting[0]@, d);
    assert(branch_of(waiting[0]@, root));
    assert(completes(d, root));
    assert(shows(found, d)) by {
        if shows(known, d) {
        } else {
            assert(found[known.len() as int].digits() == d);
        }
    }
    assert forall|j: int| 0 <= j < found.len() implies (#[trigger] found[j]).wf() && completes(
        found[j].digits(),
        root,
    ) by {
        if j < known.len() {
            assert(found[j] == known[j]);
        }
    }
    assert forall|i: int, j: int| 0 <= i < j < found.len() implies (#[trigger] found[i]).digits()
        != (#[trigger] found[j]).digits() by {
        if j < known.len() {
            assert(found[i] == known[i] && found[j] == known[j]);
        } else {
            assert(found[i] == known[i]);
        }
    }
    assert forall|g: Seq<nat>| #[trigger] completes(g, root) implies pending(rest, g) || shows(
        found,
        g,
    ) by {
        if shows(known, g) {
            let j = choose|j: int| 0 <= j < known.len() && (#[trigger] known[j]).digits() == g;
            assert(found[j] == known[j]);
        } else {
            let i = choose|i: int|
                0 <= i < waiting.len() && agrees(g, (#[trigger] waiting[i]).digits());
            if i == 0 {
                assert(completes(g, waiting[0]@));
                lemma_settle_keeps_solution(waiting[0]@, g);
                assert(g == d);
            } else {
                assert(rest[i - 1] == waiting[i]);
            }
        }
    }
}

/// A board made by imposing a candidate on an open cell, after elimination has gone as far
/// as it goes on a branch of the puzzle, is again a branch of the puzzle.
pub proof fn lemma_child_is_branch(root: Seq<CellView>, b: Seq<CellView>, q: int, v: nat)
    requires
        board_wf(b),
        branch_of(b, root),
        !settle(b).stuck,
        0 <= q < 81,
        settle(b).board[q].digit == 0,
        settle(b).board[q].candidates.contains(v),
    ensures
        branch_of(child(settle(b).board, q, v), root),
{
    let s = settle(b).board;
    let c = child(s, q, v);
    lemma_settle_facts(b);
    assert(s[q].wf());
    assert(1 <= v <= 9);
    assert forall|g: Seq<nat>| completes(g, c) <==> completes(g, root) && agrees(
        g,
        board_digits(c),
    ) by {
        if completes(g, c) {
            lemma_fits_agrees(g, c);
            assert forall|p: int| 0 <= p < 81 implies if (#[trigger] s[p]).digit != 0 {
                g[p] == s[p].digit
            } else {
                s[p].candidates.contains(g[p])
            } by {
                if p == q {
                    assert(c[q].digit == v);
                } else {
                    assert(c[p] == s[p]);
                }
            }
            assert(completes(g, s));
            lemma_settle_adds_no_solution(b, g);
        }
        if completes(g, root) && agrees(g, board_digits(c)) {
            assert forall|p: int| 0 <= p < 81 && #[trigger] board_digits(b)[p] != 0 implies g[p]
                == board_digits(b)[p] by {
                assert(b[p].digit != 0);
                assert(s[p].digit == b[p].digit);
                assert(c[p] == s[p]);
                assert(board_digits(c)[p] == b[p].digit);
            }
            assert(agrees(g, board_digits(b)));
            assert(completes(g, b));
            lemma_settle_keeps_solution(b, g);
            assert forall|p: int| 0 <= p < 81 implies if (#[trigger] c[p]).digit != 0 {
                g[p] == c[p].digit
            } else {
                c[p].candidates.contains(g[p])
            } by {
                if p == q {
                    assert(board_digits(c)[q] == v);
                } else {
                    assert(c[p] == s[p]);
                }
            }
        }
    }
}

/// After a board has been branched on, the frontier again consists of branches of the
/// puzzle, every solution not yet found may still be reached from it, and its load is less
/// than it was before the board was taken off.
pub proof fn lemma_branched(
    root: Seq<CellView>,
    waiting: Seq<Sudoku>,
    known: Seq<Sudoku>,
    board: Sudoku,
    q: int,
    next: Seq<Sudoku>,
)
    requires
        waiting.len() > 0,
        branches(waiting, root),
        covered(root, waiting, known),
        board.wf(),
        board@ == settle(waiting[0]@).board,
        !settle(waiting[0]@).stuck,
        0 <= q < 81,
        board@[q].digit == 0,
        grown(board@, q, waiting.subrange(1, waiting.len() as int), next),
    ensures
        branches(next, root),
        covered(root, next, known),
        load(next) < load(waiting),
{
    let rest = waiting.subrange(1, waiting.len() as int);
    let b = waiting[0]@;
    let s = board@;
    let options = s[q].candidates;
    waiting[0].lemma_wf_view();
    board.lemma_wf_view();
    lemma_settle_facts(b);
    lemma_rest_branches(root, waiting);
    assert(s[q].wf());
    assert forall|i: int| 0 <= i < next.len() implies (#[trigger] next[i]).wf() && branch_of(
        next[i]@,
        root,
    ) by {
        if i < rest.len() {
            assert(next[i] == next.take(rest.len() as int)[i]);
        } else {
            let k = choose|k: int|
                0 <= k < options.len() && next[i]@ == child(s, q, #[trigger] options[k]);
            assert(options.contains(options[k]));
            lemma_child_is_branch(root, b, q, options[k]);
        }
    }
    assert forall|g: Seq<nat>| #[trigger] completes(g, root) implies pending(next, g) || shows(
        known,
        g,
    ) by {
        if !shows(known, g) {
            let i = choose|i: int|
                0 <= i < waiting.len() && agrees(g, (#[trigger] waiting[i]).digits());
            if i == 0 {
                assert(branch_of(b, root));
                assert(completes(g, b));
                lemma_settle_keeps_solution(b, g);
                assert(options.contains(g[q]));
                let k = choose|k: int| 0 <= k < options.len() && options[k] == g[q];
                let c = child(s, q, options[k]);
                assert(shows(next, board_digits(c)));
                let j = choose|j: int|
                    0 <= j < next.len() && (#[trigger] next[j]).digits() == board_digits(c);
                assert forall|p: int| 0 <= p < 81 && #[trigger] board_digits(c)[p] != 0 implies g[p]
                    == board_digits(c)[p] by {
                    if p != q {
                        assert(c[p] == s[p]);
                        assert(s[p].digit != 0);
                    }
                }
                assert(agrees(g, next[j].digits()));
            } else {
                assert(rest[i - 1] == waiting[i]);
                assert(next[i - 1] == next.take(rest.len() as int)[i - 1]);
                assert(agrees(g, next[i - 1].digits()));
            }
        }
    }
    let n = open_cells(s);
    lemma_open_upto_kept(b, s, 81);
    lemma_open_upto_child(s, q, 1, 81);
    assert(n >= 1);
    let w = tree_bound((n - 1) as nat);
    assert forall|i: int| rest.len() <= i < next.len() implies tree_bound(
        open_cells((#[trigger] next[i])@),
    ) <= w by {
        let k = choose|k: int|
            0 <= k < options.len() && next[i]@ == child(s, q, #[trigger] options[k]);
        lemma_open_upto_child(s, q, options[k], 81);
    }
    lemma_load_grown(rest, next, w);
    lemma_load_pop(waiting);
    lemma_tree_bound_grows(n, open_cells(b));
    assert((next.len() - rest.len()) * w <= 9 * w) by (nonlinear_arith)
        requires
            0 <= next.len() - rest.len() <= 9,
            0 <= w,
    ;
}

} // verus!
