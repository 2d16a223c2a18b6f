//! The grid of digits, its rows, columns and boxes, and what it means for a grid to be valid.
//!
//! A grid is a sequence of eighty-one digits in row-major order; 0 stands for a blank. The cell
//! in row `r` and column `c` sits at place `9 * r + c`.
use crate::cell::CellView;
use vstd::prelude::*;

verus! {

/// The nine digits of row `r`, left to right.
pub open spec fn row_of(g: Seq<nat>, r: int) -> Seq<nat> {
    Seq::new(9, |k: int| g[9 * r + k])
}

/// The nine digits of column `c`, top to bottom.
pub open spec fn col_of(g: Seq<nat>, c: int) -> Seq<nat> {
    Seq::new(9, |k: int| g[9 * k + c])
}

/// The nine digits of the box in band `br` and stack `bc` (each from 0 to 2), row by row.
pub open spec fn box_of(g: Seq<nat>, br: int, bc: int) -> Seq<nat> {
    Seq::new(9, |k: int| g[9 * (3 * br + k / 3) + 3 * bc + k % 3])
}

/// No digit occurs twice in the unit; blanks do not count.
pub open spec fn unit_clean(u: Seq<nat>) -> bool {
    forall|i: int, j: int| 0 <= i < j < u.len() && u[i] != 0 ==> u[i] != u[j]
}

/// The unit leaves room for `v`: it holds no digit twice and does not hold `v`. A blank `v`
/// is always admitted.
pub open spec fn unit_admits(u: Seq<nat>, v: nat) -> bool {
    v == 0 || (unit_clean(u) && !u.contains(v))
}

/// Eighty-one entries, each a digit or a blank.
pub open spec fn grid_shape(g: Seq<nat>) -> bool {
    &&& g.len() == 81
    &&& forall|p: int| 0 <= p < 81 ==> #[trigger] g[p] <= 9
}

/// No row, column or box holds a digit twice.
pub open spec fn grid_valid(g: Seq<nat>) -> bool {
    &&& forall|r: int| 0 <= r < 9 ==> unit_clean(#[trigger] row_of(g, r))
    &&& forall|c: int| 0 <= c < 9 ==> unit_clean(#[trigger] col_of(g, c))
    &&& forall|br: int, bc: int|
        0 <= br < 3 && 0 <= bc < 3 ==> unit_clean(#[trigger] box_of(g, br, bc))
}

/// No entry is blank.
pub open spec fn grid_complete(g: Seq<nat>) -> bool {
    forall|p: int| 0 <= p < g.len() ==> #[trigger] g[p] != 0
}

/// The cell in row `r` and column `c` is blank, and its row, its column and its box each
/// leave room for `v`.
pub open spec fn legal(g: Seq<nat>, v: nat, r: int, c: int) -> bool {
    &&& g[9 * r + c] == 0
    &&& unit_admits(row_of(g, r), v)
    &&& unit_admits(col_of(g, c), v)
    &&& unit_admits(box_of(g, r / 3, c / 3), v)
}

/// A finished puzzle: a grid of the right shape without blanks in which no row, column or
/// box holds a digit twice.
pub open spec fn is_solution(g: Seq<nat>) -> bool {
    &&& grid_shape(g)
    &&& grid_complete(g)
    &&& grid_valid(g)
}

/// Eighty-one well-formed cells.
pub open spec fn board_wf(b: Seq<CellView>) -> bool {
    &&& b.len() == 81
    &&& forall|p: int| 0 <= p < 81 ==> (#[trigger] b[p]).wf()
}

/// The digits that the cells of a board hold, with 0 for each open cell.
pub open spec fn board_digits(b: Seq<CellView>) -> Seq<nat> {
    Seq::new(b.len(), |p: int| b[p].digit)
}

/// The grid `g` fills the board `b`: it repeats every digit the board holds and gives each
/// open cell one of its candidates.
pub open spec fn fits(g: Seq<nat>, b: Seq<CellView>) -> bool {
    forall|p: int|
        0 <= p < 81 ==> if (#[trigger] b[p]).digit != 0 {
            g[p] == b[p].digit
        } else {
            b[p].candidates.contains(g[p])
        }
}

/// The grid `g` is a finished puzzle that fills the board `b`.
pub open spec fn completes(g: Seq<nat>, b: Seq<CellView>) -> bool {
    is_solution(g) && fits(g, b)
}

/// The digits of a unit held in an array.
pub open spec fn unit_view(u: [usize; 9]) -> Seq<nat> {
    Seq::new(9, |k: int| u[k] as nat)
}

/// Marks the digits that occur in a unit, or finds that one occurs twice.
///
/// The result is `None` when the unit holds a digit twice. Otherwise entry `d - 1` of the
/// array tells whether the digit `d` occurs.
pub(crate) fn digits_seen(u: &[usize; 9]) -> (r: Option<[bool; 9]>)
    requires
        forall|k: int| 0 <= k < 9 ==> u[k] <= 9,
    ensures
        r is Some <==> unit_clean(unit_view(*u)),
        r matches Some(seen) ==> forall|d: int|
            1 <= d <= 9 ==> (#[trigger] seen[d - 1] <==> unit_view(*u).contains(d as nat)),
{
    let ghost s = unit_view(*u);
    let mut seen = [false;9];
    let mut k: usize = 0;
    while k < 9
        invariant
            k <= 9,
            s == unit_view(*u),
            forall|i: int| 0 <= i < 9 ==> u[i] <= 9,
            forall|i: int, j: int| 0 <= i < j < k && s[i] != 0 ==> s[i] != s[j],
            forall|i: int| 0 <= i < k && s[i] != 0 ==> seen[s[i] - 1],
            forall|e: int| 0 <= e < 9 && seen[e] ==> exists|i: int| 0 <= i < k && s[i] == e + 1,
        decreases 9 - k,
    {
        let d = u[k];
        assert(s[k as int] == d);
        if d != 0 {
            if seen[d - 1] {
                proof {
                    let i = choose|i: int| 0 <= i < k && s[i] == (d - 1) + 1;
                    assert(s[i] != 0 && s[i] == s[k as int]);
                }
                return None;
            }
            seen[d - 1] = true;
        }
        k += 1;
    }
    proof {
        assert forall|d: int| 1 <= d <= 9 implies (#[trigger] seen[d - 1] <==> s.contains(
            d as nat,
        )) by {
            if s.contains(d as nat) {
                let i = choose|i: int| 0 <= i < s.len() && s[i] == d as nat;
                assert(seen[s[i] - 1]);
            }
        }
    }
    Some(seen)
}

/// Whether a unit leaves room for `value`.
pub(crate) fn unit_allows(u: &[usize; 9], value: usize) -> (r: bool)
    requires
        forall|k: int| 0 <= k < 9 ==> u[k] <= 9,
        value <= 9,
    ensures
        r == unit_admits(unit_view(*u), value as nat),
{
    if value == 0 {
        return true;
    }
    match digits_seen(u) {
        None => false,
        Some(seen) => !seen[value - 1],
    }
}

} // verus!
