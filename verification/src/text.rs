//! The text form of a puzzle: eighty-one characters in row-major order, `1` to `9` for the
//! digits and `.` for a blank.
use crate::cell::CellView;
use vstd::prelude::*;

verus! {

/// The digit a character stands for, with 0 for the blank marker; `None` for any other
/// character.
pub open spec fn glyph_digit(c: char) -> Option<nat> {
    if c == '.' {
        Some(0)
    } else if c == '1' {
        Some(1)
    } else if c == '2' {
        Some(2)
    } else if c == '3' {
        Some(3)
    } else if c == '4' {
        Some(4)
    } else if c == '5' {
        Some(5)
    } else if c == '6' {
        Some(6)
    } else if c == '7' {
        Some(7)
    } else if c == '8' {
        Some(8)
    } else if c == '9' {
        Some(9)
    } else {
        None
    }
}

/// The character that stands for a digit, and the blank marker for 0.
pub open spec fn digit_glyph(d: nat) -> char {
    if d == 1 {
        '1'
    } else if d == 2 {
        '2'
    } else if d == 3 {
        '3'
    } else if d == 4 {
        '4'
    } else if d == 5 {
        '5'
    } else if d == 6 {
        '6'
    } else if d == 7 {
        '7'
    } else if d == 8 {
        '8'
    } else if d == 9 {
        '9'
    } else {
        '.'
    }
}

/// Eighty-one characters, each a digit from `1` to `9` or the blank marker.
pub open spec fn is_puzzle_text(s: Seq<char>) -> bool {
    &&& s.len() == 81
    &&& forall|p: int| 0 <= p < 81 ==> glyph_digit(#[trigger] s[p]) is Some
}

/// The grid that a puzzle text spells.
pub open spec fn text_digits(s: Seq<char>) -> Seq<nat> {
    Seq::new(81, |p: int| glyph_digit(s[p]).unwrap())
}

/// The text that spells a grid.
pub open spec fn digits_text(g: Seq<nat>) -> Seq<char> {
    Seq::new(81, |p: int| digit_glyph(g[p]))
}

/// The digits from 1 to 9 in ascending order: the candidates of a cell of which nothing is
/// known.
pub open spec fn all_digits() -> Seq<nat> {
    seq![1, 2, 3, 4, 5, 6, 7, 8, 9]
}

/// The cell a puzzle starts with at a place that shows `d`: the digit itself, or for a blank
/// an open cell with every digit as a candidate.
pub open spec fn fresh_cell(d: nat) -> CellView {
    if d == 0 {
        CellView::open(all_digits())
    } else {
        CellView::solved(d)
    }
}

/// The board a puzzle starts with, given the grid its text spells.
pub open spec fn fresh_board(g: Seq<nat>) -> Seq<CellView> {
    Seq::new(81, |p: int| fresh_cell(g[p]))
}

/// The digit a character stands for, with 0 for the blank marker.
pub(crate) fn glyph_value(c: char) -> (r: Option<usize>)
    ensures
        match r {
            Some(d) => glyph_digit(c) == Some(d as nat),
            None => glyph_digit(c) is None,
        },
{
    if c == '.' {
        Some(0)
    } else if c == '1' {
        Some(1)
    } else if c == '2' {
        Some(2)
    } else if c == '3' {
        Some(3)
    } else if c == '4' {
        Some(4)
    } else if c == '5' {
        Some(5)
    } else if c == '6' {
        Some(6)
    } else if c == '7' {
        Some(7)
    } else if c == '8' {
        Some(8)
    } else if c == '9' {
        Some(9)
    } else {
        None
    }
}

/// The one-character text that stands for a digit, and the blank marker for 0.
pub(crate) fn value_glyph(d: usize) -> (r: &'static str)
    ensures
        r@ == seq![digit_glyph(d as nat)],
{
    proof {
        reveal_strlit(".");
        reveal_strlit("1");
        reveal_strlit("2");
        reveal_strlit("3");
        reveal_strlit("4");
        reveal_strlit("5");
        reveal_strlit("6");
        reveal_strlit("7");
        reveal_strlit("8");
        reveal_strlit("9");
    }
    let r = if d == 1 {
        "1"
    } else if d == 2 {
        "2"
    } else if d == 3 {
        "3"
    } else if d == 4 {
        "4"
    } else if d == 5 {
        "5"
    } else if d == 6 {
        "6"
    } else if d == 7 {
        "7"
    } else if d == 8 {
        "8"
    } else if d == 9 {
        "9"
    } else {
        "."
    };
    assert(r@ =~= seq![digit_glyph(d as nat)]);
    r
}

/// Writing a grid as text and reading the text back gives the grid again.
pub proof fn lemma_digits_round_trip(g: Seq<nat>)
    requires
        g.len() == 81,
        forall|p: int| 0 <= p < 81 ==> #[trigger] g[p] <= 9,
    ensures
        is_puzzle_text(digits_text(g)),
        text_digits(digits_text(g)) == g,
{
    assert forall|p: int| 0 <= p < 81 implies glyph_digit(#[trigger] digits_text(g)[p])
        == Some(g[p]) by {
        assert(g[p] <= 9);
    }
    assert(text_digits(digits_text(g)) =~= g);
}

/// Reading a puzzle text and writing the grid back as text gives the text again.
pub proof fn lemma_text_round_trip(s: Seq<char>)
    requires
        is_puzzle_text(s),
    ensures
        digits_text(text_digits(s)) == s,
{
    assert forall|p: int| 0 <= p < 81 implies digit_glyph(text_digits(s)[p]) == s[p] by {
        assert(glyph_digit(s[p]) is Some);
    }
    assert(digits_text(text_digits(s)) =~= s);
}

} // verus!
