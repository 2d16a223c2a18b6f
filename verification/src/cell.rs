//! A single cell of the board: a digit, or the list of digits it may still take.
use crate::error::SudokuError;
use vstd::prelude::*;

verus! {

/// The mathematical content of a cell.
///
/// `digit` is the digit the cell holds, or 0 while the cell is open; `candidates` lists, in
/// order, the digits an open cell may still take.
pub struct CellView {
    pub digit: nat,
    pub candidates: Seq<nat>,
}

impl CellView {
    /// A cell holds a digit from 1 to 9 and no candidates, or no digit and a duplicate-free
    /// list of at most nine candidates from 1 to 9. An open cell without candidates is allowed:
    /// it is the contradictory state that [`OptionVector::solve`] reports.
    pub open spec fn wf(self) -> bool {
        &&& self.digit <= 9
        &&& self.digit != 0 ==> self.candidates.len() == 0
        &&& self.candidates.len() <= 9
        &&& forall|i: int|
            0 <= i < self.candidates.len() ==> 1 <= #[trigger] self.candidates[i] <= 9
        &&& self.candidates.no_duplicates()
    }

    /// The cell that holds `digit`.
    pub open spec fn solved(digit: nat) -> CellView {
        CellView { digit, candidates: Seq::empty() }
    }

    /// The open cell with the given candidates.
    pub open spec fn open(candidates: Seq<nat>) -> CellView {
        CellView { digit: 0, candidates }
    }

    /// The cell after `value` is struck from its candidates: unchanged if the cell holds a
    /// digit or does not list `value`, and otherwise the same list without that entry.
    pub open spec fn without(self, value: nat) -> CellView {
        if self.digit == 0 && self.candidates.contains(value) {
            CellView::open(self.candidates.remove(self.candidates.index_of(value)))
        } else {
            self
        }
    }

    /// The cell after an attempt to settle it: an open cell with a single candidate takes that
    /// candidate as its digit, an open cell without candidates cannot be settled (`None`), and
    /// every other cell stays as it is.
    pub open spec fn forced(self) -> Option<CellView> {
        if self.digit != 0 || self.candidates.len() > 1 {
            Some(self)
        } else if self.candidates.len() == 1 {
            Some(CellView::solved(self.candidates[0]))
        } else {
            None
        }
    }

    /// The cell after `value` is imposed on it: an open cell takes `value` and drops its
    /// candidates, a cell that holds a digit keeps it.
    pub open spec fn assigned(self, value: nat) -> CellView {
        if self.digit == 0 {
            CellView::solved(value)
        } else {
            self
        }
    }
}

/// The array `a` spells the list `s`: the entries of `s`, all from 1 to 9, followed by zeros.
pub open spec fn spells(a: Seq<usize>, s: Seq<nat>) -> bool {
    &&& a.len() == 9
    &&& s.len() <= 9
    &&& forall|i: int|
        #![trigger a[i]]
        #![trigger s[i]]
        0 <= i < 9 ==> if i < s.len() {
            1 <= a[i] <= 9 && a[i] == s[i]
        } else {
            a[i] == 0
        }
}

/// An array spells at most one list.
pub proof fn lemma_spells_unique(a: Seq<usize>, s: Seq<nat>, t: Seq<nat>)
    requires
        spells(a, s),
        spells(a, t),
    ensures
        s == t,
{
    if s.len() < t.len() {
        assert(a[s.len() as int] == t[s.len() as int]);
    }
    if t.len() < s.len() {
        assert(a[t.len() as int] == s[t.len() as int]);
    }
}

/// A cell of the board.
///
/// `solved` is the digit the cell holds, or 0 while it is open. `options` spells the candidates
/// of an open cell, packed to the front and followed by zeros.
#[derive(Clone, Copy, Debug)]
pub struct OptionVector {
    solved: usize,
    options: [usize; 9],
}

impl View for OptionVector {
    type V = CellView;

    closed spec fn view(&self) -> CellView {
        CellView {
            digit: self.solved as nat,
            candidates: choose|s: Seq<nat>| spells(self.options@, s),
        }
    }
}

impl OptionVector {
    /// The representation is sound: `options` spells a list, and the cell it describes is
    /// well formed.
    pub closed spec fn wf(&self) -> bool {
        &&& exists|s: Seq<nat>| spells(self.options@, s)
        &&& self@.wf()
    }

    /// A well-formed cell describes a well-formed [`CellView`].
    pub proof fn lemma_wf_view(&self)
        requires
            self.wf(),
        ensures
            self@.wf(),
    {
    }

    /// The candidates of a well-formed cell are the list its array spells.
    proof fn lemma_spelled(&self)
        requires
            self.wf(),
        ensures
            spells(self.options@, self@.candidates),
    {
    }

    /// A list that the array of a cell spells is the list of its candidates.
    proof fn lemma_candidates(&self, s: Seq<nat>)
        requires
            spells(self.options@, s),
        ensures
            self@.candidates == s,
    {
        lemma_spells_unique(self.options@, s, self@.candidates);
    }

    /// A cell that holds `solved`.
    pub fn new_solved(solved: usize) -> (cell: OptionVector)
        requires
            1 <= solved <= 9,
        ensures
            cell.wf(),
            cell@ == CellView::solved(solved as nat),
    {
        let cell = OptionVector { solved: solved, options: [0; 9] };
        proof {
            assert(spells(cell.options@, Seq::<nat>::empty()));
            cell.lemma_candidates(Seq::empty());
        }
        cell
    }

    /// An open cell whose candidates are those that `options` spells.
    pub fn new_unsolved(options: [usize; 9]) -> (cell: OptionVector)
        requires
            exists|s: Seq<nat>| spells(options@, s) && s.no_duplicates(),
        ensures
            cell.wf(),
            cell@.digit == 0,
            spells(options@, cell@.candidates),
    {
        let cell = OptionVector { solved: 0, options: options };
        proof {
            let s = choose|s: Seq<nat>| spells(options@, s) && s.no_duplicates();
            cell.lemma_candidates(s);
        }
        cell
    }

    /// Whether the cell holds a digit.
    pub fn is_solved(&self) -> (r: bool)
        ensures
            r == (self@.digit != 0),
    {
        self.solved != 0
    }

    /// The digit the cell holds, or 0 while it is open.
    pub fn value(&self) -> (d: usize)
        ensures
            d == self@.digit,
    {
        self.solved
    }

    /// The candidate at place `k` of the list, or 0 past its end.
    pub fn option(&self, k: usize) -> (d: usize)
        requires
            self.wf(),
        ensures
            k < self@.candidates.len() ==> d == self@.candidates[k as int],
            k >= self@.candidates.len() ==> d == 0,
    {
        if k < 9 {
            self.options[k]
        } else {
            0
        }
    }

    /// Strikes `value` from the candidates, keeping the others in their order. A cell that
    /// holds a digit, or that does not list `value`, is left as it is.
    pub fn remove_option(&mut self, value: usize)
        requires
            old(self).wf(),
        ensures
            final(self).wf(),
            final(self)@ == old(self)@.without(value as nat),
    {
        if self.solved != 0 {
            return ;
        }
        let ghost entry = *self;
        let ghost s = self@.candidates;
        proof {
            self.lemma_spelled();
        }
        let mut i: usize = 0;
        while i < 9 && self.options[i] != 0 && self.options[i] != value
            invariant
                i <= 9,
                *self == entry,
                spells(self.options@, s),
                forall|j: int| 0 <= j < i ==> j < s.len() && s[j] != value,
            decreases 9 - i,
        {
            i += 1;
        }
        if i == 9 || self.options[i] == 0 {
            return ;
        }
        let ghost k = i as int;
        let mut opts = self.options;
        while i < 8 && opts[i + 1] != 0
            invariant
                0 <= k <= i < s.len(),
                spells(entry.options@, s),
                forall|j: int| 0 <= j < k ==> opts[j] == s[j],
                forall|j: int| k <= j < i ==> opts[j] == s[j + 1],
                forall|j: int| i <= j < 9 ==> opts[j] == entry.options[j],
            decreases 8 - i,
        {
            opts[i] = opts[i + 1];
            i += 1;
        }
        opts[i] = 0;
        self.options = opts;
        proof {
            let t = s.remove(k);
            let a = self.options@;
            assert forall|j: int| 0 <= j < 9 implies if j < t.len() {
                1 <= #[trigger] a[j] <= 9 && a[j] == t[j]
            } else {
                a[j] == 0
            } by {
                if j < k {
                    assert(t[j] == s[j]);
                }
            }
            assert(spells(a, t));
            self.lemma_candidates(t);
            assert(t.no_duplicates());
        }
    }

    /// Settles the cell if it can be settled: an open cell with exactly one candidate takes it
    /// as its digit. An open cell without candidates is reported as unsolvable; every other
    /// cell is left as it is.
    pub fn solve(&mut self) -> (r: Result<(), SudokuError>)
        requires
            old(self).wf(),
        ensures
            final(self).wf(),
            match old(self)@.forced() {
                Some(cell) => r == Ok::<(), SudokuError>(()) && final(self)@ == cell,
                None => r == Err::<(), SudokuError>(SudokuError::UnsolvableCell) && final(self)@
                    == old(self)@,
            },
    {
        let ghost s = self@.candidates;
        proof {
            self.lemma_spelled();
        }
        if self.solved == 0 && self.options[1] == 0 {
            if self.options[0] == 0 {
                return Err(SudokuError::UnsolvableCell);
            }
            self.solved = self.options[0];
            self.options[0] = 0;
            proof {
                assert(spells(self.options@, Seq::<nat>::empty()));
                self.lemma_candidates(Seq::empty());
            }
        }
        Ok(())
    }

    /// Imposes `value` on an open cell, which drops its candidates. A cell that holds a digit
    /// keeps it.
    pub fn set_option(&mut self, value: usize)
        requires
            old(self).wf(),
            1 <= value <= 9,
        ensures
            final(self).wf(),
            final(self)@ == old(self)@.assigned(value as nat),
    {
        if self.solved != 0 {
            return ;
        }
        self.solved = value;
        self.options = [0;9];
        proof {
            assert(spells(self.options@, Seq::<nat>::empty()));
            self.lemma_candidates(Seq::empty());
        }
    }

    /// Whether two cells agree in digit and in candidates.
    pub fn same(&self, other: &OptionVector) -> (r: bool)
        requires
            self.wf(),
            other.wf(),
        ensures
            r == (self@ == other@),
    {
        if self.solved != other.solved {
            return false;
        }
        proof {
            self.lemma_spelled();
            other.lemma_spelled();
        }
        let mut i: usize = 0;
        while i < 9
            invariant
                i <= 9,
                spells(self.options@, self@.candidates),
                spells(other.options@, other@.candidates),
                forall|j: int| 0 <= j < i ==> self.options[j] == other.options[j],
            decreases 9 - i,
        {
            if self.options[i] != other.options[i] {
                return false;
            }
            i += 1;
        }
        proof {
            assert(self.options@ =~= other.options@);
        }
        true
    }
}

/// Two cells are equal when they hold the same digit or are both open, whatever candidates
/// they list.
impl PartialEq for OptionVector {
    fn eq(&self, other: &OptionVector) -> (r: bool) {
        self.solved == other.solved
    }
}

impl Eq for OptionVector {

}

impl vstd::std_specs::cmp::PartialEqSpecImpl for OptionVector {
    open spec fn obeys_eq_spec() -> bool {
        true
    }

    open spec fn eq_spec(&self, other: &OptionVector) -> bool {
        self@.digit == other@.digit
    }
}

} // verus!
