//! The 9x9 board: 81 candidate cells, indexed flat by `row * 9 + col`.

use vstd::prelude::*;
use crate::cells::{
    Cell, SudokuError, count, diff_mask, full_mask, lemma_diff_has, lemma_full_has,
    lemma_single_has, mask_has, mask_wf, single_mask,
};
use crate::units::{col_of, lemma_row_col_of, row_of};

verus! {

/// A board is well formed when it has 81 cells, each with a well-formed
/// mask.
pub open spec fn board_wf(b: Seq<u16>) -> bool {
    b.len() == 81 && (forall|i: int| 0 <= i < 81 ==> mask_wf(#[trigger] b[i]))
}

/// The mask a clue value gives its cell: a singleton for 1..=9, the
/// full set for 0.
pub open spec fn clue_mask(v: u8) -> u16 {
    if 1 <= v <= 9 {
        single_mask(v as int)
    } else {
        full_mask()
    }
}

/// The clue value of flat cell `idx` in a 9x9 clue grid.
pub open spec fn clue_at(clues: [[u8; 9]; 9], idx: int) -> u8 {
    clues@[row_of(idx)]@[col_of(idx)]
}

/// A 9x9 grid of candidate sets.
pub struct Sudoku {
    cells: Vec<Cell>,
}

impl View for Sudoku {
    type V = Seq<u16>;

    closed spec fn view(&self) -> Seq<u16> {
        self.cells@.map_values(|c: Cell| c@)
    }
}

impl Sudoku {
    pub open spec fn wf(&self) -> bool {
        board_wf(self@)
    }

    /// Build a board from a grid of clues: 0 leaves a cell open, 1..=9
    /// fixes it. Any other value is the caller's error.
    pub fn new(clues: [[u8; 9]; 9]) -> (r: Result<Sudoku, SudokuError>)
        ensures
            r is Ok <==> (forall|idx: int| 0 <= idx < 81 ==> clue_at(clues, idx) <= 9),
            r matches Ok(s) ==> s.wf() && (forall|idx: int|
                0 <= idx < 81 ==> s@[idx] == clue_mask(clue_at(clues, idx))),
            r is Err ==> r == Result::<Sudoku, SudokuError>::Err(SudokuError::InvalidClue),
    {
        let mut idx: usize = 0;
        while idx < 81
            invariant
                idx <= 81,
                forall|i: int| 0 <= i < idx ==> clue_at(clues, i) <= 9,
            decreases 81 - idx,
        {
            proof {
                lemma_row_col_of(idx as int);
            }
            let r = idx / 9;
            let c = idx % 9;
            if clues[r][c] > 9 {
                assert(clue_at(clues, idx as int) > 9);
                return Err(SudokuError::InvalidClue);
            }
            assert(clue_at(clues, idx as int) <= 9);
            idx = idx + 1;
        }
        let mut cells: Vec<Cell> = Vec::new();
        let mut i: usize = 0;
        while i < 81
            invariant
                i <= 81,
                cells@.len() == i,
                forall|j: int| 0 <= j < i ==> cells@[j]@ == full_mask(),
            decreases 81 - i,
        {
            cells.push(Cell::full());
            i = i + 1;
        }
        let mut idx: usize = 0;
        while idx < 81
            invariant
                idx <= 81,
                cells@.len() == 81,
                forall|i2: int| 0 <= i2 < 81 ==> clue_at(clues, i2) <= 9,
                forall|j: int| 0 <= j < idx ==> cells@[j]@ == clue_mask(clue_at(clues, j)),
                forall|j: int| idx <= j < 81 ==> cells@[j]@ == full_mask(),
            decreases 81 - idx,
        {
            proof {
                lemma_row_col_of(idx as int);
            }
            let r = idx / 9;
            let c = idx % 9;
            let v = clues[r][c];
            assert(v == clue_at(clues, idx as int));
            assert(v <= 9);
            if v >= 1 {
                let mut cl = cells[idx];
                cl.identify(v as usize);
                cells[idx] = cl;
            }
            idx = idx + 1;
        }
        let s = Sudoku { cells };
        proof {
            assert forall|idx2: int| 0 <= idx2 < 81 implies s@[idx2] == clue_mask(
                clue_at(clues, idx2),
            ) by {
                assert(s@[idx2] == s.cells@[idx2]@);
            }
            assert forall|idx2: int| 0 <= idx2 < 81 implies mask_wf(#[trigger] s@[idx2]) by {
                if 1 <= clue_at(clues, idx2) <= 9 {
                    lemma_single_has(clue_at(clues, idx2) as int);
                } else {
                    lemma_full_has();
                }
            }
        }
        Ok(s)
    }

    /// Whether cell (row, col) still admits digit `n`.
    pub fn can_be(&self, row: usize, col: usize, n: usize) -> (r: bool)
        requires
            self.wf(),
            row < 9,
            col < 9,
            1 <= n <= 9,
        ensures
            r == mask_has(self@[row as int * 9 + col as int], n as int),
    {
        self.cells[row * 9 + col].can_be(n)
    }

    /// The candidate set of cell (row, col).
    pub fn cell_at(&self, row: usize, col: usize) -> (r: Cell)
        requires
            self.wf(),
            row < 9,
            col < 9,
        ensures
            r@ == self@[row as int * 9 + col as int],
            r.wf(),
    {
        self.cells[row * 9 + col]
    }

    /// The cellwise difference: each cell keeps the candidates the
    /// corresponding cell of `other` does not hold.
    pub fn difference(&self, other: &Sudoku) -> (r: Sudoku)
        requires
            self.wf(),
            other.wf(),
        ensures
            r@.len() == 81,
            forall|idx: int| 0 <= idx < 81 ==> r@[idx] == diff_mask(self@[idx], other@[idx]),
            forall|idx: int, d: int|
                0 <= idx < 81 ==> (#[trigger] mask_has(r@[idx], d) <==> mask_has(self@[idx], d)
                    && !mask_has(other@[idx], d)),
            r.wf(),
    {
        let mut cells: Vec<Cell> = Vec::new();
        let mut i: usize = 0;
        while i < 81
            invariant
                i <= 81,
                cells@.len() == i,
                self.wf(),
                other.wf(),
                forall|j: int|
                    0 <= j < i ==> cells@[j]@ == diff_mask(self@[j], other@[j]),
            decreases 81 - i,
        {
            let d = self.cells[i].difference(&other.cells[i]);
            assert(self.cells@[i as int]@ == self@[i as int]);
            assert(other.cells@[i as int]@ == other@[i as int]);
            cells.push(d);
            i = i + 1;
        }
        let s = Sudoku { cells };
        proof {
            assert forall|idx: int| 0 <= idx < 81 implies s@[idx] == diff_mask(
                self@[idx],
                other@[idx],
            ) by {
                assert(s@[idx] == s.cells@[idx]@);
            }
            assert forall|idx: int, d: int|
                0 <= idx < 81 implies (#[trigger] mask_has(s@[idx], d) <==> mask_has(
                self@[idx],
                d,
            ) && !mask_has(other@[idx], d)) by {
                lemma_diff_has(self@[idx], other@[idx]);
            }
            assert forall|idx: int| 0 <= idx < 81 implies mask_wf(#[trigger] s@[idx]) by {
                lemma_diff_has(self@[idx], other@[idx]);
            }
        }
        s
    }

    /// Whether the two boards hold exactly the same candidates.
    pub fn equals(&self, other: &Sudoku) -> (r: bool)
        requires
            self.wf(),
            other.wf(),
        ensures
            r <==> self@ == other@,
    {
        let mut i: usize = 0;
        while i < 81
            invariant
                i <= 81,
                self.wf(),
                other.wf(),
                forall|j: int| 0 <= j < i ==> self@[j] == other@[j],
            decreases 81 - i,
        {
            if self.cells[i].mask() != other.cells[i].mask() {
                assert(self@[i as int] != other@[i as int]);
                return false;
            }
            i = i + 1;
        }
        proof {
            assert(self@ =~= other@);
        }
        true
    }

    /// An identical copy of the board.
    pub fn duplicate(&self) -> (r: Sudoku)
        requires
            self.wf(),
        ensures
            r@ == self@,
            r.wf(),
    {
        let mut cells: Vec<Cell> = Vec::new();
        let mut i: usize = 0;
        while i < 81
            invariant
                i <= 81,
                cells@.len() == i,
                self.wf(),
                forall|j: int| 0 <= j < i ==> cells@[j]@ == self@[j],
            decreases 81 - i,
        {
            let c = self.cells[i];
            assert(self.cells@[i as int]@ == self@[i as int]);
            cells.push(c);
            i = i + 1;
        }
        let s = Sudoku { cells };
        proof {
            assert forall|idx: int| 0 <= idx < 81 implies s@[idx] == self@[idx] by {
                assert(s@[idx] == s.cells@[idx]@);
            }
            assert(s@ =~= self@);
        }
        s
    }

    /// The mask of flat cell `idx`.
    pub(crate) fn mask_at(&self, idx: usize) -> (r: u16)
        requires
            self.wf(),
            idx < 81,
        ensures
            r == self@[idx as int],
    {
        self.cells[idx].mask()
    }

    /// Whether flat cell `idx` still admits digit `n`.
    pub(crate) fn can_at(&self, idx: usize, n: usize) -> (r: bool)
        requires
            self.wf(),
            idx < 81,
            1 <= n <= 9,
        ensures
            r == mask_has(self@[idx as int], n as int),
    {
        self.cells[idx].can_be(n)
    }

    /// The candidate count of flat cell `idx`.
    pub(crate) fn count_at(&self, idx: usize) -> (r: usize)
        requires
            self.wf(),
            idx < 81,
        ensures
            r == count(self@[idx as int]),
    {
        self.cells[idx].size()
    }

    /// Remove every digit of `un` from flat cell `idx`.
    pub(crate) fn remove_mask_at(&mut self, idx: usize, un: u16)
        requires
            old(self).wf(),
            idx < 81,
        ensures
            final(self)@ == old(self)@.update(idx as int, diff_mask(old(self)@[idx as int], un)),
            final(self).wf(),
    {
        let c = self.cells[idx];
        let d = c.difference(&Cell::from_mask(un));
        assert(c@ == self@[idx as int]);
        self.cells[idx] = d;
        proof {
            assert forall|j: int| 0 <= j < 81 implies self@[j] == old(self)@.update(
                idx as int,
                diff_mask(old(self)@[idx as int], un),
            )[j] by {
                assert(self@[j] == self.cells@[j]@);
            }
            assert(self@ =~= old(self)@.update(
                idx as int,
                diff_mask(old(self)@[idx as int], un),
            ));
            lemma_diff_has(old(self)@[idx as int], un);
        }
    }

    /// Make `n` the only candidate of flat cell `idx`.
    pub(crate) fn assign_at(&mut self, idx: usize, n: usize)
        requires
            old(self).wf(),
            idx < 81,
            1 <= n <= 9,
        ensures
            final(self)@ == old(self)@.update(idx as int, single_mask(n as int)),
            final(self).wf(),
    {
        let mut c = self.cells[idx];
        c.identify(n);
        self.cells[idx] = c;
        proof {
            assert forall|j: int| 0 <= j < 81 implies self@[j] == old(self)@.update(
                idx as int,
                single_mask(n as int),
            )[j] by {
                assert(self@[j] == self.cells@[j]@);
            }
            assert(self@ =~= old(self)@.update(idx as int, single_mask(n as int)));
        }
    }
}

} // verus!
