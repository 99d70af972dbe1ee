//! Candidate sets: one bit per digit 1..=9 in a `u16` mask.

use vstd::prelude::*;

verus! {

/// Errors the engine can report.
///
/// `InvalidClue`: construction was given a clue value outside 0..=9.
/// `Contradiction`: a cell lost all candidates, or a naked subset's
/// union holds fewer digits than the subset has cells.
#[derive(Clone, Copy, Debug, PartialEq, Eq, Structural)]
pub enum SudokuError {
    InvalidClue,
    Contradiction,
}

/// A mask is well formed when only the nine digit bits may be set.
pub open spec fn mask_wf(m: u16) -> bool {
    m < 512
}

/// Digit `d` is a candidate in mask `m`.
pub open spec fn mask_has(m: u16, d: int) -> bool {
    1 <= d <= 9 && (m >> ((d - 1) as u16)) & 1u16 == 1u16
}

/// The mask holding all nine digits.
pub open spec fn full_mask() -> u16 {
    0x1ffu16
}

/// The mask holding exactly digit `d`.
pub open spec fn single_mask(d: int) -> u16
    recommends
        1 <= d <= 9,
{
    1u16 << ((d - 1) as u16)
}

/// `m` with digit `d` added.
pub open spec fn set_mask(m: u16, d: int) -> u16
    recommends
        1 <= d <= 9,
{
    m | single_mask(d)
}

/// `m` with digit `d` removed.
pub open spec fn clear_mask(m: u16, d: int) -> u16
    recommends
        1 <= d <= 9,
{
    m & !single_mask(d)
}

/// Digits of `a` that are not in `b`.
pub open spec fn diff_mask(a: u16, b: u16) -> u16 {
    a & !b
}

/// Digits of `a` together with those of `b`.
pub open spec fn union_mask(a: u16, b: u16) -> u16 {
    a | b
}

/// How many of the digits 1..=9 below `d` are candidates in `m`.
pub open spec fn count_upto(m: u16, d: int) -> nat
    decreases d,
{
    if d <= 1 {
        0
    } else {
        count_upto(m, d - 1) + (if mask_has(m, d - 1) {
            1nat
        } else {
            0nat
        })
    }
}

/// How many digits are candidates in `m`.
pub open spec fn count(m: u16) -> nat {
    count_upto(m, 10)
}

pub proof fn lemma_single_has(d: int)
    requires
        1 <= d <= 9,
    ensures
        forall|d2: int| #[trigger] mask_has(single_mask(d), d2) <==> d2 == d,
        mask_wf(single_mask(d)),
{
    let s: u16 = (d - 1) as u16;
    assert forall|d2: int| #[trigger] mask_has(single_mask(d), d2) <==> d2 == d by {
        if 1 <= d2 <= 9 {
            let t: u16 = (d2 - 1) as u16;
            assert(((1u16 << s) >> t) & 1u16 == 1u16 <==> t == s) by (bit_vector)
                requires
                    s < 9,
                    t < 9,
            ;
        }
    }
    assert((1u16 << s) < 512) by (bit_vector)
        requires
            s < 9,
    ;
}

pub proof fn lemma_set_has(m: u16, d: int)
    requires
        1 <= d <= 9,
        mask_wf(m),
    ensures
        forall|d2: int| #[trigger] mask_has(set_mask(m, d), d2) <==> mask_has(m, d2) || d2 == d,
        mask_wf(set_mask(m, d)),
{
    let s: u16 = (d - 1) as u16;
    assert forall|d2: int| #[trigger] mask_has(set_mask(m, d), d2) <==> mask_has(m, d2) || d2 == d by {
        if 1 <= d2 <= 9 {
            let t: u16 = (d2 - 1) as u16;
            assert(((m | (1u16 << s)) >> t) & 1u16 == 1u16 <==> ((m >> t) & 1u16 == 1u16 || t == s))
                by (bit_vector)
                requires
                    s < 9,
                    t < 9,
            ;
        }
    }
    assert((m | (1u16 << s)) < 512) by (bit_vector)
        requires
            s < 9,
            m < 512,
    ;
}

pub proof fn lemma_clear_has(m: u16, d: int)
    requires
        1 <= d <= 9,
        mask_wf(m),
    ensures
        forall|d2: int| #[trigger] mask_has(clear_mask(m, d), d2) <==> mask_has(m, d2) && d2 != d,
        mask_wf(clear_mask(m, d)),
{
    let s: u16 = (d - 1) as u16;
    assert forall|d2: int| #[trigger] mask_has(clear_mask(m, d), d2) <==> mask_has(m, d2) && d2 != d by {
        if 1 <= d2 <= 9 {
            let t: u16 = (d2 - 1) as u16;
            assert(((m & !(1u16 << s)) >> t) & 1u16 == 1u16 <==> ((m >> t) & 1u16 == 1u16 && t
                != s)) by (bit_vector)
                requires
                    s < 9,
                    t < 9,
            ;
        }
    }
    assert((m & !(1u16 << s)) < 512) by (bit_vector)
        requires
            m < 512,
    ;
}

pub proof fn lemma_diff_has(a: u16, b: u16)
    ensures
        forall|d: int| #[trigger] mask_has(diff_mask(a, b), d) <==> mask_has(a, d) && !mask_has(b, d),
        mask_wf(a) ==> mask_wf(diff_mask(a, b)),
{
    assert forall|d: int| #[trigger] mask_has(diff_mask(a, b), d) <==> mask_has(a, d) && !mask_has(b, d) by {
        if 1 <= d <= 9 {
            let t: u16 = (d - 1) as u16;
            assert(((a & !b) >> t) & 1u16 == 1u16 <==> ((a >> t) & 1u16 == 1u16 && !((b >> t) & 1u16
                == 1u16))) by (bit_vector);
        }
    }
    assert(a < 512 ==> (a & !b) < 512) by (bit_vector);
}

pub proof fn lemma_union_has(a: u16, b: u16)
    ensures
        forall|d: int| #[trigger] mask_has(union_mask(a, b), d) <==> mask_has(a, d) || mask_has(b, d),
        mask_wf(a) && mask_wf(b) ==> mask_wf(union_mask(a, b)),
{
    assert forall|d: int| #[trigger] mask_has(union_mask(a, b), d) <==> mask_has(a, d) || mask_has(b, d) by {
        if 1 <= d <= 9 {
            let t: u16 = (d - 1) as u16;
            assert(((a | b) >> t) & 1u16 == 1u16 <==> ((a >> t) & 1u16 == 1u16 || (b >> t) & 1u16
                == 1u16)) by (bit_vector);
        }
    }
    assert(a < 512 && b < 512 ==> (a | b) < 512) by (bit_vector);
}

pub proof fn lemma_full_has()
    ensures
        forall|d: int| #[trigger] mask_has(full_mask(), d) <==> 1 <= d <= 9,
        mask_wf(full_mask()),
{
    assert forall|d: int| #[trigger] mask_has(full_mask(), d) <==> 1 <= d <= 9 by {
        if 1 <= d <= 9 {
            let t: u16 = (d - 1) as u16;
            assert((0x1ffu16 >> t) & 1u16 == 1u16) by (bit_vector)
                requires
                    t < 9,
            ;
        }
    }
}

pub proof fn lemma_empty_has()
    ensures
        forall|d: int| !(#[trigger] mask_has(0u16, d)),
{
    assert forall|d: int| !(#[trigger] mask_has(0u16, d)) by {
        if 1 <= d <= 9 {
            let t: u16 = (d - 1) as u16;
            assert((0u16 >> t) & 1u16 == 0u16) by (bit_vector);
        }
    }
}

/// Two well-formed masks with the same candidates are the same mask.
pub proof fn lemma_mask_ext(a: u16, b: u16)
    requires
        mask_wf(a),
        mask_wf(b),
        forall|d: int| mask_has(a, d) <==> mask_has(b, d),
    ensures
        a == b,
{
    assert(mask_has(a, 1) <==> mask_has(b, 1));
    assert(mask_has(a, 2) <==> mask_has(b, 2));
    assert(mask_has(a, 3) <==> mask_has(b, 3));
    assert(mask_has(a, 4) <==> mask_has(b, 4));
    assert(mask_has(a, 5) <==> mask_has(b, 5));
    assert(mask_has(a, 6) <==> mask_has(b, 6));
    assert(mask_has(a, 7) <==> mask_has(b, 7));
    assert(mask_has(a, 8) <==> mask_has(b, 8));
    assert(mask_has(a, 9) <==> mask_has(b, 9));
    assert(a == b) by (bit_vector)
        requires
            a < 512,
            b < 512,
            ((a >> 0u16) & 1u16 == 1u16) == ((b >> 0u16) & 1u16 == 1u16),
            ((a >> 1u16) & 1u16 == 1u16) == ((b >> 1u16) & 1u16 == 1u16),
            ((a >> 2u16) & 1u16 == 1u16) == ((b >> 2u16) & 1u16 == 1u16),
            ((a >> 3u16) & 1u16 == 1u16) == ((b >> 3u16) & 1u16 == 1u16),
            ((a >> 4u16) & 1u16 == 1u16) == ((b >> 4u16) & 1u16 == 1u16),
            ((a >> 5u16) & 1u16 == 1u16) == ((b >> 5u16) & 1u16 == 1u16),
            ((a >> 6u16) & 1u16 == 1u16) == ((b >> 6u16) & 1u16 == 1u16),
            ((a >> 7u16) & 1u16 == 1u16) == ((b >> 7u16) & 1u16 == 1u16),
            ((a >> 8u16) & 1u16 == 1u16) == ((b >> 8u16) & 1u16 == 1u16),
    ;
}

/// A per-cell candidate set.
#[derive(Clone, Copy)]
pub struct Cell {
    mask: u16,
}

impl View for Cell {
    type V = u16;

    closed spec fn view(&self) -> u16 {
        self.mask
    }
}

impl Cell {
    pub open spec fn wf(&self) -> bool {
        mask_wf(self@)
    }

    /// The raw nine-bit mask.
    pub fn mask(&self) -> (r: u16)
        ensures
            r == self@,
    {
        self.mask
    }

    /// A cell holding exactly the candidates of `m`.
    pub fn from_mask(m: u16) -> (c: Cell)
        ensures
            c@ == m,
    {
        Cell { mask: m }
    }

    /// The cell that still admits every digit.
    pub fn full() -> (c: Cell)
        ensures
            c@ == full_mask(),
            c.wf(),
    {
        Cell { mask: 0x1ffu16 }
    }

    /// Whether digit `n` is still a candidate.
    pub fn can_be(&self, n: usize) -> (r: bool)
        requires
            1 <= n <= 9,
        ensures
            r == mask_has(self@, n as int),
    {
        (self.mask >> ((n - 1) as u16)) & 1u16 == 1u16
    }

    /// Add digit `n` to the candidates.
    pub fn set_at(&mut self, n: usize)
        requires
            1 <= n <= 9,
            old(self).wf(),
        ensures
            final(self)@ == set_mask(old(self)@, n as int),
            final(self).wf(),
            forall|d: int| mask_has(final(self)@, d) <==> mask_has(old(self)@, d) || d == n as int,
    {
        proof {
            lemma_set_has(self@, n as int);
        }
        self.mask = self.mask | (1u16 << ((n - 1) as u16));
    }

    /// Remove digit `n` from the candidates.
    pub fn unset_at(&mut self, n: usize)
        requires
            1 <= n <= 9,
            old(self).wf(),
        ensures
            final(self)@ == clear_mask(old(self)@, n as int),
            final(self).wf(),
            forall|d: int| mask_has(final(self)@, d) <==> mask_has(old(self)@, d) && d != n as int,
    {
        proof {
            lemma_clear_has(self@, n as int);
        }
        self.mask = self.mask & !(1u16 << ((n - 1) as u16));
    }

    /// Make `n` the only candidate: clear everything, then set `n` alone.
    pub fn identify(&mut self, n: usize)
        requires
            1 <= n <= 9,
        ensures
            final(self)@ == single_mask(n as int),
            final(self).wf(),
            forall|d: int| mask_has(final(self)@, d) <==> d == n as int,
            count(final(self)@) == 1,
    {
        proof {
            lemma_single_has(n as int);
            lemma_count_unique(single_mask(n as int), n as int);
        }
        self.mask = 1u16 << ((n - 1) as u16);
    }

    /// The candidates of `self` that are not candidates of `other`.
    pub fn difference(&self, other: &Cell) -> (r: Cell)
        ensures
            r@ == diff_mask(self@, other@),
            forall|d: int| mask_has(r@, d) <==> mask_has(self@, d) && !mask_has(other@, d),
            self.wf() ==> r.wf(),
    {
        proof {
            lemma_diff_has(self@, other@);
        }
        Cell { mask: self.mask & !other.mask }
    }

    /// How many candidates remain.
    pub fn size(&self) -> (r: usize)
        ensures
            r == count(self@),
    {
        count_mask(self.mask)
    }

    /// The single remaining digit, if the cell is solved.
    ///
    /// Returns `Ok(Some(n))` when exactly one candidate remains,
    /// `Ok(None)` when several remain, and `Err(Contradiction)` when
    /// none remains.
    pub fn unwrap(&self) -> (r: Result<Option<usize>, SudokuError>)
        ensures
            r is Err <==> count(self@) == 0,
            r is Err ==> r == Result::<Option<usize>, SudokuError>::Err(SudokuError::Contradiction),
            r == Result::<Option<usize>, SudokuError>::Ok(Option::<usize>::None) <==> count(self@)
                >= 2,
            count(self@) == 1 ==> exists|n: usize|
                r == Result::<Option<usize>, SudokuError>::Ok(Option::Some(n)) && mask_has(
                    self@,
                    n as int,
                ),
    {
        let s = self.size();
        if s == 0 {
            Err(SudokuError::Contradiction)
        } else if s >= 2 {
            Ok(None)
        } else {
            let mut n: usize = 1;
            while n <= 9
                invariant
                    1 <= n <= 10,
                    count(self@) == 1,
                    forall|d: int| 1 <= d < n ==> !mask_has(self@, d),
                decreases 10 - n,
            {
                if self.can_be(n) {
                    return Ok(Some(n));
                }
                n = n + 1;
            }
            proof {
                lemma_count_none(self@, 10);
            }
            Ok(None)
        }
    }
}

impl Default for Cell {
    /// A fresh cell admits every digit.
    fn default() -> (c: Cell)
        ensures
            c@ == full_mask(),
            c.wf(),
    {
        Cell { mask: 0x1ffu16 }
    }
}

/// How many digits are candidates in `m`, executably.
pub fn count_mask(m: u16) -> (r: usize)
    ensures
        r == count(m),
{
    let mut n: usize = 1;
    let mut acc: usize = 0;
    while n <= 9
        invariant
            1 <= n <= 10,
            acc == count_upto(m, n as int),
            acc <= 9,
        decreases 10 - n,
    {
        proof {
            lemma_count_upto_le(m, n + 1 as int);
        }
        if (m >> ((n - 1) as u16)) & 1u16 == 1u16 {
            assert(mask_has(m, n as int));
            acc = acc + 1;
        } else {
            assert(!mask_has(m, n as int));
        }
        n = n + 1;
    }
    acc
}

pub proof fn lemma_count_upto_le(m: u16, d: int)
    ensures
        count_upto(m, d) <= d - 1 || d <= 1,
    decreases d,
{
    if d > 1 {
        lemma_count_upto_le(m, d - 1);
    }
}

/// If no digit below `d` is a candidate, the partial count is zero; and
/// conversely.
pub proof fn lemma_count_none(m: u16, d: int)
    ensures
        count_upto(m, d) == 0 <==> (forall|d2: int| 1 <= d2 < d ==> !mask_has(m, d2)),
    decreases d,
{
    if d > 1 {
        lemma_count_none(m, d - 1);
    }
}

proof fn lemma_count_upto_unique(m: u16, d0: int, d: int)
    requires
        1 <= d0 <= 9,
        mask_has(m, d0),
        forall|d2: int| mask_has(m, d2) ==> d2 == d0,
    ensures
        count_upto(m, d) == if d0 < d {
            1nat
        } else {
            0nat
        },
    decreases d,
{
    if d > 1 {
        lemma_count_upto_unique(m, d0, d - 1);
    }
}

/// A mask whose only candidate is `d0` counts exactly one.
pub proof fn lemma_count_unique(m: u16, d0: int)
    requires
        1 <= d0 <= 9,
        mask_has(m, d0),
        forall|d2: int| mask_has(m, d2) ==> d2 == d0,
    ensures
        count(m) == 1,
{
    lemma_count_upto_unique(m, d0, 10);
}

proof fn lemma_count_upto_subset_le(a: u16, b: u16, d: int)
    requires
        forall|d2: int| mask_has(a, d2) ==> mask_has(b, d2),
    ensures
        count_upto(a, d) <= count_upto(b, d),
    decreases d,
{
    if d > 1 {
        lemma_count_upto_subset_le(a, b, d - 1);
    }
}

/// A subset of candidates never counts more.
pub proof fn lemma_count_subset_le(a: u16, b: u16)
    requires
        forall|d2: int| mask_has(a, d2) ==> mask_has(b, d2),
    ensures
        count(a) <= count(b),
{
    lemma_count_upto_subset_le(a, b, 10);
}

proof fn lemma_count_upto_subset_lt(a: u16, b: u16, dw: int, d: int)
    requires
        forall|d2: int| mask_has(a, d2) ==> mask_has(b, d2),
        mask_has(b, dw),
        !mask_has(a, dw),
    ensures
        dw < d ==> count_upto(a, d) < count_upto(b, d),
        count_upto(a, d) <= count_upto(b, d),
    decreases d,
{
    if d > 1 {
        lemma_count_upto_subset_lt(a, b, dw, d - 1);
    }
}

/// A proper subset of candidates counts strictly less.
pub proof fn lemma_count_subset_lt(a: u16, b: u16, dw: int)
    requires
        forall|d2: int| mask_has(a, d2) ==> mask_has(b, d2),
        mask_has(b, dw),
        !mask_has(a, dw),
    ensures
        count(a) < count(b),
{
    lemma_count_upto_subset_lt(a, b, dw, 10);
}

/// Masks with the same candidates count the same.
pub proof fn lemma_count_congruent(a: u16, b: u16)
    requires
        forall|d2: int| mask_has(a, d2) <==> mask_has(b, d2),
    ensures
        count(a) == count(b),
{
    lemma_count_subset_le(a, b);
    lemma_count_subset_le(b, a);
}

} // verus!
