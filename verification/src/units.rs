//! The 27 units of the grid: 9 rows, 9 columns, 9 boxes.
//!
//! Cells are numbered flat: cell (row, col) is `row * 9 + col`. Unit `u`
//! is row `u` for `u < 9`, column `u - 9` for `u < 18`, and box `u - 18`
//! for `u < 27`; each unit lists its 9 cells in a fixed order.

use vstd::prelude::*;

verus! {

/// The flat index of the `i`-th cell of unit `u`.
pub open spec fn unit_cell(u: int, i: int) -> int
    recommends
        0 <= u < 27,
        0 <= i < 9,
{
    if u < 9 {
        u * 9 + i
    } else if u < 18 {
        i * 9 + (u - 9)
    } else {
        ((u - 18) / 3 * 3 + i / 3) * 9 + ((u - 18) % 3 * 3 + i % 3)
    }
}

/// Cell `idx` lies in unit `u`.
pub open spec fn in_unit(u: int, idx: int) -> bool {
    exists|i: int| 0 <= i < 9 && unit_cell(u, i) == idx
}

pub open spec fn row_of(idx: int) -> int {
    idx / 9
}

pub open spec fn col_of(idx: int) -> int {
    idx % 9
}

/// The box unit that holds cell (r, c).
pub open spec fn box_unit_of(r: int, c: int) -> int {
    18 + (r / 3) * 3 + c / 3
}

/// The flat index of the `i`-th cell of unit `u`, executably.
pub fn unit_cell_at(u: usize, i: usize) -> (idx: usize)
    requires
        u < 27,
        i < 9,
    ensures
        idx == unit_cell(u as int, i as int),
        idx < 81,
{
    if u < 9 {
        u * 9 + i
    } else if u < 18 {
        i * 9 + (u - 9)
    } else {
        let b = u - 18;
        assert(b / 3 <= 2 && i / 3 <= 2 && b % 3 <= 2 && i % 3 <= 2);
        (b / 3 * 3 + i / 3) * 9 + (b % 3 * 3 + i % 3)
    }
}

/// Every listed cell of a unit lies on the board.
pub proof fn lemma_unit_cell_in_range(u: int, i: int)
    requires
        0 <= u < 27,
        0 <= i < 9,
    ensures
        0 <= unit_cell(u, i) < 81,
{
    if u >= 18 {
        let b = u - 18;
        assert(b / 3 <= 2 && i / 3 <= 2 && b % 3 <= 2 && i % 3 <= 2);
    }
}

/// Cell (r, c) stands in its row unit at position c.
pub proof fn lemma_row_membership(r: int, c: int)
    requires
        0 <= r < 9,
        0 <= c < 9,
    ensures
        unit_cell(r, c) == r * 9 + c,
{
}

/// Cell (r, c) stands in its column unit at position r.
pub proof fn lemma_col_membership(r: int, c: int)
    requires
        0 <= r < 9,
        0 <= c < 9,
    ensures
        unit_cell(9 + c, r) == r * 9 + c,
{
}

/// Cell (r, c) stands in its box unit at position (r % 3) * 3 + c % 3.
pub proof fn lemma_box_membership(r: int, c: int)
    requires
        0 <= r < 9,
        0 <= c < 9,
    ensures
        18 <= box_unit_of(r, c) < 27,
        unit_cell(box_unit_of(r, c), (r % 3) * 3 + c % 3) == r * 9 + c,
{
    let b = (r / 3) * 3 + c / 3;
    let i = (r % 3) * 3 + c % 3;
    assert(r / 3 <= 2 && c / 3 <= 2 && r % 3 <= 2 && c % 3 <= 2);
    assert(b / 3 == r / 3 && b % 3 == c / 3) by {
        assert(b == (r / 3) * 3 + c / 3);
    }
    assert(i / 3 == r % 3 && i % 3 == c % 3) by {
        assert(i == (r % 3) * 3 + c % 3);
    }
    assert(unit_cell(18 + b, i) == (r / 3 * 3 + r % 3) * 9 + (c / 3 * 3 + c % 3));
    assert(r / 3 * 3 + r % 3 == r && c / 3 * 3 + c % 3 == c);
}

/// Row and column of a flat index, and the row-unit identity.
pub proof fn lemma_row_col_of(idx: int)
    requires
        0 <= idx < 81,
    ensures
        0 <= row_of(idx) < 9,
        0 <= col_of(idx) < 9,
        row_of(idx) * 9 + col_of(idx) == idx,
{
}

} // verus!
