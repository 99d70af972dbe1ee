//! Laws of the engine, stated over the same spec functions the
//! executable contracts use.

use vstd::prelude::*;
use crate::cells::{
    count, count_upto, diff_mask, lemma_count_congruent, lemma_count_none, lemma_diff_has,
    lemma_mask_ext, mask_has,
};
use crate::units::{
    box_unit_of, lemma_box_membership, lemma_col_membership, lemma_row_membership,
    lemma_unit_cell_in_range, unit_cell,
};
use crate::board::board_wf;
use crate::engine::{
    cbit, combo_in_pool, combo_union, is_elim, is_reduce, justified, justified_any,
    lemma_cbit_single, lemma_combo_union_has, lemma_csize_unique, lemma_reduce_deterministic,
    locked_combo, outside_combo, unit_removes,
};
use crate::induction::{admit_upto, admits, is_induce, lemma_induce_deterministic};
use crate::solver::is_fixed_point;

verus! {

/// The difference of a candidate set with itself is always empty.
pub proof fn lemma_difference_self_empty(m: u16)
    ensures
        count(diff_mask(m, m)) == 0,
{
    lemma_diff_has(m, m);
    assert forall|d2: int| 1 <= d2 < 10 implies !mask_has(diff_mask(m, m), d2) by {
        lemma_diff_has(m, m);
        assert(mask_has(diff_mask(m, m), d2) <==> mask_has(m, d2) && !mask_has(m, d2));
    }
    lemma_count_none(diff_mask(m, m), 10);
}

/// A solved cell forms a one-cell locked subset, so size-1 elimination
/// is entitled to remove its digit from every other cell of the unit.
proof fn lemma_singleton_combo_justifies(b: Seq<u16>, u: int, i: int, j: int, d: int)
    requires
        board_wf(b),
        0 <= u < 27,
        0 <= i < 9,
        0 <= j < 9,
        i != j,
        count(b[unit_cell(u, i)]) == 1,
        mask_has(b[unit_cell(u, i)], d),
    ensures
        justified(b, 1, unit_cell(u, j), d),
{
    let ci = unit_cell(u, i);
    let cj = unit_cell(u, j);
    lemma_unit_cell_in_range(u, i);
    lemma_unit_cell_in_range(u, j);
    let m: u32 = 1u32 << (i as u32);
    lemma_cbit_single(i);
    lemma_csize_unique(m, i);
    assert(combo_in_pool(b, u, m, 1));
    lemma_combo_union_has(b, u, m);
    assert forall|d2: int| #[trigger] mask_has(combo_union(b, u, m), d2) <==> mask_has(
        b[ci],
        d2,
    ) by {
        if mask_has(b[ci], d2) {
            assert(0 <= i < 9 && cbit(m, i) && mask_has(b[unit_cell(u, i)], d2));
        }
    }
    lemma_count_congruent(combo_union(b, u, m), b[ci]);
    assert(locked_combo(b, u, m, 1));
    assert(outside_combo(u, m, cj)) by {
        assert(0 <= j < 9 && unit_cell(u, j) == cj && !cbit(m, j));
    }
    assert(mask_has(combo_union(b, u, m), d));
    assert(unit_removes(b, u, 1, cj, d)) by {
        assert((m as int) < 512 && locked_combo(b, u, m, 1) && outside_combo(u, m, cj) && mask_has(
            combo_union(b, u, m),
            d,
        ));
    }
    assert(justified(b, 1, cj, d));
}

/// A solved cell locks its digit: size-1 elimination removes the digit
/// of a solved cell from every other cell of any unit that holds both
/// cells — its row, its column, and its box.
pub proof fn lemma_solved_cell_eliminates_peers(
    b: Seq<u16>,
    b2: Seq<u16>,
    u: int,
    i: int,
    j: int,
    d: int,
)
    requires
        board_wf(b),
        is_elim(b, b2, 1),
        0 <= u < 27,
        0 <= i < 9,
        0 <= j < 9,
        i != j,
        count(b[unit_cell(u, i)]) == 1,
        mask_has(b[unit_cell(u, i)], d),
    ensures
        !mask_has(b2[unit_cell(u, j)], d),
{
    lemma_singleton_combo_justifies(b, u, i, j, d);
    lemma_unit_cell_in_range(u, j);
}

/// The same law over grid coordinates: size-1 elimination removes a
/// solved cell's digit from every other cell that shares its row, its
/// column, or its box.
pub proof fn lemma_solved_cell_clears_seen_cells(
    b: Seq<u16>,
    b2: Seq<u16>,
    r: int,
    c: int,
    r2: int,
    c2: int,
    d: int,
)
    requires
        board_wf(b),
        is_elim(b, b2, 1),
        0 <= r < 9,
        0 <= c < 9,
        0 <= r2 < 9,
        0 <= c2 < 9,
        !(r2 == r && c2 == c),
        r2 == r || c2 == c || (r2 / 3 == r / 3 && c2 / 3 == c / 3),
        count(b[r * 9 + c]) == 1,
        mask_has(b[r * 9 + c], d),
    ensures
        !mask_has(b2[r2 * 9 + c2], d),
{
    if r2 == r {
        lemma_row_membership(r, c);
        lemma_row_membership(r2, c2);
        lemma_solved_cell_eliminates_peers(b, b2, r, c, c2, d);
    } else if c2 == c {
        lemma_col_membership(r, c);
        lemma_col_membership(r2, c2);
        lemma_solved_cell_eliminates_peers(b, b2, 9 + c, r, r2, d);
    } else {
        lemma_box_membership(r, c);
        lemma_box_membership(r2, c2);
        let u = box_unit_of(r, c);
        let i = (r % 3) * 3 + c % 3;
        let j = (r2 % 3) * 3 + c2 % 3;
        assert(box_unit_of(r2, c2) == u);
        assert(i != j) by {
            if i == j {
                assert(0 <= c % 3 < 3 && 0 <= c2 % 3 < 3 && 0 <= r % 3 < 3 && 0 <= r2 % 3 < 3);
                assert(r % 3 == r2 % 3 && c % 3 == c2 % 3);
                assert(r == 3 * (r / 3) + r % 3 && r2 == 3 * (r2 / 3) + r2 % 3);
                assert(c == 3 * (c / 3) + c % 3 && c2 == 3 * (c2 / 3) + c2 % 3);
            }
        }
        lemma_solved_cell_eliminates_peers(b, b2, u, i, j, d);
    }
}

/// The admit counts of the digits below `d` in unit `u`, summed over
/// the unit's positions below `i`.
pub open spec fn admit_sum(b: Seq<u16>, u: int, i: int, d: int) -> nat
    decreases d,
{
    if d <= 1 {
        0
    } else {
        admit_sum(b, u, i, d - 1) + admit_upto(b, u, d - 1, i)
    }
}

/// The candidate counts of unit `u`'s cells below position `i`,
/// summed.
pub open spec fn unit_total(b: Seq<u16>, u: int, i: int) -> nat
    decreases i,
{
    if i <= 0 {
        0
    } else {
        unit_total(b, u, i - 1) + count(b[unit_cell(u, i - 1)])
    }
}

proof fn lemma_admit_sum_zero(b: Seq<u16>, u: int, d: int)
    ensures
        admit_sum(b, u, 0, d) == 0,
    decreases d,
{
    if d > 1 {
        lemma_admit_sum_zero(b, u, d - 1);
    }
}

proof fn lemma_admit_sum_step(b: Seq<u16>, u: int, i: int, d: int)
    requires
        0 <= i < 9,
    ensures
        admit_sum(b, u, i + 1, d) == admit_sum(b, u, i, d) + count_upto(b[unit_cell(u, i)], d),
    decreases d,
{
    if d > 1 {
        lemma_admit_sum_step(b, u, i, d - 1);
    }
}

proof fn lemma_admit_sum_total(b: Seq<u16>, u: int, i: int)
    requires
        0 <= i <= 9,
    ensures
        admit_sum(b, u, i, 10) == unit_total(b, u, i),
    decreases i,
{
    if i == 0 {
        lemma_admit_sum_zero(b, u, 10);
    } else {
        lemma_admit_sum_total(b, u, i - 1);
        lemma_admit_sum_step(b, u, i - 1, 10);
    }
}

proof fn lemma_unit_total_solved(b: Seq<u16>, u: int, i: int)
    requires
        0 <= u < 27,
        0 <= i <= 9,
        forall|idx: int| 0 <= idx < 81 ==> count(#[trigger] b[idx]) == 1,
    ensures
        unit_total(b, u, i) == i,
    decreases i,
{
    if i > 0 {
        lemma_unit_total_solved(b, u, i - 1);
        lemma_unit_cell_in_range(u, i - 1);
    }
}

proof fn lemma_admit_sum_bounded(b: Seq<u16>, u: int, d0: int, d: int)
    requires
        1 <= d0 <= 9,
        1 <= d <= 10,
        forall|d2: int| 1 <= d2 <= 9 ==> admits(b, u, d2) <= 1,
        admits(b, u, d0) == 0,
    ensures
        admit_sum(b, u, 9, d) <= d - 1 - (if d0 < d {
            1int
        } else {
            0int
        }),
    decreases d,
{
    if d > 1 {
        lemma_admit_sum_bounded(b, u, d0, d - 1);
        assert(admit_upto(b, u, d - 1, 9) == admits(b, u, d - 1));
    }
}

/// A positive partial admit count names an admitting position.
proof fn lemma_admit_pos(b: Seq<u16>, u: int, d: int, i: int)
    requires
        admit_upto(b, u, d, i) > 0,
    ensures
        exists|j: int| 0 <= j < i && mask_has(b[#[trigger] unit_cell(u, j)], d),
    decreases i,
{
    if i > 0 {
        if mask_has(b[unit_cell(u, i - 1)], d) {
            assert(0 <= i - 1 < i && mask_has(b[unit_cell(u, i - 1)], d));
        } else {
            lemma_admit_pos(b, u, d, i - 1);
        }
    }
}

/// An admit count of two or more names two distinct admitting
/// positions.
proof fn lemma_admit_two(b: Seq<u16>, u: int, d: int, i: int)
    requires
        admit_upto(b, u, d, i) >= 2,
    ensures
        exists|j1: int, j2: int|
            0 <= j1 < j2 < i && mask_has(b[#[trigger] unit_cell(u, j1)], d) && mask_has(
                b[#[trigger] unit_cell(u, j2)],
                d,
            ),
    decreases i,
{
    if i > 0 {
        if mask_has(b[unit_cell(u, i - 1)], d) {
            lemma_admit_pos(b, u, d, i - 1);
            let j1 = choose|j: int| 0 <= j < i - 1 && mask_has(b[#[trigger] unit_cell(u, j)], d);
            assert(0 <= j1 < i - 1 < i && mask_has(b[unit_cell(u, j1)], d) && mask_has(
                b[unit_cell(u, i - 1)],
                d,
            ));
        } else {
            lemma_admit_two(b, u, d, i - 1);
            let (j1, j2) = choose|j1: int, j2: int|
                0 <= j1 < j2 < i - 1 && mask_has(b[#[trigger] unit_cell(u, j1)], d) && mask_has(
                    b[#[trigger] unit_cell(u, j2)],
                    d,
                );
            assert(0 <= j1 < j2 < i && mask_has(b[unit_cell(u, j1)], d) && mask_has(
                b[unit_cell(u, j2)],
                d,
            ));
        }
    }
}

/// On a fully solved board at the elimination fixed point, every unit
/// resolves every digit in exactly one of its cells.
pub proof fn lemma_converged_units_complete(b: Seq<u16>)
    requires
        board_wf(b),
        is_reduce(b, b),
        forall|idx: int| 0 <= idx < 81 ==> count(#[trigger] b[idx]) == 1,
    ensures
        forall|u: int, d: int| 0 <= u < 27 && 1 <= d <= 9 ==> #[trigger] admits(b, u, d) == 1,
{
    assert forall|u: int, d: int|
        0 <= u < 27 && 1 <= d <= 9 implies #[trigger] admits(b, u, d) == 1 by {
        assert forall|d2: int| 1 <= d2 <= 9 implies admits(b, u, d2) <= 1 by {
            if admits(b, u, d2) >= 2 {
                lemma_admit_two(b, u, d2, 9);
                let (j1, j2) = choose|j1: int, j2: int|
                    0 <= j1 < j2 < 9 && mask_has(b[#[trigger] unit_cell(u, j1)], d2) && mask_has(
                        b[#[trigger] unit_cell(u, j2)],
                        d2,
                    );
                lemma_unit_cell_in_range(u, j1);
                lemma_unit_cell_in_range(u, j2);
                lemma_singleton_combo_justifies(b, u, j1, j2, d2);
                let cj = unit_cell(u, j2);
                assert(justified_any(b, cj, d2)) by {
                    assert(1 <= 1 < 9 && justified(b, 1, cj, d2));
                }
                assert(!mask_has(b[cj], d2));
                assert(false);
            }
        }
        if admits(b, u, d) == 0 {
            lemma_admit_sum_bounded(b, u, d, 10);
            lemma_admit_sum_total(b, u, 9);
            lemma_unit_total_solved(b, u, 9);
            assert(false);
        }
    }
}

/// A board at its fixed point is left alone: running the full
/// elimination pass or the induction pass on it again returns an equal
/// board.
pub proof fn lemma_fixed_point_idempotent(b: Seq<u16>, r1: Seq<u16>, r2: Seq<u16>)
    requires
        board_wf(b),
        board_wf(r1),
        board_wf(r2),
        is_fixed_point(b),
        is_reduce(b, r1),
        is_induce(b, r2),
    ensures
        r1 == b,
        r2 == b,
{
    lemma_reduce_deterministic(b, r1, b);
    lemma_induce_deterministic(b, r2, b);
}

/// A board fixed under the full pass is fixed under every single size:
/// elimination at any one k returns an equal board.
pub proof fn lemma_fixed_point_elim_any_size(b: Seq<u16>, bk: Seq<u16>, k: int)
    requires
        board_wf(b),
        board_wf(bk),
        is_reduce(b, b),
        1 <= k <= 8,
        is_elim(b, bk, k),
    ensures
        bk == b,
{
    assert forall|idx: int| 0 <= idx < 81 implies bk[idx] == b[idx] by {
        assert forall|d: int| mask_has(bk[idx], d) <==> mask_has(b[idx], d) by {
            assert(mask_has(b[idx], d) <==> mask_has(b[idx], d) && !justified_any(b, idx, d));
            if mask_has(b[idx], d) && justified(b, k, idx, d) {
                assert(justified_any(b, idx, d));
            }
        }
        lemma_mask_ext(bk[idx], b[idx]);
    }
    assert(bk =~= b);
}

} // verus!
