//! The hidden-single induction engine.
//!
//! For each unit and digit, if exactly one cell of the unit still
//! admits the digit, that cell must hold it. One pass checks every
//! (unit, digit) pair in a fixed order — rows, then columns, then
//! boxes, digits ascending — counting in the input snapshot and
//! assigning into the output board; a later pair overwrites an earlier
//! one that forced the same cell.

use vstd::prelude::*;
use crate::cells::{lemma_single_has, mask_has, mask_wf, single_mask};
use crate::units::{in_unit, unit_cell, unit_cell_at};
use crate::board::Sudoku;

verus! {

/// How many of unit `u`'s positions below `i` admit digit `d`.
pub open spec fn admit_upto(b: Seq<u16>, u: int, d: int, i: int) -> nat
    decreases i,
{
    if i <= 0 {
        0
    } else {
        admit_upto(b, u, d, i - 1) + (if mask_has(b[unit_cell(u, i - 1)], d) {
            1nat
        } else {
            0nat
        })
    }
}

/// How many cells of unit `u` admit digit `d`.
pub open spec fn admits(b: Seq<u16>, u: int, d: int) -> nat {
    admit_upto(b, u, d, 9)
}

/// The hidden-single rule of pair (u, d) forces cell `idx`: the cell
/// is the only one of unit `u` that still admits `d`.
pub open spec fn hidden_target(b: Seq<u16>, u: int, d: int, idx: int) -> bool {
    admits(b, u, d) == 1 && mask_has(b[idx], d) && in_unit(u, idx)
}

/// Pair (u1, d1) is checked strictly before pair (u2, d2).
pub open spec fn lex_lt(u1: int, d1: int, u2: int, d2: int) -> bool {
    u1 < u2 || (u1 == u2 && d1 < d2)
}

/// Some pair checked before (u, d) forces cell `idx`.
pub open spec fn target_before(b: Seq<u16>, idx: int, u: int, d: int) -> bool {
    exists|u2: int, d2: int|
        0 <= u2 < 27 && 1 <= d2 <= 9 && #[trigger] hidden_target(b, u2, d2, idx) && lex_lt(
            u2,
            d2,
            u,
            d,
        )
}

/// Some pair forces cell `idx`.
pub open spec fn forced(b: Seq<u16>, idx: int) -> bool {
    target_before(b, idx, 27, 1)
}

/// (ut, dt) is the last pair checked before (u, d) that forces `idx`.
pub open spec fn last_target_before(
    b: Seq<u16>,
    idx: int,
    u: int,
    d: int,
    ut: int,
    dt: int,
) -> bool {
    0 <= ut < 27 && 1 <= dt <= 9 && hidden_target(b, ut, dt, idx) && lex_lt(ut, dt, u, d)
        && (forall|u2: int, d2: int|
        0 <= u2 < 27 && 1 <= d2 <= 9 && #[trigger] hidden_target(b, u2, d2, idx) && lex_lt(
            u2,
            d2,
            u,
            d,
        ) ==> (u2 == ut && d2 == dt) || lex_lt(u2, d2, ut, dt))
}

/// (ut, dt) is the last pair of the whole pass that forces `idx`.
pub open spec fn last_target(b: Seq<u16>, idx: int, ut: int, dt: int) -> bool {
    last_target_before(b, idx, 27, 1, ut, dt)
}

/// The output state of the pass after all pairs before (u, d) ran:
/// an unforced cell is unchanged, a forced cell holds the single digit
/// of the last pair so far that forced it.
pub open spec fn induce_upto(b: Seq<u16>, o: Seq<u16>, u: int, d: int) -> bool {
    (forall|idx: int| 0 <= idx < 81 && !target_before(b, idx, u, d) ==> #[trigger] o[idx] == b[idx])
        && (forall|idx: int, ut: int, dt: int|
        0 <= idx < 81 && #[trigger] last_target_before(b, idx, u, d, ut, dt) ==> o[idx]
            == single_mask(dt))
}

/// `b2` is the hidden-single induction of `b`.
pub open spec fn is_induce(b: Seq<u16>, b2: Seq<u16>) -> bool {
    b2.len() == 81 && induce_upto(b, b2, 27, 1)
}

/// A forced cell has a last forcing pair.
pub proof fn lemma_exists_last_target(b: Seq<u16>, idx: int, u0: int, d0: int)
    requires
        0 <= u0 < 27,
        1 <= d0 <= 9,
        hidden_target(b, u0, d0, idx),
    ensures
        exists|ut: int, dt: int| #[trigger] last_target(b, idx, ut, dt),
    decreases (26 - u0) * 9 + (9 - d0),
{
    if forall|u2: int, d2: int|
        0 <= u2 < 27 && 1 <= d2 <= 9 && #[trigger] hidden_target(b, u2, d2, idx) && lex_lt(
            u2,
            d2,
            27,
            1,
        ) ==> (u2 == u0 && d2 == d0) || lex_lt(u2, d2, u0, d0) {
        assert(last_target(b, idx, u0, d0));
    } else {
        let (u1, d1) = choose|u1: int, d1: int|
            0 <= u1 < 27 && 1 <= d1 <= 9 && #[trigger] hidden_target(b, u1, d1, idx) && lex_lt(
                u1,
                d1,
                27,
                1,
            ) && !((u1 == u0 && d1 == d0) || lex_lt(u1, d1, u0, d0));
        assert(lex_lt(u0, d0, u1, d1));
        lemma_exists_last_target(b, idx, u1, d1);
    }
}

/// Whatever the pass leaves in a cell was already a candidate there.
pub proof fn lemma_induce_subset(b: Seq<u16>, b2: Seq<u16>)
    requires
        is_induce(b, b2),
    ensures
        forall|idx: int, d: int|
            0 <= idx < 81 && #[trigger] mask_has(b2[idx], d) ==> mask_has(b[idx], d),
{
    assert forall|idx: int, d: int|
        0 <= idx < 81 && #[trigger] mask_has(b2[idx], d) implies mask_has(b[idx], d) by {
        if forced(b, idx) {
            let (u0, d0) = choose|u0: int, d0: int|
                0 <= u0 < 27 && 1 <= d0 <= 9 && #[trigger] hidden_target(b, u0, d0, idx) && lex_lt(
                    u0,
                    d0,
                    27,
                    1,
                );
            lemma_exists_last_target(b, idx, u0, d0);
            let (ut, dt) = choose|ut: int, dt: int| #[trigger] last_target(b, idx, ut, dt);
            assert(b2[idx] == single_mask(dt));
            lemma_single_has(dt);
            assert(d == dt);
            assert(mask_has(b[idx], dt));
        } else {
            assert(b2[idx] == b[idx]);
        }
    }
}

/// The pass's outcome is a function of its input: two boards that both
/// stand in the induction relation to `b` are equal.
pub proof fn lemma_induce_deterministic(b: Seq<u16>, x: Seq<u16>, y: Seq<u16>)
    requires
        is_induce(b, x),
        is_induce(b, y),
    ensures
        x == y,
{
    assert forall|idx: int| 0 <= idx < 81 implies x[idx] == y[idx] by {
        if forced(b, idx) {
            let (u0, d0) = choose|u0: int, d0: int|
                0 <= u0 < 27 && 1 <= d0 <= 9 && #[trigger] hidden_target(b, u0, d0, idx) && lex_lt(
                    u0,
                    d0,
                    27,
                    1,
                );
            lemma_exists_last_target(b, idx, u0, d0);
            let (ut, dt) = choose|ut: int, dt: int| #[trigger] last_target(b, idx, ut, dt);
            assert(x[idx] == single_mask(dt) && y[idx] == single_mask(dt));
        } else {
            assert(x[idx] == b[idx] && y[idx] == b[idx]);
        }
    }
    assert(x =~= y);
}

/// Cell `idx` was assigned by pair (u, d) at a position below `jbound`.
pub open spec fn assigned_below(b: Seq<u16>, u: int, d: int, idx: int, jbound: int) -> bool {
    exists|j: int| 0 <= j < jbound && #[trigger] unit_cell(u, j) == idx && mask_has(b[idx], d)
}

/// Peeling one position off the bounded "assigned" search.
proof fn lemma_assigned_unfold(b: Seq<u16>, u: int, d: int, x: int, j: int)
    requires
        0 <= j < 9,
    ensures
        assigned_below(b, u, d, x, j + 1) <==> (assigned_below(b, u, d, x, j) || (unit_cell(u, j)
            == x && mask_has(b[x], d))),
{
    if assigned_below(b, u, d, x, j + 1) {
        let j2 = choose|j2: int|
            0 <= j2 < j + 1 && #[trigger] unit_cell(u, j2) == x && mask_has(b[x], d);
        if j2 < j {
            assert(assigned_below(b, u, d, x, j));
        }
    }
    if assigned_below(b, u, d, x, j) {
        let j2 = choose|j2: int| 0 <= j2 < j && #[trigger] unit_cell(u, j2) == x && mask_has(b[x], d);
        assert(0 <= j2 < j + 1 && unit_cell(u, j2) == x && mask_has(b[x], d));
    }
    if unit_cell(u, j) == x && mask_has(b[x], d) {
        assert(0 <= j < j + 1 && unit_cell(u, j) == x && mask_has(b[x], d));
    }
}

/// Under a count of one, "assigned by (u, d)" is exactly "forced by
/// (u, d)".
proof fn lemma_assigned_is_hidden(b: Seq<u16>, u: int, d: int, x: int)
    requires
        admits(b, u, d) == 1,
    ensures
        assigned_below(b, u, d, x, 9) <==> hidden_target(b, u, d, x),
{
    if assigned_below(b, u, d, x, 9) {
        let j2 = choose|j2: int| 0 <= j2 < 9 && #[trigger] unit_cell(u, j2) == x && mask_has(b[x], d);
        assert(in_unit(u, x));
    }
    if hidden_target(b, u, d, x) {
        let j2 = choose|j2: int| 0 <= j2 < 9 && #[trigger] unit_cell(u, j2) == x;
        assert(0 <= j2 < 9 && unit_cell(u, j2) == x && mask_has(b[x], d));
    }
}

/// How many cells of unit `u` admit digit `d`, executably.
fn admit_count_exec(src: &Sudoku, u: usize, d: usize) -> (r: usize)
    requires
        src.wf(),
        u < 27,
        1 <= d <= 9,
    ensures
        r == admits(src@, u as int, d as int),
{
    let mut i: usize = 0;
    let mut acc: usize = 0;
    while i < 9
        invariant
            i <= 9,
            src.wf(),
            u < 27,
            1 <= d <= 9,
            acc == admit_upto(src@, u as int, d as int, i as int),
            acc <= i,
        decreases 9 - i,
    {
        let idx = unit_cell_at(u, i);
        if src.can_at(idx, d) {
            acc = acc + 1;
        }
        i = i + 1;
    }
    acc
}

/// One step of the pair order: after (u, d) the sets of earlier pairs
/// grow by (u, d) alone.
proof fn lemma_pair_step(b: Seq<u16>, pre: Seq<u16>, o: Seq<u16>, u: int, d: int)
    requires
        0 <= u < 27,
        1 <= d <= 9,
        induce_upto(b, pre, u, d),
        forall|idx: int| 0 <= idx < 81 && hidden_target(b, u, d, idx) ==> #[trigger] o[idx]
            == single_mask(d),
        forall|idx: int| 0 <= idx < 81 && !hidden_target(b, u, d, idx) ==> #[trigger] o[idx]
            == pre[idx],
    ensures
        induce_upto(b, o, u, d + 1),
{
    assert forall|idx: int| 0 <= idx < 81 && !target_before(b, idx, u, d + 1) implies #[trigger] o[idx]
        == b[idx] by {
        if target_before(b, idx, u, d) {
            let (u2, d2) = choose|u2: int, d2: int|
                0 <= u2 < 27 && 1 <= d2 <= 9 && #[trigger] hidden_target(b, u2, d2, idx) && lex_lt(
                    u2,
                    d2,
                    u,
                    d,
                );
            assert(lex_lt(u2, d2, u, d + 1));
            assert(target_before(b, idx, u, d + 1));
        }
        if hidden_target(b, u, d, idx) {
            assert(lex_lt(u, d, u, d + 1));
            assert(target_before(b, idx, u, d + 1));
        }
        assert(o[idx] == pre[idx] && pre[idx] == b[idx]);
    }
    assert forall|idx: int, ut: int, dt: int|
        0 <= idx < 81 && #[trigger] last_target_before(b, idx, u, d + 1, ut, dt) implies o[idx]
        == single_mask(dt) by {
        if ut == u && dt == d {
            assert(hidden_target(b, u, d, idx));
        } else {
            assert(lex_lt(ut, dt, u, d));
            if hidden_target(b, u, d, idx) {
                assert(lex_lt(u, d, u, d + 1));
                assert((u == ut && d == dt) || lex_lt(u, d, ut, dt));
                assert(false);
            }
            assert(o[idx] == pre[idx]);
            assert(last_target_before(b, idx, u, d, ut, dt));
        }
    }
}

/// Crossing from pair (u, 10) to pair (u + 1, 1) changes nothing.
proof fn lemma_unit_step(b: Seq<u16>, o: Seq<u16>, u: int)
    requires
        0 <= u < 27,
        induce_upto(b, o, u, 10),
    ensures
        induce_upto(b, o, u + 1, 1),
{
    assert forall|u2: int, d2: int|
        0 <= u2 < 27 && 1 <= d2 <= 9 implies (lex_lt(u2, d2, u, 10) <==> lex_lt(
        u2,
        d2,
        u + 1,
        1,
    )) by {}
    assert forall|idx: int| 0 <= idx < 81 && !target_before(b, idx, u + 1, 1) implies #[trigger] o[idx]
        == b[idx] by {
        if target_before(b, idx, u, 10) {
            let (u2, d2) = choose|u2: int, d2: int|
                0 <= u2 < 27 && 1 <= d2 <= 9 && #[trigger] hidden_target(b, u2, d2, idx) && lex_lt(
                    u2,
                    d2,
                    u,
                    10,
                );
            assert(target_before(b, idx, u + 1, 1));
        }
    }
    assert forall|idx: int, ut: int, dt: int|
        0 <= idx < 81 && #[trigger] last_target_before(b, idx, u + 1, 1, ut, dt) implies o[idx]
        == single_mask(dt) by {
        assert(last_target_before(b, idx, u, 10, ut, dt));
    }
}

impl Sudoku {
    /// One hidden-single induction pass: every (unit, digit) pair with
    /// an admit count of one in this board assigns its digit in the
    /// output, rows first, then columns, then boxes, digits ascending
    /// within a unit; a later pair overwrites an earlier one.
    pub fn induce(&self) -> (r: Sudoku)
        requires
            self.wf(),
        ensures
            r.wf(),
            is_induce(self@, r@),
            forall|idx: int, d: int|
                0 <= idx < 81 && #[trigger] mask_has(r@[idx], d) ==> mask_has(self@[idx], d),
    {
        let mut out = self.duplicate();
        proof {
            assert forall|idx: int, ut: int, dt: int|
                0 <= idx < 81 && #[trigger] last_target_before(self@, idx, 0, 1, ut, dt) implies out@[idx]
                == single_mask(dt) by {
                assert(!lex_lt(ut, dt, 0, 1));
            }
        }
        let mut u: usize = 0;
        while u < 27
            invariant
                u <= 27,
                self.wf(),
                out.wf(),
                out@.len() == 81,
                induce_upto(self@, out@, u as int, 1),
            decreases 27 - u,
        {
            let mut d: usize = 1;
            while d <= 9
                invariant
                    1 <= d <= 10,
                    u < 27,
                    self.wf(),
                    out.wf(),
                    out@.len() == 81,
                    induce_upto(self@, out@, u as int, d as int),
                decreases 10 - d,
            {
                let ghost uu = u as int;
                let ghost dd = d as int;
                let cnt = admit_count_exec(self, u, d);
                if cnt == 1 {
                    let ghost pre = out@;
                    let mut j: usize = 0;
                    while j < 9
                        invariant
                            j <= 9,
                            u < 27,
                            1 <= d <= 9,
                            uu == u as int,
                            dd == d as int,
                            self.wf(),
                            out.wf(),
                            out@.len() == 81,
                            pre.len() == 81,
                            forall|x: int|
                                0 <= x < 81 && !assigned_below(self@, uu, dd, x, j as int)
                                    ==> #[trigger] out@[x] == pre[x],
                            forall|x: int|
                                0 <= x < 81 && assigned_below(self@, uu, dd, x, j as int)
                                    ==> #[trigger] out@[x] == single_mask(dd),
                        decreases 9 - j,
                    {
                        let idx = unit_cell_at(u, j);
                        let ghost prev = out@;
                        if self.can_at(idx, d) {
                            out.assign_at(idx, d);
                        }
                        proof {
                            assert forall|x: int|
                                0 <= x < 81 && !assigned_below(self@, uu, dd, x, j + 1) implies
                                #[trigger] out@[x] == pre[x] by {
                                lemma_assigned_unfold(self@, uu, dd, x, j as int);
                            }
                            assert forall|x: int|
                                0 <= x < 81 && assigned_below(self@, uu, dd, x, j + 1) implies
                                #[trigger] out@[x] == single_mask(dd) by {
                                lemma_assigned_unfold(self@, uu, dd, x, j as int);
                                if !assigned_below(self@, uu, dd, x, j as int) {
                                    assert(unit_cell(uu, j as int) == x && mask_has(self@[x], dd));
                                    assert(x == idx as int);
                                }
                            }
                        }
                        j = j + 1;
                    }
                    proof {
                        assert forall|x: int|
                            0 <= x < 81 && hidden_target(self@, uu, dd, x) implies #[trigger] out@[x]
                            == single_mask(dd) by {
                            lemma_assigned_is_hidden(self@, uu, dd, x);
                        }
                        assert forall|x: int|
                            0 <= x < 81 && !hidden_target(self@, uu, dd, x) implies #[trigger] out@[x]
                            == pre[x] by {
                            lemma_assigned_is_hidden(self@, uu, dd, x);
                        }
                        lemma_pair_step(self@, pre, out@, uu, dd);
                    }
                } else {
                    proof {
                        assert forall|x: int|
                            0 <= x < 81 && hidden_target(self@, uu, dd, x) implies #[trigger] out@[x]
                            == single_mask(dd) by {
                            assert(admits(self@, uu, dd) == 1);
                            assert(false);
                        }
                        lemma_pair_step(self@, out@, out@, uu, dd);
                    }
                }
                d = d + 1;
            }
            proof {
                lemma_unit_step(self@, out@, u as int);
            }
            u = u + 1;
        }
        proof {
            lemma_induce_subset(self@, out@);
        }
        out
    }
}

} // verus!
