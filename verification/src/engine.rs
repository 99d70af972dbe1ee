//! The propagation engines.
//!
//! Elimination: for each unit and each subset size k, any k cells whose
//! candidates unite to exactly k digits lock those digits away from the
//! rest of the unit; a union smaller than k is a contradiction.
//! Combinations of unit positions are coded as 9-bit masks.

use vstd::prelude::*;
use crate::cells::{
    SudokuError, count, count_mask, diff_mask, lemma_diff_has, mask_has, mask_wf, union_mask,
};
use crate::units::{unit_cell, unit_cell_at};
use crate::board::{Sudoku, board_wf};

verus! {

/// Position `i` belongs to the combination coded by `m`.
pub open spec fn cbit(m: u32, i: int) -> bool {
    0 <= i < 9 && (m >> (i as u32)) & 1u32 == 1u32
}

/// How many of the positions below `i` the combination holds.
pub open spec fn csize_upto(m: u32, i: int) -> nat
    decreases i,
{
    if i <= 0 {
        0
    } else {
        csize_upto(m, i - 1) + (if cbit(m, i - 1) {
            1nat
        } else {
            0nat
        })
    }
}

/// How many positions the combination holds.
pub open spec fn csize(m: u32) -> nat {
    csize_upto(m, 9)
}

/// The union of the candidate masks at the combination's positions
/// below `i`, within unit `u` of board `b`.
pub open spec fn combo_union_upto(b: Seq<u16>, u: int, m: u32, i: int) -> u16
    decreases i,
{
    if i <= 0 {
        0u16
    } else {
        union_mask(
            combo_union_upto(b, u, m, i - 1),
            if cbit(m, i - 1) {
                b[unit_cell(u, i - 1)]
            } else {
                0u16
            },
        )
    }
}

/// The union of the candidate masks at the combination's positions.
pub open spec fn combo_union(b: Seq<u16>, u: int, m: u32) -> u16 {
    combo_union_upto(b, u, m, 9)
}

/// Every cell of the combination has at most `k` candidates.
pub open spec fn combo_in_pool(b: Seq<u16>, u: int, m: u32, k: int) -> bool {
    forall|i: int| #[trigger] cbit(m, i) ==> count(b[unit_cell(u, i)]) <= k
}

/// A naked subset: `k` cells drawn from the pool whose candidates unite
/// to exactly `k` digits.
pub open spec fn locked_combo(b: Seq<u16>, u: int, m: u32, k: int) -> bool {
    m < 512 && csize(m) == k && combo_in_pool(b, u, m, k) && count(combo_union(b, u, m)) == k
}

/// A contradiction: `k` cells drawn from the pool whose candidates
/// unite to fewer than `k` digits.
pub open spec fn contra_combo(b: Seq<u16>, u: int, m: u32, k: int) -> bool {
    m < 512 && csize(m) == k && combo_in_pool(b, u, m, k) && count(combo_union(b, u, m)) < k
}

/// Cell `idx` stands in unit `u` at a position below `jbound` that the
/// combination leaves out.
pub open spec fn outside_combo_below(u: int, m: u32, idx: int, jbound: int) -> bool {
    exists|j: int| 0 <= j < jbound && #[trigger] unit_cell(u, j) == idx && !cbit(m, j)
}

/// Cell `idx` stands in unit `u` outside the combination.
pub open spec fn outside_combo(u: int, m: u32, idx: int) -> bool {
    outside_combo_below(u, m, idx, 9)
}

/// Some combination below `mbound` of unit `u` is a contradiction.
pub open spec fn unit_contra_below(b: Seq<u16>, u: int, k: int, mbound: int) -> bool {
    exists|m: u32| (m as int) < mbound && #[trigger] contra_combo(b, u, m, k)
}

/// Some combination of unit `u` is a contradiction.
pub open spec fn unit_contra(b: Seq<u16>, u: int, k: int) -> bool {
    unit_contra_below(b, u, k, 512)
}

/// Some unit below `ubound` holds a contradiction at size `k`.
pub open spec fn elim_contra_below(b: Seq<u16>, k: int, ubound: int) -> bool {
    exists|u: int| 0 <= u < ubound && #[trigger] unit_contra(b, u, k)
}

/// Some unit holds a contradiction at size `k`.
pub open spec fn elim_contra(b: Seq<u16>, k: int) -> bool {
    elim_contra_below(b, k, 27)
}

/// A locked combination below `mbound` of unit `u` removes digit `d`
/// from cell `idx`: the cell is in the unit outside the combination and
/// `d` is in the union.
pub open spec fn unit_removes_below(
    b: Seq<u16>,
    u: int,
    k: int,
    mbound: int,
    idx: int,
    d: int,
) -> bool {
    exists|m: u32|
        (m as int) < mbound && #[trigger] locked_combo(b, u, m, k) && outside_combo(u, m, idx)
            && mask_has(combo_union(b, u, m), d)
}

/// Some locked combination of unit `u` removes digit `d` from `idx`.
pub open spec fn unit_removes(b: Seq<u16>, u: int, k: int, idx: int, d: int) -> bool {
    unit_removes_below(b, u, k, 512, idx, d)
}

/// Some unit below `ubound` justifies removing `d` from `idx`.
pub open spec fn justified_below(b: Seq<u16>, k: int, ubound: int, idx: int, d: int) -> bool {
    exists|u: int| 0 <= u < ubound && #[trigger] unit_removes(b, u, k, idx, d)
}

/// The size-`k` elimination rule removes digit `d` from cell `idx`.
pub open spec fn justified(b: Seq<u16>, k: int, idx: int, d: int) -> bool {
    justified_below(b, k, 27, idx, d)
}

/// Some size below `kbound` justifies removing `d` from `idx`.
pub open spec fn justified_any_below(b: Seq<u16>, idx: int, d: int, kbound: int) -> bool {
    exists|k: int| 1 <= k < kbound && #[trigger] justified(b, k, idx, d)
}

/// Some size k in 1..=8 justifies removing `d` from `idx`.
pub open spec fn justified_any(b: Seq<u16>, idx: int, d: int) -> bool {
    justified_any_below(b, idx, d, 9)
}

/// Some size below `kbound` finds a contradiction in `b`.
pub open spec fn reduce_contra_below(b: Seq<u16>, kbound: int) -> bool {
    exists|k: int| 1 <= k < kbound && #[trigger] elim_contra(b, k)
}

/// Some size k in 1..=8 finds a contradiction in `b`.
pub open spec fn reduce_contra(b: Seq<u16>) -> bool {
    reduce_contra_below(b, 9)
}

/// `b2` is the size-`k` elimination of `b`: a digit survives in a cell
/// exactly when it was there and no locked combination removes it.
pub open spec fn is_elim(b: Seq<u16>, b2: Seq<u16>, k: int) -> bool {
    b2.len() == 81 && (forall|idx: int, d: int|
        0 <= idx < 81 ==> (#[trigger] mask_has(b2[idx], d) <==> mask_has(b[idx], d) && !justified(
            b,
            k,
            idx,
            d,
        )))
}

/// `b2` is the full elimination pass over `b`: all sizes k = 1..=8 read
/// the same input board.
pub open spec fn is_reduce(b: Seq<u16>, b2: Seq<u16>) -> bool {
    b2.len() == 81 && (forall|idx: int, d: int|
        0 <= idx < 81 ==> (#[trigger] mask_has(b2[idx], d) <==> mask_has(b[idx], d)
            && !justified_any(b, idx, d)))
}

/// Peeling one position off the bounded "outside the combination"
/// search.
proof fn lemma_outside_unfold(u: int, m: u32, x: int, j: int)
    requires
        0 <= j < 9,
    ensures
        outside_combo_below(u, m, x, j + 1) <==> (outside_combo_below(u, m, x, j) || (unit_cell(
            u,
            j,
        ) == x && !cbit(m, j))),
{
    if outside_combo_below(u, m, x, j + 1) {
        let j2 = choose|j2: int|
            0 <= j2 < j + 1 && #[trigger] unit_cell(u, j2) == x && !cbit(m, j2);
        if j2 < j {
            assert(outside_combo_below(u, m, x, j));
        }
    }
    if outside_combo_below(u, m, x, j) {
        let j2 = choose|j2: int| 0 <= j2 < j && #[trigger] unit_cell(u, j2) == x && !cbit(m, j2);
        assert(0 <= j2 < j + 1 && unit_cell(u, j2) == x && !cbit(m, j2));
    }
    if unit_cell(u, j) == x && !cbit(m, j) {
        assert(0 <= j < j + 1 && unit_cell(u, j) == x && !cbit(m, j));
    }
}

/// The one-position combination holds position `i` alone.
pub proof fn lemma_cbit_single(i: int)
    requires
        0 <= i < 9,
    ensures
        forall|i2: int| #[trigger] cbit(1u32 << (i as u32), i2) <==> i2 == i,
        (1u32 << (i as u32)) < 512,
{
    let s: u32 = i as u32;
    assert forall|i2: int| #[trigger] cbit(1u32 << (i as u32), i2) <==> i2 == i by {
        if 0 <= i2 < 9 {
            let t: u32 = i2 as u32;
            assert(((1u32 << s) >> t) & 1u32 == 1u32 <==> t == s) by (bit_vector)
                requires
                    s < 9,
                    t < 9,
            ;
        }
    }
    assert((1u32 << s) < 512) by (bit_vector)
        requires
            s < 9,
    ;
}

proof fn lemma_csize_upto_unique(m: u32, i0: int, i: int)
    requires
        0 <= i0 < 9,
        cbit(m, i0),
        forall|i2: int| cbit(m, i2) ==> i2 == i0,
    ensures
        csize_upto(m, i) == if i0 < i {
            1nat
        } else {
            0nat
        },
    decreases i,
{
    if i > 0 {
        lemma_csize_upto_unique(m, i0, i - 1);
    }
}

/// A combination holding one position alone has size one.
pub proof fn lemma_csize_unique(m: u32, i0: int)
    requires
        0 <= i0 < 9,
        cbit(m, i0),
        forall|i2: int| cbit(m, i2) ==> i2 == i0,
    ensures
        csize(m) == 1,
{
    lemma_csize_upto_unique(m, i0, 9);
}

/// What the combination's union holds: exactly the candidates of its
/// cells.
pub proof fn lemma_combo_union_upto_has(b: Seq<u16>, u: int, m: u32, i: int)
    requires
        0 <= i <= 9,
    ensures
        forall|d: int|
            #[trigger] mask_has(combo_union_upto(b, u, m, i), d) <==> (exists|i2: int|
                0 <= i2 < i && #[trigger] cbit(m, i2) && mask_has(b[unit_cell(u, i2)], d)),
    decreases i,
{
    crate::cells::lemma_empty_has();
    if i == 0 {
    } else {
        lemma_combo_union_upto_has(b, u, m, i - 1);
        let prev = combo_union_upto(b, u, m, i - 1);
        let x: u16 = if cbit(m, i - 1) {
            b[unit_cell(u, i - 1)]
        } else {
            0u16
        };
        crate::cells::lemma_union_has(prev, x);
        assert forall|d: int|
            #[trigger] mask_has(combo_union_upto(b, u, m, i), d) <==> (exists|i2: int|
                0 <= i2 < i && #[trigger] cbit(m, i2) && mask_has(b[unit_cell(u, i2)], d)) by {
            if mask_has(combo_union_upto(b, u, m, i), d) {
                if mask_has(prev, d) {
                    let i2 = choose|i2: int|
                        0 <= i2 < i - 1 && #[trigger] cbit(m, i2) && mask_has(
                            b[unit_cell(u, i2)],
                            d,
                        );
                    assert(0 <= i2 < i && cbit(m, i2) && mask_has(b[unit_cell(u, i2)], d));
                } else {
                    assert(mask_has(x, d));
                    assert(cbit(m, i - 1));
                    assert(0 <= i - 1 < i && cbit(m, i - 1) && mask_has(
                        b[unit_cell(u, i - 1)],
                        d,
                    ));
                }
            }
            if exists|i2: int|
                0 <= i2 < i && #[trigger] cbit(m, i2) && mask_has(b[unit_cell(u, i2)], d) {
                let i2 = choose|i2: int|
                    0 <= i2 < i && #[trigger] cbit(m, i2) && mask_has(b[unit_cell(u, i2)], d);
                if i2 < i - 1 {
                    assert(mask_has(prev, d));
                } else {
                    assert(mask_has(x, d));
                }
            }
        }
    }
}

/// What the whole union holds.
pub proof fn lemma_combo_union_has(b: Seq<u16>, u: int, m: u32)
    ensures
        forall|d: int|
            #[trigger] mask_has(combo_union(b, u, m), d) <==> (exists|i2: int|
                0 <= i2 < 9 && #[trigger] cbit(m, i2) && mask_has(b[unit_cell(u, i2)], d)),
{
    lemma_combo_union_upto_has(b, u, m, 9);
}

/// The full elimination pass's outcome is a function of its input:
/// two boards that both stand in the pass relation to `b` are equal.
pub proof fn lemma_reduce_deterministic(b: Seq<u16>, x: Seq<u16>, y: Seq<u16>)
    requires
        is_reduce(b, x),
        is_reduce(b, y),
        board_wf(x),
        board_wf(y),
    ensures
        x == y,
{
    assert forall|idx: int| 0 <= idx < 81 implies x[idx] == y[idx] by {
        assert forall|d: int| mask_has(x[idx], d) <==> mask_has(y[idx], d) by {
            assert(mask_has(x[idx], d) <==> mask_has(b[idx], d) && !justified_any(b, idx, d));
            assert(mask_has(y[idx], d) <==> mask_has(b[idx], d) && !justified_any(b, idx, d));
        }
        crate::cells::lemma_mask_ext(x[idx], y[idx]);
    }
    assert(x =~= y);
}

/// How many positions the combination `m` holds, executably.
fn popcount9(m: u32) -> (r: usize)
    ensures
        r == csize(m),
{
    let mut i: usize = 0;
    let mut acc: usize = 0;
    while i < 9
        invariant
            i <= 9,
            acc == csize_upto(m, i as int),
            acc <= i,
        decreases 9 - i,
    {
        if (m >> (i as u32)) & 1u32 == 1u32 {
            assert(cbit(m, i as int));
            acc = acc + 1;
        } else {
            assert(!cbit(m, i as int));
        }
        i = i + 1;
    }
    acc
}

/// Whether every cell of the combination has at most `k` candidates.
fn pool_ok(src: &Sudoku, u: usize, m: u32, k: usize) -> (r: bool)
    requires
        src.wf(),
        u < 27,
    ensures
        r == combo_in_pool(src@, u as int, m, k as int),
{
    let mut i: usize = 0;
    while i < 9
        invariant
            i <= 9,
            src.wf(),
            u < 27,
            forall|i2: int|
                0 <= i2 < i && #[trigger] cbit(m, i2) ==> count(src@[unit_cell(u as int, i2)])
                    <= k,
        decreases 9 - i,
    {
        if (m >> (i as u32)) & 1u32 == 1u32 {
            assert(cbit(m, i as int));
            let idx = unit_cell_at(u, i);
            if src.count_at(idx) > k {
                assert(count(src@[unit_cell(u as int, i as int)]) > k);
                return false;
            }
        } else {
            assert(!cbit(m, i as int));
        }
        i = i + 1;
    }
    assert forall|i2: int| #[trigger] cbit(m, i2) implies count(src@[unit_cell(u as int, i2)])
        <= k by {}
    true
}

/// The union of the candidates at the combination's cells, executably.
fn combo_union_exec(src: &Sudoku, u: usize, m: u32) -> (r: u16)
    requires
        src.wf(),
        u < 27,
    ensures
        r == combo_union(src@, u as int, m),
{
    let mut i: usize = 0;
    let mut acc: u16 = 0;
    while i < 9
        invariant
            i <= 9,
            src.wf(),
            u < 27,
            acc == combo_union_upto(src@, u as int, m, i as int),
        decreases 9 - i,
    {
        if (m >> (i as u32)) & 1u32 == 1u32 {
            assert(cbit(m, i as int));
            let idx = unit_cell_at(u, i);
            acc = acc | src.mask_at(idx);
        } else {
            assert(!cbit(m, i as int));
            proof {
                let a = acc;
                assert(a | 0u16 == a) by (bit_vector);
            }
        }
        i = i + 1;
    }
    acc
}

/// Apply the size-`k` elimination rule of unit `u`, reading `src` and
/// removing digits from `out`.
fn eliminate_unit_into(src: &Sudoku, k: usize, u: usize, out: &mut Sudoku) -> (r: Result<
    (),
    SudokuError,
>)
    requires
        src.wf(),
        old(out).wf(),
        1 <= k <= 8,
        u < 27,
    ensures
        r is Ok ==> final(out).wf() && final(out)@.len() == 81 && !unit_contra(
            src@,
            u as int,
            k as int,
        ) && (forall|idx: int, d: int|
            0 <= idx < 81 ==> (#[trigger] mask_has(final(out)@[idx], d) <==> mask_has(
                old(out)@[idx],
                d,
            ) && !unit_removes(src@, u as int, k as int, idx, d))),
        r is Err ==> r == Result::<(), SudokuError>::Err(SudokuError::Contradiction)
            && unit_contra(src@, u as int, k as int),
{
    let ghost uu = u as int;
    let ghost kk = k as int;
    let ghost out0 = out@;
    let mut m: u32 = 0;
    while m < 512
        invariant
            m <= 512,
            src.wf(),
            out.wf(),
            out@.len() == 81,
            1 <= k <= 8,
            u < 27,
            uu == u as int,
            kk == k as int,
            out0 == old(out)@,
            old(out).wf(),
            forall|idx: int, d: int|
                0 <= idx < 81 ==> (#[trigger] mask_has(out@[idx], d) <==> mask_has(out0[idx], d)
                    && !unit_removes_below(src@, uu, kk, m as int, idx, d)),
            !unit_contra_below(src@, uu, kk, m as int),
        decreases 512 - m,
    {
        let cs = popcount9(m);
        if cs != k {
            proof {
                assert(!locked_combo(src@, uu, m, kk));
                assert(!contra_combo(src@, uu, m, kk));
            }
        } else {
            let p = pool_ok(src, u, m, k);
            if !p {
                proof {
                    assert(!locked_combo(src@, uu, m, kk));
                    assert(!contra_combo(src@, uu, m, kk));
                }
            } else {
                let un = combo_union_exec(src, u, m);
                let cu = count_mask(un);
                if cu < k {
                    proof {
                        assert(contra_combo(src@, uu, m, kk));
                        assert(unit_contra(src@, uu, kk));
                    }
                    return Err(SudokuError::Contradiction);
                } else if cu > k {
                    proof {
                        assert(!locked_combo(src@, uu, m, kk));
                        assert(!contra_combo(src@, uu, m, kk));
                    }
                } else {
                    proof {
                        assert(locked_combo(src@, uu, m, kk));
                        assert(!contra_combo(src@, uu, m, kk));
                    }
                    let ghost out_m = out@;
                    let mut j: usize = 0;
                    while j < 9
                        invariant
                            j <= 9,
                            src.wf(),
                            out.wf(),
                            out@.len() == 81,
                            u < 27,
                            uu == u as int,
                            un == combo_union(src@, uu, m),
                            forall|idx: int, d: int|
                                0 <= idx < 81 ==> (#[trigger] mask_has(out@[idx], d) <==> mask_has(
                                    out_m[idx],
                                    d,
                                ) && !(mask_has(un, d) && outside_combo_below(
                                    uu,
                                    m,
                                    idx,
                                    j as int,
                                ))),
                        decreases 9 - j,
                    {
                        if (m >> (j as u32)) & 1u32 == 1u32 {
                            proof {
                                assert(cbit(m, j as int));
                                assert forall|idx: int, d: int|
                                    0 <= idx < 81 implies (#[trigger] mask_has(out@[idx], d)
                                    <==> mask_has(out_m[idx], d) && !(mask_has(un, d)
                                    && outside_combo_below(uu, m, idx, j + 1))) by {
                                    lemma_outside_unfold(uu, m, idx, j as int);
                                }
                            }
                        } else {
                            proof {
                                assert(!cbit(m, j as int));
                            }
                            let idx = unit_cell_at(u, j);
                            let ghost prev = out@;
                            out.remove_mask_at(idx, un);
                            proof {
                                lemma_diff_has(prev[idx as int], un);
                                assert forall|x: int, d: int|
                                    0 <= x < 81 implies (#[trigger] mask_has(out@[x], d)
                                    <==> mask_has(out_m[x], d) && !(mask_has(un, d)
                                    && outside_combo_below(uu, m, x, j + 1))) by {
                                    lemma_outside_unfold(uu, m, x, j as int);
                                    assert(mask_has(prev[x], d) <==> mask_has(out_m[x], d) && !(
                                    mask_has(un, d) && outside_combo_below(uu, m, x, j as int)));
                                    if x == idx as int {
                                        assert(out@[x] == diff_mask(prev[x], un));
                                        assert(mask_has(out@[x], d) <==> mask_has(prev[x], d)
                                            && !mask_has(un, d));
                                        assert(unit_cell(uu, j as int) == x && !cbit(m, j as int));
                                        assert(outside_combo_below(uu, m, x, j + 1));
                                    } else {
                                        assert(out@[x] == prev[x]);
                                    }
                                }
                            }
                        }
                        j = j + 1;
                    }
                    proof {
                        assert forall|idx: int, d: int|
                            0 <= idx < 81 implies (#[trigger] mask_has(out@[idx], d) <==> mask_has(
                            out0[idx],
                            d,
                        ) && !unit_removes_below(src@, uu, kk, m + 1, idx, d)) by {
                            assert(mask_has(out@[idx], d) <==> mask_has(out_m[idx], d) && !(
                            mask_has(un, d) && outside_combo(uu, m, idx)));
                            if unit_removes_below(src@, uu, kk, m + 1, idx, d) {
                                let m2 = choose|m2: u32|
                                    (m2 as int) < m + 1 && #[trigger] locked_combo(
                                        src@,
                                        uu,
                                        m2,
                                        kk,
                                    ) && outside_combo(uu, m2, idx) && mask_has(
                                        combo_union(src@, uu, m2),
                                        d,
                                    );
                                if (m2 as int) < m as int {
                                    assert(unit_removes_below(src@, uu, kk, m as int, idx, d));
                                } else {
                                    assert(m2 == m);
                                }
                            }
                            if mask_has(out_m[idx], d) && !(mask_has(un, d) && outside_combo(
                                uu,
                                m,
                                idx,
                            )) && !unit_removes_below(src@, uu, kk, m as int, idx, d) {
                                assert(!unit_removes_below(src@, uu, kk, m + 1, idx, d));
                            }
                        }
                    }
                }
            }
        }
        proof {
            if !locked_combo(src@, uu, m, kk) {
                assert forall|idx: int, d: int|
                    0 <= idx < 81 implies (#[trigger] mask_has(out@[idx], d) <==> mask_has(
                    out0[idx],
                    d,
                ) && !unit_removes_below(src@, uu, kk, m + 1, idx, d)) by {
                    if unit_removes_below(src@, uu, kk, m + 1, idx, d) {
                        let m2 = choose|m2: u32|
                            (m2 as int) < m + 1 && #[trigger] locked_combo(src@, uu, m2, kk)
                                && outside_combo(uu, m2, idx) && mask_has(
                                combo_union(src@, uu, m2),
                                d,
                            );
                        assert((m2 as int) < m as int);
                        assert(unit_removes_below(src@, uu, kk, m as int, idx, d));
                    }
                    if unit_removes_below(src@, uu, kk, m as int, idx, d) {
                        assert(unit_removes_below(src@, uu, kk, m + 1, idx, d));
                    }
                }
            }
            assert(!contra_combo(src@, uu, m, kk));
            assert forall|m2: u32| (m2 as int) < m + 1 implies !contra_combo(
                src@,
                uu,
                m2,
                kk,
            ) by {
                if (m2 as int) < m as int {
                    assert(!unit_contra_below(src@, uu, kk, m as int));
                }
            }
            assert(!unit_contra_below(src@, uu, kk, m + 1));
        }
        m = m + 1;
    }
    Ok(())
}

/// Apply the size-`k` elimination rule of every unit, reading `src` and
/// removing digits from `out`.
fn eliminate_into(src: &Sudoku, k: usize, out: &mut Sudoku) -> (r: Result<(), SudokuError>)
    requires
        src.wf(),
        old(out).wf(),
        1 <= k <= 8,
    ensures
        r is Ok ==> final(out).wf() && !elim_contra(src@, k as int) && (forall|idx: int, d: int|
            0 <= idx < 81 ==> (#[trigger] mask_has(final(out)@[idx], d) <==> mask_has(
                old(out)@[idx],
                d,
            ) && !justified(src@, k as int, idx, d))),
        r is Err ==> r == Result::<(), SudokuError>::Err(SudokuError::Contradiction)
            && elim_contra(src@, k as int),
{
    let ghost kk = k as int;
    let ghost out0 = out@;
    let mut u: usize = 0;
    while u < 27
        invariant
            u <= 27,
            src.wf(),
            out.wf(),
            out@.len() == 81,
            1 <= k <= 8,
            kk == k as int,
            out0 == old(out)@,
            old(out).wf(),
            forall|idx: int, d: int|
                0 <= idx < 81 ==> (#[trigger] mask_has(out@[idx], d) <==> mask_has(out0[idx], d)
                    && !justified_below(src@, kk, u as int, idx, d)),
            forall|u2: int| 0 <= u2 < u ==> !(#[trigger] unit_contra(src@, u2, kk)),
        decreases 27 - u,
    {
        let ghost pre = out@;
        match eliminate_unit_into(src, k, u, out) {
            Ok(()) => {},
            Err(e) => {
                assert(elim_contra(src@, kk));
                return Err(e);
            },
        }
        proof {
            assert forall|idx: int, d: int|
                0 <= idx < 81 implies (#[trigger] mask_has(out@[idx], d) <==> mask_has(
                out0[idx],
                d,
            ) && !justified_below(src@, kk, u + 1, idx, d)) by {
                assert(mask_has(out@[idx], d) <==> mask_has(pre[idx], d) && !unit_removes(
                    src@,
                    u as int,
                    kk,
                    idx,
                    d,
                ));
                assert(mask_has(pre[idx], d) <==> mask_has(out0[idx], d) && !justified_below(
                    src@,
                    kk,
                    u as int,
                    idx,
                    d,
                ));
                if justified_below(src@, kk, u + 1, idx, d) {
                    let u2 = choose|u2: int|
                        0 <= u2 < u + 1 && #[trigger] unit_removes(src@, u2, kk, idx, d);
                    if u2 < u as int {
                        assert(justified_below(src@, kk, u as int, idx, d));
                    } else {
                        assert(unit_removes(src@, u as int, kk, idx, d));
                    }
                }
                if justified_below(src@, kk, u as int, idx, d) {
                    assert(justified_below(src@, kk, u + 1, idx, d));
                }
                if unit_removes(src@, u as int, kk, idx, d) {
                    assert(justified_below(src@, kk, u + 1, idx, d));
                }
            }
        }
        u = u + 1;
    }
    Ok(())
}

impl Sudoku {
    /// One pass of the size-`k` naked-subset elimination rule over all
    /// 27 units, reading this board and writing a fresh one. `k == 9`
    /// does nothing. The pass fails with `Contradiction` exactly when
    /// some unit holds `k` pool cells whose candidates unite to fewer
    /// than `k` digits.
    pub fn eliminate(&self, k: usize) -> (r: Result<Sudoku, SudokuError>)
        requires
            self.wf(),
            1 <= k <= 9,
        ensures
            k <= 8 ==> (r matches Ok(b2) ==> b2.wf() && is_elim(self@, b2@, k as int)
                && !elim_contra(self@, k as int)),
            k <= 8 ==> (r is Err ==> r == Result::<Sudoku, SudokuError>::Err(
                SudokuError::Contradiction,
            ) && elim_contra(self@, k as int)),
            k == 9 ==> (r matches Ok(b2) && b2@ == self@ && b2.wf()),
            r matches Ok(b2) ==> (forall|idx: int, d: int|
                0 <= idx < 81 && #[trigger] mask_has(b2@[idx], d) ==> mask_has(self@[idx], d)),
    {
        if k == 9 {
            return Ok(self.duplicate());
        }
        let mut out = self.duplicate();
        match eliminate_into(self, k, &mut out) {
            Ok(()) => Ok(out),
            Err(e) => Err(e),
        }
    }

    /// A full elimination pass: the size-`k` rule for every k = 1..=8,
    /// each reading this same board, all removals written to one fresh
    /// board. Fails with `Contradiction` exactly when some size finds
    /// one.
    pub fn reduce(&self) -> (r: Result<Sudoku, SudokuError>)
        requires
            self.wf(),
        ensures
            r matches Ok(b2) ==> b2.wf() && is_reduce(self@, b2@) && !reduce_contra(self@),
            r is Err ==> r == Result::<Sudoku, SudokuError>::Err(SudokuError::Contradiction)
                && reduce_contra(self@),
            r matches Ok(b2) ==> (forall|idx: int, d: int|
                0 <= idx < 81 && #[trigger] mask_has(b2@[idx], d) ==> mask_has(self@[idx], d)),
    {
        let mut out = self.duplicate();
        let mut k: usize = 1;
        while k <= 8
            invariant
                1 <= k <= 9,
                self.wf(),
                out.wf(),
                out@.len() == 81,
                forall|idx: int, d: int|
                    0 <= idx < 81 ==> (#[trigger] mask_has(out@[idx], d) <==> mask_has(
                        self@[idx],
                        d,
                    ) && !justified_any_below(self@, idx, d, k as int)),
                forall|k2: int| 1 <= k2 < k ==> !(#[trigger] elim_contra(self@, k2)),
            decreases 9 - k,
        {
            let ghost pre = out@;
            match eliminate_into(self, k, &mut out) {
                Ok(()) => {},
                Err(e) => {
                    assert(reduce_contra(self@));
                    return Err(e);
                },
            }
            proof {
                assert forall|idx: int, d: int|
                    0 <= idx < 81 implies (#[trigger] mask_has(out@[idx], d) <==> mask_has(
                    self@[idx],
                    d,
                ) && !justified_any_below(self@, idx, d, k + 1)) by {
                    assert(mask_has(out@[idx], d) <==> mask_has(pre[idx], d) && !justified(
                        self@,
                        k as int,
                        idx,
                        d,
                    ));
                    assert(mask_has(pre[idx], d) <==> mask_has(self@[idx], d)
                        && !justified_any_below(self@, idx, d, k as int));
                    if justified_any_below(self@, idx, d, k + 1) {
                        let k2 = choose|k2: int|
                            1 <= k2 < k + 1 && #[trigger] justified(self@, k2, idx, d);
                        if k2 < k as int {
                            assert(justified_any_below(self@, idx, d, k as int));
                        } else {
                            assert(justified(self@, k as int, idx, d));
                        }
                    }
                    if justified_any_below(self@, idx, d, k as int) {
                        assert(justified_any_below(self@, idx, d, k + 1));
                    }
                    if justified(self@, k as int, idx, d) {
                        assert(justified_any_below(self@, idx, d, k + 1));
                    }
                }
            }
            k = k + 1;
        }
        Ok(out)
    }
}

} // verus!
