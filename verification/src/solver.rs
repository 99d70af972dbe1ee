//! The fixed-point driver.
//!
//! Each round runs a full elimination pass and then an induction pass.
//! Candidate sets only shrink, so the total candidate count is a
//! strictly decreasing measure while rounds keep changing the board;
//! the loop ends at a fixed point or a contradiction.

use vstd::prelude::*;
use crate::cells::{
    count, lemma_count_subset_le, lemma_count_subset_lt, lemma_mask_ext, mask_has, SudokuError,
};
use crate::board::{board_wf, Sudoku};
use crate::engine::{is_reduce, lemma_reduce_deterministic, reduce_contra};
use crate::induction::{is_induce, lemma_induce_deterministic, lemma_induce_subset};

verus! {

/// The candidate count of the cells below `i`, summed.
pub open spec fn total_upto(b: Seq<u16>, i: int) -> nat
    decreases i,
{
    if i <= 0 {
        0
    } else {
        total_upto(b, i - 1) + count(b[i - 1])
    }
}

/// The candidate count of the whole board.
pub open spec fn total_count(b: Seq<u16>) -> nat {
    total_upto(b, 81)
}

proof fn lemma_total_upto_le(a: Seq<u16>, b: Seq<u16>, i: int)
    requires
        i <= 81,
        forall|idx: int, d: int|
            0 <= idx < 81 && #[trigger] mask_has(a[idx], d) ==> mask_has(b[idx], d),
    ensures
        total_upto(a, i) <= total_upto(b, i),
    decreases i,
{
    if i > 0 {
        lemma_total_upto_le(a, b, i - 1);
        lemma_count_subset_le(a[i - 1], b[i - 1]);
    }
}

proof fn lemma_total_upto_lt(a: Seq<u16>, b: Seq<u16>, iw: int, dw: int, i: int)
    requires
        i <= 81,
        0 <= iw < 81,
        forall|idx: int, d: int|
            0 <= idx < 81 && #[trigger] mask_has(a[idx], d) ==> mask_has(b[idx], d),
        mask_has(b[iw], dw),
        !mask_has(a[iw], dw),
    ensures
        iw < i ==> total_upto(a, i) < total_upto(b, i),
        total_upto(a, i) <= total_upto(b, i),
    decreases i,
{
    if i > 0 {
        lemma_total_upto_lt(a, b, iw, dw, i - 1);
        if i - 1 == iw {
            lemma_count_subset_lt(a[i - 1], b[i - 1], dw);
        } else {
            lemma_count_subset_le(a[i - 1], b[i - 1]);
        }
    }
}

/// A board that shrank somewhere has a strictly smaller total count.
pub proof fn lemma_total_count_lt(a: Seq<u16>, b: Seq<u16>)
    requires
        board_wf(a),
        board_wf(b),
        a != b,
        forall|idx: int, d: int|
            0 <= idx < 81 && #[trigger] mask_has(a[idx], d) ==> mask_has(b[idx], d),
    ensures
        total_count(a) < total_count(b),
{
    let iw = choose|iw: int| 0 <= iw < 81 && a[iw] != b[iw];
    assert(0 <= iw < 81 && a[iw] != b[iw]) by {
        if forall|i: int| 0 <= i < 81 ==> a[i] == b[i] {
            assert(a =~= b);
        }
    }
    let dw = choose|dw: int| mask_has(b[iw], dw) && !mask_has(a[iw], dw);
    assert(mask_has(b[iw], dw) && !mask_has(a[iw], dw)) by {
        if forall|d: int| mask_has(b[iw], d) ==> mask_has(a[iw], d) {
            assert forall|d: int| mask_has(a[iw], d) <==> mask_has(b[iw], d) by {}
            lemma_mask_ext(a[iw], b[iw]);
        }
    }
    lemma_total_upto_lt(a, b, iw, dw, 81);
}

/// A board at its propagation fixed point: no size finds a
/// contradiction, no elimination removes anything, no hidden single
/// assigns anything.
pub open spec fn is_fixed_point(b: Seq<u16>) -> bool {
    !reduce_contra(b) && is_reduce(b, b) && is_induce(b, b)
}

/// The board the full elimination pass turns `b` into. The pass
/// relation is functional, so this names its one well-formed outcome.
pub open spec fn reduce_spec(b: Seq<u16>) -> Seq<u16> {
    choose|b2: Seq<u16>| #[trigger] is_reduce(b, b2) && board_wf(b2)
}

/// The board the induction pass turns `b` into.
pub open spec fn induce_spec(b: Seq<u16>) -> Seq<u16> {
    choose|b2: Seq<u16>| #[trigger] is_induce(b, b2) && board_wf(b2)
}

/// One driver round: a full elimination pass, then an induction pass.
pub open spec fn round_spec(b: Seq<u16>) -> Seq<u16> {
    induce_spec(reduce_spec(b))
}

/// The board after `n` driver rounds from `b`.
pub open spec fn round_iter(b: Seq<u16>, n: nat) -> Seq<u16>
    decreases n,
{
    if n == 0 {
        b
    } else {
        round_spec(round_iter(b, (n - 1) as nat))
    }
}

impl Sudoku {
    /// Run elimination-then-induction rounds from this board until a
    /// round returns its input unchanged, or a round reports a
    /// contradiction. The result of a successful run is a fixed point
    /// whose candidates are drawn from this board's; a board that
    /// already is a fixed point comes back unchanged.
    pub fn solve(&self) -> (r: Result<Sudoku, SudokuError>)
        requires
            self.wf(),
        ensures
            r matches Ok(b) ==> b.wf() && is_fixed_point(b@) && (forall|idx: int, d: int|
                0 <= idx < 81 && #[trigger] mask_has(b@[idx], d) ==> mask_has(self@[idx], d)),
            r matches Ok(b) ==> (exists|n: nat|
                b@ == #[trigger] round_iter(self@, n) && (forall|m: nat|
                    m <= n ==> !reduce_contra(#[trigger] round_iter(self@, m)))),
            r is Err ==> r == Result::<Sudoku, SudokuError>::Err(SudokuError::Contradiction),
            r is Err ==> (exists|n: nat|
                reduce_contra(#[trigger] round_iter(self@, n)) && (forall|m: nat|
                    m < n ==> !reduce_contra(#[trigger] round_iter(self@, m)))),
            is_fixed_point(self@) ==> (r matches Ok(b) && b@ == self@),
    {
        let mut cur = self.duplicate();
        let ghost mut rounds: nat = 0;
        loop
            invariant
                self.wf(),
                cur.wf(),
                cur@ == round_iter(self@, rounds),
                forall|m: nat| m < rounds ==> !reduce_contra(#[trigger] round_iter(self@, m)),
                forall|idx: int, d: int|
                    0 <= idx < 81 && #[trigger] mask_has(cur@[idx], d) ==> mask_has(
                        self@[idx],
                        d,
                    ),
                is_fixed_point(self@) ==> cur@ == self@,
            decreases total_count(cur@),
        {
            let red = match cur.reduce() {
                Ok(b) => b,
                Err(e) => {
                    proof {
                        if is_fixed_point(self@) {
                            assert(cur@ == self@);
                            assert(reduce_contra(self@));
                            assert(false);
                        }
                        assert(reduce_contra(round_iter(self@, rounds)));
                    }
                    return Err(e);
                },
            };
            let ind = red.induce();
            proof {
                lemma_induce_subset(red@, ind@);
                assert(is_reduce(cur@, red@) && board_wf(red@));
                assert(is_reduce(cur@, reduce_spec(cur@)) && board_wf(reduce_spec(cur@))) by {
                    assert(exists|b2: Seq<u16>| #[trigger] is_reduce(cur@, b2) && board_wf(b2));
                }
                lemma_reduce_deterministic(cur@, red@, reduce_spec(cur@));
                assert(is_induce(red@, ind@) && board_wf(ind@));
                assert(is_induce(red@, induce_spec(red@)) && board_wf(induce_spec(red@))) by {
                    assert(exists|b2: Seq<u16>| #[trigger] is_induce(red@, b2) && board_wf(b2));
                }
                lemma_induce_deterministic(red@, ind@, induce_spec(red@));
                assert(ind@ == round_spec(cur@));
                assert(ind@ == round_iter(self@, rounds + 1));
            }
            if ind.equals(&cur) {
                proof {
                    assert forall|idx: int| 0 <= idx < 81 implies red@[idx] == cur@[idx] by {
                        assert forall|d: int| mask_has(red@[idx], d) <==> mask_has(
                            cur@[idx],
                            d,
                        ) by {
                            if mask_has(cur@[idx], d) {
                                assert(mask_has(ind@[idx], d));
                            }
                        }
                        lemma_mask_ext(red@[idx], cur@[idx]);
                    }
                    assert(red@ =~= cur@);
                    assert(red@ == ind@ && cur@ == ind@);
                    assert(is_reduce(ind@, ind@));
                    assert(is_induce(ind@, ind@));
                    assert(!reduce_contra(ind@));
                    assert(ind@ == round_iter(self@, rounds));
                    assert forall|m: nat| m <= rounds implies !reduce_contra(
                        #[trigger] round_iter(self@, m),
                    ) by {
                        if m == rounds {
                            assert(!reduce_contra(cur@));
                        }
                    }
                }
                return Ok(ind);
            }
            proof {
                assert(ind@ != cur@);
                assert forall|idx: int, d: int|
                    0 <= idx < 81 && #[trigger] mask_has(ind@[idx], d) implies mask_has(
                    cur@[idx],
                    d,
                ) by {
                    assert(mask_has(red@[idx], d));
                }
                lemma_total_count_lt(ind@, cur@);
                if is_fixed_point(self@) {
                    assert(cur@ == self@);
                    lemma_reduce_deterministic(self@, red@, self@);
                    lemma_induce_deterministic(self@, ind@, self@);
                    assert(false);
                }
            }
            cur = ind;
            proof {
                rounds = rounds + 1;
            }
        }
    }
}

} // verus!
