use sudoku::Sudoku;
use sudoku::SudokuError;

fn empty_grid() -> [[u8; 9]; 9] {
    [[0u8; 9]; 9]
}

/// A well-known easy puzzle with a unique solution reachable by
/// singles alone.
fn easy_puzzle() -> [[u8; 9]; 9] {
    [
        [5, 3, 0, 0, 7, 0, 0, 0, 0],
        [6, 0, 0, 1, 9, 5, 0, 0, 0],
        [0, 9, 8, 0, 0, 0, 0, 6, 0],
        [8, 0, 0, 0, 6, 0, 0, 0, 3],
        [4, 0, 0, 8, 0, 3, 0, 0, 1],
        [7, 0, 0, 0, 2, 0, 0, 0, 6],
        [0, 6, 0, 0, 0, 0, 2, 8, 0],
        [0, 0, 0, 4, 1, 9, 0, 0, 5],
        [0, 0, 0, 0, 8, 0, 0, 7, 9],
    ]
}

fn easy_solution() -> [[u8; 9]; 9] {
    [
        [5, 3, 4, 6, 7, 8, 9, 1, 2],
        [6, 7, 2, 1, 9, 5, 3, 4, 8],
        [1, 9, 8, 3, 4, 2, 5, 6, 7],
        [8, 5, 9, 7, 6, 1, 4, 2, 3],
        [4, 2, 6, 8, 5, 3, 7, 9, 1],
        [7, 1, 3, 9, 2, 4, 8, 5, 6],
        [9, 6, 1, 5, 3, 7, 2, 8, 4],
        [2, 8, 7, 4, 1, 9, 6, 3, 5],
        [3, 4, 5, 2, 8, 6, 1, 7, 9],
    ]
}

#[test]
fn test_elimination_k1_removes_peers() {
    let mut grid = empty_grid();
    grid[0][0] = 5;
    let b = Sudoku::new(grid).unwrap();
    let b2 = b.eliminate(1).unwrap();
    // the solved cell keeps its digit
    assert!(b2.can_be(0, 0, 5));
    // same row, same column, same box lose it
    assert!(!b2.can_be(0, 8, 5));
    assert!(!b2.can_be(8, 0, 5));
    assert!(!b2.can_be(1, 1, 5));
    assert!(!b2.can_be(2, 2, 5));
    // an unrelated cell keeps it
    assert!(b2.can_be(4, 4, 5));
    // other digits stay everywhere
    assert!(b2.can_be(0, 8, 4));
}

#[test]
fn test_eliminate_k9_is_noop() {
    let mut grid = empty_grid();
    grid[0][0] = 5;
    let b = Sudoku::new(grid).unwrap();
    let b2 = b.eliminate(9).unwrap();
    assert!(b2.equals(&b));
}

#[test]
fn test_induce_hidden_single() {
    // row 0 leaves digit 5 a single home at (0, 0)
    let mut grid = empty_grid();
    let others = [1u8, 2, 3, 4, 6, 7, 8, 9];
    for c in 1..9 {
        grid[0][c] = others[c - 1];
    }
    let b = Sudoku::new(grid).unwrap();
    assert_eq!(b.cell_at(0, 0).size(), 9);
    let b2 = b.induce();
    assert_eq!(b2.cell_at(0, 0).size(), 1);
    assert!(b2.can_be(0, 0, 5));
    assert!(!b2.can_be(0, 0, 4));
    // induction never removes candidates elsewhere
    assert_eq!(b2.cell_at(1, 0).size(), 9);
}

#[test]
fn test_naked_pair_elimination() {
    // row 0 holds 3..=9 as clues, so its two open cells keep {1, 2}
    // after the size-1 pass; that pair then locks 1 and 2 away from the
    // rest of their box at size 2
    let mut grid = empty_grid();
    for c in 2..9 {
        grid[0][c] = (c + 1) as u8;
    }
    let b = Sudoku::new(grid).unwrap();
    let b1 = b.reduce().unwrap();
    assert_eq!(b1.cell_at(0, 0).size(), 2);
    assert!(b1.can_be(0, 0, 1) && b1.can_be(0, 0, 2));
    assert!(b1.can_be(1, 0, 1) && b1.can_be(1, 0, 2));
    let b2 = b1.eliminate(2).unwrap();
    assert!(!b2.can_be(1, 0, 1) && !b2.can_be(1, 0, 2));
    assert!(!b2.can_be(2, 2, 1) && !b2.can_be(2, 2, 2));
    assert!(b2.can_be(1, 0, 4));
    // the pair itself keeps its candidates
    assert!(b2.can_be(0, 0, 1) && b2.can_be(0, 0, 2));
}

#[test]
fn test_induce_hidden_single_in_box() {
    // box 0 holds every digit but 5, leaving (0, 0) its only home
    let mut grid = empty_grid();
    grid[0][1] = 1;
    grid[0][2] = 2;
    grid[1][0] = 3;
    grid[1][1] = 4;
    grid[1][2] = 6;
    grid[2][0] = 7;
    grid[2][1] = 8;
    grid[2][2] = 9;
    let b = Sudoku::new(grid).unwrap();
    let b2 = b.induce();
    assert_eq!(b2.cell_at(0, 0).size(), 1);
    assert!(b2.can_be(0, 0, 5));
}

#[test]
fn test_induce_hidden_single_in_column() {
    // column 0 holds every digit but 5, leaving (0, 0) its only home
    let mut grid = empty_grid();
    let others = [1u8, 2, 3, 4, 6, 7, 8, 9];
    for r in 1..9 {
        grid[r][0] = others[r - 1];
    }
    let b = Sudoku::new(grid).unwrap();
    let b2 = b.induce();
    assert_eq!(b2.cell_at(0, 0).size(), 1);
    assert!(b2.can_be(0, 0, 5));
}

#[test]
fn test_contradiction_duplicate_clues() {
    let mut grid = empty_grid();
    grid[0][0] = 5;
    grid[0][1] = 5;
    let b = Sudoku::new(grid).unwrap();
    // at size 1 the two singletons wipe each other out without noticing
    let b1 = b.eliminate(1).unwrap();
    assert_eq!(b1.cell_at(0, 0).size(), 0);
    assert_eq!(b1.cell_at(0, 1).size(), 0);
    assert_eq!(b1.cell_at(0, 0).unwrap(), Err(SudokuError::Contradiction));
    // at size 2 their union of one digit is caught at once
    assert_eq!(b.eliminate(2).err(), Some(SudokuError::Contradiction));
    assert_eq!(b.reduce().err(), Some(SudokuError::Contradiction));
    assert_eq!(b.solve().err(), Some(SudokuError::Contradiction));
}

#[test]
fn test_solve_easy_puzzle_matches_solution() {
    let b = Sudoku::new(easy_puzzle()).unwrap();
    let s = b.solve().unwrap();
    let want = easy_solution();
    for r in 0..9 {
        for c in 0..9 {
            assert_eq!(s.cell_at(r, c).unwrap(), Ok(Some(want[r][c] as usize)));
        }
    }
}

#[test]
fn test_fixed_point_idempotent() {
    let b = Sudoku::new(easy_puzzle()).unwrap();
    let s = b.solve().unwrap();
    // re-running elimination and induction on a fixed point changes nothing
    let red = s.reduce().unwrap();
    assert!(red.equals(&s));
    for k in 1..=9 {
        let ek = s.eliminate(k).unwrap();
        assert!(ek.equals(&s));
    }
    let ind = s.induce();
    assert!(ind.equals(&s));
}

#[test]
fn test_converged_units_complete() {
    let b = Sudoku::new(easy_puzzle()).unwrap();
    let s = b.solve().unwrap();
    // every row, column and box resolves every digit exactly once
    for n in 1..=9 {
        for r in 0..9 {
            let hits = (0..9).filter(|&c| s.can_be(r, c, n)).count();
            assert_eq!(hits, 1);
        }
        for c in 0..9 {
            let hits = (0..9).filter(|&r| s.can_be(r, c, n)).count();
            assert_eq!(hits, 1);
        }
        for br in [0, 3, 6] {
            for bc in [0, 3, 6] {
                let mut hits = 0;
                for r in br..br + 3 {
                    for c in bc..bc + 3 {
                        if s.can_be(r, c, n) {
                            hits += 1;
                        }
                    }
                }
                assert_eq!(hits, 1);
            }
        }
    }
}

#[test]
fn test_round_monotonic() {
    let b = Sudoku::new(easy_puzzle()).unwrap();
    let red = b.reduce().unwrap();
    let ind = red.induce();
    for r in 0..9 {
        for c in 0..9 {
            for n in 1..=9 {
                if red.can_be(r, c, n) {
                    assert!(b.can_be(r, c, n));
                }
                if ind.can_be(r, c, n) {
                    assert!(red.can_be(r, c, n));
                }
            }
        }
    }
}

#[test]
fn test_solve_stuck_on_empty_board() {
    // nothing can be deduced from an empty grid: the fixed point is the
    // input itself, reported without error
    let b = Sudoku::new(empty_grid()).unwrap();
    let s = b.solve().unwrap();
    assert!(s.equals(&b));
    assert_eq!(s.cell_at(4, 4).unwrap(), Ok(None));
}
