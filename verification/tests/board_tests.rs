use sudoku::Sudoku;
use sudoku::SudokuError;

fn empty_grid() -> [[u8; 9]; 9] {
    [[0u8; 9]; 9]
}

#[test]
fn test_new_invalid_clue() {
    let mut grid = empty_grid();
    grid[3][4] = 10;
    let r = Sudoku::new(grid);
    assert!(matches!(r, Err(SudokuError::InvalidClue)));
}

#[test]
fn test_new_clues_reflected() {
    let mut grid = empty_grid();
    grid[0][0] = 5;
    let b = Sudoku::new(grid).unwrap();
    assert!(b.can_be(0, 0, 5));
    for n in 1..=9 {
        if n != 5 {
            assert!(!b.can_be(0, 0, n));
        }
    }
    assert_eq!(b.cell_at(0, 0).size(), 1);
    for n in 1..=9 {
        assert!(b.can_be(4, 7, n));
    }
    assert_eq!(b.cell_at(4, 7).size(), 9);
}

#[test]
fn test_board_difference_self() {
    let mut grid = empty_grid();
    grid[1][2] = 3;
    grid[8][8] = 9;
    let b = Sudoku::new(grid).unwrap();
    let d = b.difference(&b);
    for r in 0..9 {
        for c in 0..9 {
            assert_eq!(d.cell_at(r, c).size(), 0);
        }
    }
}

#[test]
fn test_equals_and_duplicate() {
    let mut grid = empty_grid();
    grid[2][2] = 7;
    let b = Sudoku::new(grid).unwrap();
    let copy = b.duplicate();
    assert!(copy.equals(&b));
    let other = Sudoku::new(empty_grid()).unwrap();
    assert!(!other.equals(&b));
}
