use sudoku::Cell;
use sudoku::SudokuError;

#[test]
fn test_assign_singleton() {
    let mut c = Cell::default();
    c.identify(5);
    assert_eq!(c.size(), 1);
    assert!(c.can_be(5));
    for n in 1..=9 {
        if n != 5 {
            assert!(!c.can_be(n));
        }
    }
}

#[test]
fn test_assign_overwrites() {
    let mut c = Cell::from_mask(0);
    c.identify(3);
    assert_eq!(c.size(), 1);
    assert!(c.can_be(3));
    c.identify(9);
    assert_eq!(c.size(), 1);
    assert!(c.can_be(9));
    assert!(!c.can_be(3));
}

#[test]
fn test_difference_self_empty() {
    let full = Cell::full();
    assert_eq!(full.difference(&full).size(), 0);
    let mut c = Cell::default();
    c.identify(4);
    assert_eq!(c.difference(&c).size(), 0);
}

#[test]
fn test_difference_not_symmetric() {
    // a = {1, 2, 3}, b = {3, 4, 5}
    let mut a = Cell::from_mask(0);
    for n in 1..=3 {
        a.set_at(n);
    }
    let mut b = Cell::from_mask(0);
    for n in 3..=5 {
        b.set_at(n);
    }
    let ab = a.difference(&b);
    let ba = b.difference(&a);
    assert_eq!(ab.size(), 2);
    assert!(ab.can_be(1) && ab.can_be(2) && !ab.can_be(3));
    assert_eq!(ba.size(), 2);
    assert!(ba.can_be(4) && ba.can_be(5) && !ba.can_be(3));
    assert_ne!(ab.mask(), ba.mask());
}

#[test]
fn test_set_unset() {
    let mut c = Cell::default();
    assert!(c.can_be(7));
    c.unset_at(7);
    assert!(!c.can_be(7));
    assert_eq!(c.size(), 8);
    c.set_at(7);
    assert!(c.can_be(7));
    assert_eq!(c.size(), 9);
}

#[test]
fn test_unwrap_empty_is_contradiction() {
    let c = Cell::from_mask(0);
    assert_eq!(c.unwrap(), Err(SudokuError::Contradiction));
}

#[test]
fn test_unwrap_solved() {
    let mut c = Cell::default();
    c.identify(7);
    assert_eq!(c.unwrap(), Ok(Some(7)));
}

#[test]
fn test_unwrap_unsolved() {
    let c = Cell::default();
    assert_eq!(c.unwrap(), Ok(None));
    let mut two = Cell::from_mask(0);
    two.set_at(2);
    two.set_at(8);
    assert_eq!(two.unwrap(), Ok(None));
}
