//! Grid construction, access, and comparison.

use dense::{DenseError, Grid};

#[test]
fn from_flat_and_accessors() {
    let g = Grid::from_flat(2, 3, vec![1, 2, 3, 4, 5, 6]).unwrap();
    assert_eq!(g.nrows(), 2);
    assert_eq!(g.ncols(), 3);
    assert_eq!(g.get(0, 0), 1);
    assert_eq!(g.get(0, 2), 3);
    assert_eq!(g.get(1, 0), 4);
    assert_eq!(g.get(1, 2), 6);
}

#[test]
fn from_flat_length_mismatch() {
    let r = Grid::from_flat(2, 2, vec![1, 2, 3]);
    assert_eq!(r.unwrap_err(), DenseError::FlatLengthMismatch);
}

#[test]
fn to_flat_round_trip() {
    let values = vec![10, 20, 30, 40, 50, 60];
    let g = Grid::from_flat(3, 2, values.clone()).unwrap();
    assert_eq!(g.to_flat(), values);
}

#[test]
fn same_as_equal_and_unequal() {
    let a = Grid::from_flat(2, 2, vec![1, 2, 3, 4]).unwrap();
    let b = Grid::from_flat(2, 2, vec![1, 2, 3, 4]).unwrap();
    let c = Grid::from_flat(2, 2, vec![1, 2, 3, 5]).unwrap();
    let d = Grid::from_flat(4, 1, vec![1, 2, 3, 4]).unwrap();
    assert!(a.same_as(&b));
    assert!(!a.same_as(&c));
    assert!(!a.same_as(&d));
}
