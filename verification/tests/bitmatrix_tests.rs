//! Tests for the boolean matrix.

use error_correction::bitmatrix::BitMatrix;

#[test]
fn access() {
    let x = BitMatrix::shape(vec![false, true, false, true], 2, 2);
    assert_eq!(x.get(0, 0), false);
    assert_eq!(x.get(0, 1), true);
    assert_eq!(x.get(1, 0), false);
    assert_eq!(x.get(1, 1), true);
}

#[test]
fn transpose() {
    let x = BitMatrix::column_vector(vec![false, true, false]);
    let y = x.transpose();
    assert_eq!(x.get(0, 0), y.get(0, 0));
    assert_eq!(x.get(1, 0), y.get(0, 1));
    assert_eq!(x.get(2, 0), y.get(0, 2));
}

#[test]
fn matrix() {
    let x = BitMatrix::column_vector(vec![true, false, true]);
    let y = BitMatrix::column_vector(vec![true, true, false]).transpose();
    let z = x.dot(&y);
    assert_eq!(z.row_len(), 3);
    assert_eq!(z.column_len(), 3);
    assert_eq!(z.get(0, 0), true);
    assert_eq!(z.get(1, 0), false);
    assert_eq!(z.get(2, 0), true);
    assert_eq!(z.get(0, 1), true);
    assert_eq!(z.get(1, 1), false);
    assert_eq!(z.get(2, 1), true);
    assert_eq!(z.get(0, 2), false);
    assert_eq!(z.get(1, 2), false);
    assert_eq!(z.get(2, 2), false);
}

#[test]
fn multiply() {
    let x = BitMatrix::shape(vec![true, false, false, true], 2, 2);
    let y = BitMatrix::column_vector(vec![true, false]);
    let z = x.dot(&y);
    assert_eq!(z.row_len(), 2);
    assert_eq!(z.column_len(), 1);
    assert_eq!(z.get(0, 0), true);
    assert_eq!(z.get(1, 0), false);
}

#[test]
fn big() {
    let x = BitMatrix::shape(vec![true, false, false, false, true, false], 2, 3);
    let y = BitMatrix::column_vector(vec![true, false, true]);
    let z = x.dot(&y);
    assert_eq!(z.row_len(), 2);
    assert_eq!(z.column_len(), 1);
    assert_eq!(z.get(0, 0), true);
    assert_eq!(z.get(1, 0), false);
}

#[test]
fn dot() {
    let x = BitMatrix::column_vector(vec![true, false, true]).transpose();
    let y = BitMatrix::column_vector(vec![true, false, true]);
    let z = x.dot(&y);
    assert_eq!(z.row_len(), 1);
    assert_eq!(z.column_len(), 1);
    assert_eq!(z.get(0, 0), false);
}

#[test]
fn flip_entry() {
    let mut x = BitMatrix::shape(vec![false, true, false, true], 2, 2);
    x.flip(1, 0);
    assert_eq!(x.get(1, 0), true);
    x.flip(1, 0);
    assert_eq!(x.get(1, 0), false);
}

#[test]
fn rendering() {
    let x = BitMatrix::shape(vec![true, false, false, true], 2, 2);
    assert_eq!(x.format(), "[1 0\n 0 1]");
    let v = BitMatrix::column_vector(vec![true, false]);
    assert_eq!(v.format(), "[1 0]");
}
