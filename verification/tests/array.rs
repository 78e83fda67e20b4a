use qsalib::array::{Matrix, Vector};

#[test]
fn matrix_keeps_the_rows_it_was_made_of() {
    let rows = vec![vec![1, 2, 3], vec![4, 5, 6]];
    let m = Matrix::from_rows(&rows).unwrap();
    assert_eq!(m.to_rows(), rows);
    assert_eq!(m.shape(), (2, 3));
    assert_eq!(m.get(0, 0), Some(1));
    assert_eq!(m.get(1, 2), Some(6));
    assert_eq!(m.get(2, 0), None);
    assert_eq!(m.get(0, 3), None);
}

#[test]
fn ragged_rows_make_no_matrix() {
    assert!(Matrix::from_rows(&vec![vec![1, 2], vec![3]]).is_none());
    assert!(Matrix::from_rows(&vec![vec![], vec![3]]).is_none());
}

#[test]
fn matrix_without_rows_or_columns() {
    let none = Matrix::from_rows(&Vec::new()).unwrap();
    assert_eq!(none.shape().0, 0);
    assert_eq!(none.to_rows(), Vec::<Vec<u64>>::new());
    let thin = Matrix::from_rows(&vec![vec![], vec![]]).unwrap();
    assert_eq!(thin.shape(), (2, 0));
    assert_eq!(thin.get(0, 0), None);
}

#[test]
fn vector_keeps_the_items_it_was_made_of() {
    let v = Vector::from_vec(vec![7, 8, 9]);
    assert_eq!(v.to_vec(), vec![7, 8, 9]);
    assert_eq!(v.get(0), Some(7));
    assert_eq!(v.get(2), Some(9));
    assert_eq!(v.get(3), None);
    assert_eq!(Vector::from_vec(Vec::new()).to_vec(), Vec::<u64>::new());
}

#[test]
fn matrix_without_rows_has_no_columns() {
    let none = Matrix::from_rows(&Vec::new()).unwrap();
    assert_eq!(none.shape(), (0, 0));
}
