use lif_network::grid::Matrix;

#[test]
fn from_rows_and_back() {
    let rows = vec![vec![1, 2, 3], vec![4, 5, 6]];
    let m = Matrix::from_rows(&rows, 3).unwrap();
    assert_eq!(m.dim(), (2, 3));
    assert_eq!(m.get(1, 0), 4);
    assert_eq!(m.get(0, 2), 3);
    assert_eq!(m.to_rows(), rows);
}

#[test]
fn from_rows_rejects_ragged_rows() {
    assert!(Matrix::from_rows(&vec![vec![1, 2], vec![3]], 2).is_none());
    assert!(Matrix::from_rows(&vec![vec![1, 2]], 3).is_none());
}

#[test]
fn from_rows_with_no_rows() {
    let m = Matrix::from_rows(&vec![], 4).unwrap();
    assert_eq!(m.dim(), (0, 4));
    assert!(m.to_rows().is_empty());
}

#[test]
fn zeros_then_set_one_element() {
    let mut m = Matrix::zeros(2, 2);
    assert_eq!(m.to_rows(), vec![vec![0, 0], vec![0, 0]]);
    m.set(1, 0, 7);
    assert_eq!(m.to_rows(), vec![vec![0, 0], vec![7, 0]]);
}

#[test]
fn from_rows_rejects_too_many_columns() {
    assert!(Matrix::from_rows(&vec![], usize::MAX).is_none());
    assert!(Matrix::from_rows(&vec![], isize::MAX as usize + 1).is_none());
}
