use game2048::matrix::{Cell, Matrix};

#[test]
fn new_grid_has_shape_and_fill() {
    let m = Matrix::new(2, 3, 7u32);
    assert_eq!(m.rows(), 2);
    assert_eq!(m.cols(), 3);
    for r in 0..2 {
        for c in 0..3 {
            assert_eq!(m.data(r, c), 7);
        }
    }
}

#[test]
fn grid_without_rows_has_no_columns() {
    let m = Matrix::new(0, 5, 1u8);
    assert_eq!(m.rows(), 0);
    assert_eq!(m.cols(), 0);
}

#[test]
fn set_data_changes_one_cell() {
    let mut m = Matrix::new(2, 2, 0i32);
    m.set_data(1, 0, 5);
    assert_eq!(m.row(0), vec![0, 0]);
    assert_eq!(m.row(1), vec![5, 0]);
}

#[test]
fn rows_and_columns_round_trip() {
    let mut m = Matrix::new(3, 2, 0u64);
    m.set_row(1, &vec![1, 2]);
    assert_eq!(m.row(1), vec![1, 2]);
    assert_eq!(m.col(0), vec![0, 1, 0]);
    m.set_col(1, &vec![7, 8, 9]);
    assert_eq!(m.col(1), vec![7, 8, 9]);
    assert_eq!(m.row(1), vec![1, 8]);
    assert_eq!(m.data(2, 1), 9);
}

#[test]
fn row_is_a_snapshot() {
    let mut m = Matrix::new(1, 2, 3u64);
    let r = m.row(0);
    m.set_data(0, 0, 9);
    assert_eq!(r, vec![3, 3]);
    assert_eq!(m.row(0), vec![9, 3]);
}

#[test]
fn random_cell_with_no_match_is_none() {
    let m = Matrix::new(3, 3, 1u64);
    assert_eq!(m.get_random_by_pred(|v| v == 0), None);
}

#[test]
fn random_cell_with_one_match_is_that_cell() {
    let mut m = Matrix::new(3, 4, 1u64);
    m.set_data(2, 1, 0);
    for _ in 0..50 {
        assert_eq!(m.get_random_by_pred(|v| v == 0), Some(Cell { row: 2, col: 1 }));
    }
}

#[test]
fn random_cell_only_picks_matches() {
    let mut m = Matrix::new(2, 2, 0u64);
    m.set_data(0, 1, 4);
    m.set_data(1, 0, 4);
    let mut seen = [false; 2];
    for _ in 0..200 {
        let c = m.get_random_by_pred(|v| v == 4).unwrap();
        assert_eq!(m.data(c.row, c.col), 4);
        seen[c.row] = true;
    }
    assert!(seen[0] && seen[1]);
}
