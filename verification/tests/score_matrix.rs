use raligner::{AllocationFailure, ScoreMatrix};

#[test]
fn new_matrix_holds_zero_everywhere() {
    let matrix = ScoreMatrix::new(3, 5).expect("a 3 by 5 matrix");
    assert_eq!(matrix.rows(), 3);
    assert_eq!(matrix.cols(), 5);
    for row in 0..3 {
        for col in 0..5 {
            assert_eq!(matrix.get(row, col), 0);
        }
    }
}

#[test]
fn matrix_without_cells_is_always_created() {
    let no_rows = ScoreMatrix::new(0, 9).expect("a matrix without rows");
    assert_eq!((no_rows.rows(), no_rows.cols()), (0, 9));
    let no_cols = ScoreMatrix::new(9, 0).expect("a matrix without columns");
    assert_eq!((no_cols.rows(), no_cols.cols()), (9, 0));
    assert!(ScoreMatrix::new(0, 0).is_ok());
    assert!(ScoreMatrix::new(usize::MAX, 0).is_ok());
}

#[test]
fn product_that_overflows_is_an_allocation_failure() {
    assert_eq!(ScoreMatrix::new(usize::MAX, 2).err(), Some(AllocationFailure));
    assert_eq!(ScoreMatrix::new(2, usize::MAX).err(), Some(AllocationFailure));
    assert_eq!(ScoreMatrix::new(usize::MAX, usize::MAX).err(), Some(AllocationFailure));
    let half = 1usize << (usize::BITS / 2);
    assert_eq!(ScoreMatrix::new(half, half).err(), Some(AllocationFailure));
}

#[test]
fn more_cells_than_one_allocation_spans_is_an_allocation_failure() {
    let limit = ScoreMatrix::cell_limit();
    assert_eq!(limit, (isize::MAX as usize) / 16);
    assert_eq!(ScoreMatrix::new(limit + 1, 1).err(), Some(AllocationFailure));
    assert_eq!(ScoreMatrix::new(1, limit + 1).err(), Some(AllocationFailure));
    assert_eq!(ScoreMatrix::new(usize::MAX, 1).err(), Some(AllocationFailure));
    assert_eq!(ScoreMatrix::new(limit / 2 + 1, 2).err(), Some(AllocationFailure));
}

#[test]
fn set_changes_one_cell_and_no_other() {
    let mut matrix = ScoreMatrix::new(4, 3).expect("a 4 by 3 matrix");
    matrix.set(2, 1, 42);
    matrix.set(3, 2, -7);
    for row in 0..4 {
        for col in 0..3 {
            let expected = match (row, col) {
                (2, 1) => 42,
                (3, 2) => -7,
                _ => 0,
            };
            assert_eq!(matrix.get(row, col), expected, "cell ({row}, {col})");
        }
    }
    matrix.set(2, 1, i128::MIN);
    assert_eq!(matrix.get(2, 1), i128::MIN);
    assert_eq!(matrix.get(3, 2), -7);
}

#[test]
fn cells_lie_row_after_row() {
    let storage: Vec<i128> = (0..12).collect();
    let matrix = ScoreMatrix::from_storage(3, 4, Some(storage)).expect("a 3 by 4 matrix");
    assert_eq!((matrix.rows(), matrix.cols()), (3, 4));
    for row in 0..3 {
        for col in 0..4 {
            assert_eq!(matrix.get(row, col), (row * 4 + col) as i128);
        }
    }
    assert_eq!(matrix.get(1, 0), 4);
    assert_eq!(matrix.get(0, 3), 3);
    assert_eq!(matrix.get(2, 3), 11);
}

#[test]
fn missing_storage_is_an_allocation_failure() {
    assert_eq!(ScoreMatrix::from_storage(3, 4, None).err(), Some(AllocationFailure));
    assert_eq!(ScoreMatrix::from_storage(0, 0, None).err(), Some(AllocationFailure));
}

#[test]
fn storage_of_the_wrong_size_is_refused() {
    assert!(ScoreMatrix::from_storage(3, 4, Some(vec![0; 11])).is_err());
    assert!(ScoreMatrix::from_storage(3, 4, Some(vec![0; 13])).is_err());
    assert!(ScoreMatrix::from_storage(3, 4, Some(Vec::new())).is_err());
    assert!(ScoreMatrix::from_storage(usize::MAX, 2, Some(vec![0; 2])).is_err());
    assert!(ScoreMatrix::from_storage(3, 4, Some(vec![0; 12])).is_ok());
    assert!(ScoreMatrix::from_storage(0, 4, Some(Vec::new())).is_ok());
}

#[test]
fn init_writes_cumulative_gap_penalties_on_the_borders() {
    let storage: Vec<i128> = vec![50; 12];
    let mut matrix = ScoreMatrix::from_storage(3, 4, Some(storage)).expect("a 3 by 4 matrix");
    matrix.init(-2);
    let expected: [[i128; 4]; 3] = [[0, -2, -4, -6], [-2, 50, 50, 50], [-4, 50, 50, 50]];
    for row in 0..3 {
        for col in 0..4 {
            assert_eq!(matrix.get(row, col), expected[row][col], "cell ({row}, {col})");
        }
    }
}

#[test]
fn init_with_extreme_penalties_does_not_overflow() {
    let mut matrix = ScoreMatrix::new(2, 6).expect("a 2 by 6 matrix");
    matrix.init(i32::MIN);
    assert_eq!(matrix.get(0, 5), 5 * (i32::MIN as i128));
    assert_eq!(matrix.get(1, 0), i32::MIN as i128);
    matrix.init(i32::MAX);
    assert_eq!(matrix.get(0, 5), 5 * (i32::MAX as i128));
    assert_eq!(matrix.get(0, 0), 0);
}

#[test]
fn init_of_a_matrix_without_cells_does_nothing() {
    let mut no_rows = ScoreMatrix::new(0, 3).expect("a matrix without rows");
    no_rows.init(-1);
    assert_eq!((no_rows.rows(), no_rows.cols()), (0, 3));
    let mut no_cols = ScoreMatrix::new(3, 0).expect("a matrix without columns");
    no_cols.init(-1);
    assert_eq!((no_cols.rows(), no_cols.cols()), (3, 0));
}

#[test]
fn single_cell_matrix() {
    let mut matrix = ScoreMatrix::new(1, 1).expect("a 1 by 1 matrix");
    matrix.set(0, 0, 5);
    assert_eq!(matrix.get(0, 0), 5);
    matrix.init(-9);
    assert_eq!(matrix.get(0, 0), 0);
}

#[test]
fn failure_has_a_message() {
    assert_eq!(AllocationFailure.message(), "Failed to allocate matrix");
}
