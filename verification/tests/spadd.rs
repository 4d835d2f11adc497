use csr_ops::csr::CsrMatrix;
use csr_ops::error::OperationErrorType;
use csr_ops::ops::Transpose;
use csr_ops::spadd::{spadd_csr, spadd_csr_unexpected_entry};

fn csr(nrows: usize, ncols: usize, offsets: &[usize], indices: &[usize], values: &[i64]) -> CsrMatrix {
    CsrMatrix::try_from_csr_data(nrows, ncols, offsets.to_vec(), indices.to_vec(), values.to_vec())
        .unwrap()
}

#[test]
fn spadd_copies_a_over_an_equal_pattern() {
    let a = csr(2, 3, &[0, 2, 3], &[0, 2, 1], &[4, -5, 6]);
    let mut c = csr(2, 3, &[0, 2, 3], &[0, 2, 1], &[100, 200, 300]);
    assert!(!c.shares_pattern_with(&a));
    assert!(spadd_csr(&mut c, 0, 1, Transpose(false), &a).is_ok());
    assert_eq!(c.values(), a.values());
    assert_eq!(c.col_indices(), a.col_indices());
    assert_eq!(c.row_offsets(), a.row_offsets());
}

#[test]
fn spadd_over_a_shared_pattern() {
    let a = csr(2, 3, &[0, 2, 3], &[0, 2, 1], &[4, -5, 6]);
    let mut c = CsrMatrix::try_from_pattern_and_values(a.pattern(), vec![1, 2, 3]).unwrap();
    assert!(c.shares_pattern_with(&a));
    assert!(spadd_csr(&mut c, 10, 2, Transpose(false), &a).is_ok());
    assert_eq!(c.values(), &[18, 10, 42]);
    assert!(c.shares_pattern_with(&a));
}

#[test]
fn spadd_into_a_larger_pattern() {
    // C = [[1, 2, 3], [0, 4, 5]], A = [[7, 0, 8], [0, 0, 9]]
    let a = csr(2, 3, &[0, 2, 3], &[0, 2, 2], &[7, 8, 9]);
    let mut c = csr(2, 3, &[0, 3, 5], &[0, 1, 2, 1, 2], &[1, 2, 3, 4, 5]);
    assert!(spadd_csr(&mut c, 2, 3, Transpose(false), &a).is_ok());
    assert_eq!(c.values(), &[23, 4, 30, 8, 37]);
    assert_eq!(c.col_indices(), &[0, 1, 2, 1, 2]);
}

#[test]
fn spadd_with_unit_beta_adds_only() {
    let a = csr(2, 3, &[0, 2, 3], &[0, 2, 2], &[7, 8, 9]);
    let mut c = csr(2, 3, &[0, 3, 5], &[0, 1, 2, 1, 2], &[1, 2, 3, 4, 5]);
    assert!(spadd_csr(&mut c, 1, 1, Transpose(false), &a).is_ok());
    assert_eq!(c.values(), &[8, 2, 11, 4, 14]);

    let mut c = csr(3, 2, &[0, 1, 1, 3], &[0, 0, 1], &[1, 2, 3]);
    assert!(spadd_csr(&mut c, 1, -1, Transpose(true), &a).is_ok());
    assert_eq!(c.values(), &[-6, -6, -6]);
}

#[test]
fn spadd_of_the_transpose() {
    // A = [[7, 0, 8], [0, 0, 9]], so op(A) = [[7, 0], [0, 0], [8, 9]].
    let a = csr(2, 3, &[0, 2, 3], &[0, 2, 2], &[7, 8, 9]);
    // C = [[1, 2], [0, 3], [4, 5]]
    let mut c = csr(3, 2, &[0, 2, 3, 5], &[0, 1, 1, 0, 1], &[1, 2, 3, 4, 5]);
    assert!(spadd_csr(&mut c, 2, 3, Transpose(true), &a).is_ok());
    assert_eq!(c.values(), &[23, 4, 6, 32, 37]);
}

#[test]
fn spadd_fails_on_an_entry_outside_the_pattern() {
    // A holds (1, 0), which C lacks. Row 0 is done before that is found; in
    // row 1 nothing has been added yet; row 2 is never reached.
    let a = csr(3, 2, &[0, 1, 3, 4], &[1, 0, 1, 0], &[10, 20, 30, 40]);
    let mut c = csr(3, 2, &[0, 2, 3, 5], &[0, 1, 1, 0, 1], &[1, 2, 3, 4, 5]);
    let err = spadd_csr(&mut c, 2, 1, Transpose(false), &a).unwrap_err();
    assert_eq!(*err.operation_error_type(), OperationErrorType::InvalidPattern);
    assert_eq!(err.message(), "Found entry in `a` that is not present in `c`.");
    assert_eq!(c.values(), &[2, 14, 6, 4, 5]);
    assert_eq!(c.col_indices(), &[0, 1, 1, 0, 1]);
    assert_eq!(c.row_offsets(), &[0, 2, 3, 5]);
}

#[test]
fn spadd_failure_keeps_what_the_row_had_reached() {
    // In row 0, A holds columns 0, 2 and 3, and C lacks column 2.
    let a = csr(2, 4, &[0, 3, 4], &[0, 2, 3, 1], &[10, 20, 30, 40]);
    let mut c = csr(2, 4, &[0, 3, 4], &[0, 1, 3, 1], &[1, 2, 3, 4]);
    assert!(spadd_csr(&mut c, 3, 1, Transpose(false), &a).is_err());
    assert_eq!(c.values(), &[13, 6, 9, 4]);
}

#[test]
fn spadd_of_the_transpose_fails_on_an_entry_outside_the_pattern() {
    // op(A) holds (0, 0), (2, 0) and (2, 1); C lacks (2, 0).
    let a = csr(2, 3, &[0, 2, 3], &[0, 2, 2], &[7, 8, 9]);
    let mut c = csr(3, 2, &[0, 2, 3, 4], &[0, 1, 1, 1], &[1, 2, 3, 4]);
    let err = spadd_csr(&mut c, 2, 3, Transpose(true), &a).unwrap_err();
    assert_eq!(*err.operation_error_type(), OperationErrorType::InvalidPattern);
    assert_eq!(c.values(), &[23, 4, 6, 8]);
}

#[test]
fn spadd_of_the_transpose_over_a_shared_pattern_looks_positions_up() {
    // A = [[0, 5], [0, 0]] shares its pattern with C, and the transpose of A
    // holds (1, 0), which that pattern lacks.
    let a = csr(2, 2, &[0, 1, 1], &[1], &[5]);
    let mut c = CsrMatrix::try_from_pattern_and_values(a.pattern(), vec![1]).unwrap();
    assert!(spadd_csr(&mut c, 2, 1, Transpose(true), &a).is_err());
    assert_eq!(c.values(), &[2]);

    // A symmetric pattern holds the transpose too.
    let s = csr(2, 2, &[0, 2, 4], &[0, 1, 0, 1], &[1, 2, 3, 4]);
    let mut c = CsrMatrix::try_from_pattern_and_values(s.pattern(), vec![0, 0, 0, 0]).unwrap();
    assert!(spadd_csr(&mut c, 0, 1, Transpose(true), &s).is_ok());
    assert_eq!(c.values(), &[1, 3, 2, 4]);
}

#[test]
fn spadd_wraps_around() {
    let a = csr(1, 1, &[0, 1], &[0], &[i64::MAX]);
    let mut c = csr(1, 1, &[0, 1], &[0], &[i64::MAX]);
    assert!(spadd_csr(&mut c, 1, 1, Transpose(false), &a).is_ok());
    assert_eq!(c.values(), &[-2]);
}

#[test]
fn spadd_error_names_the_operand() {
    let err = spadd_csr_unexpected_entry();
    assert_eq!(*err.operation_error_type(), OperationErrorType::InvalidPattern);
    assert_eq!(err.message(), "Found entry in `a` that is not present in `c`.");
}
