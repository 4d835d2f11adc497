use csr_ops::csr::CsrMatrix;
use csr_ops::error::OperationErrorType;
use csr_ops::ops::Transpose;
use csr_ops::spmm::{spmm_csr, spmm_csr_unexpected_entry};

fn csr(nrows: usize, ncols: usize, offsets: &[usize], indices: &[usize], values: &[i64]) -> CsrMatrix {
    CsrMatrix::try_from_csr_data(nrows, ncols, offsets.to_vec(), indices.to_vec(), values.to_vec())
        .unwrap()
}

/// `[[1, 2], [0, 3]]`
fn upper() -> CsrMatrix {
    csr(2, 2, &[0, 2, 3], &[0, 1, 1], &[1, 2, 3])
}

/// `[[4, 0], [5, 6]]`
fn lower() -> CsrMatrix {
    csr(2, 2, &[0, 1, 3], &[0, 0, 1], &[4, 5, 6])
}

fn full(values: &[i64]) -> CsrMatrix {
    csr(2, 2, &[0, 2, 4], &[0, 1, 0, 1], values)
}

#[test]
fn identity_times_b_is_b() {
    let a = csr(2, 2, &[0, 1, 2], &[0, 1], &[1, 1]);
    let b = csr(2, 2, &[0, 1, 3], &[1, 0, 1], &[7, -8, 9]);
    let mut c = csr(2, 2, &[0, 1, 3], &[1, 0, 1], &[100, 200, 300]);
    assert!(spmm_csr(&mut c, 0, 1, Transpose(false), &a, Transpose(false), &b).is_ok());
    assert_eq!(c.values(), b.values());
    assert_eq!(c.col_indices(), b.col_indices());
    assert_eq!(c.row_offsets(), b.row_offsets());
}

#[test]
fn product_of_two_triangles() {
    // [[1, 2], [0, 3]] * [[4, 0], [5, 6]] = [[14, 12], [15, 18]]
    let mut c = full(&[1, 1, 1, 1]);
    assert!(spmm_csr(&mut c, 0, 1, Transpose(false), &upper(), Transpose(false), &lower()).is_ok());
    assert_eq!(c.values(), &[14, 12, 15, 18]);

    let mut c = full(&[1, 1, 1, 1]);
    assert!(spmm_csr(&mut c, 2, 3, Transpose(false), &upper(), Transpose(false), &lower()).is_ok());
    assert_eq!(c.values(), &[44, 38, 47, 56]);
}

#[test]
fn product_with_transposed_operands() {
    // op(A) = [[1, 0], [2, 3]], op(B) = [[4, 5], [0, 6]]
    let mut c = full(&[0, 0, 0, 0]);
    assert!(spmm_csr(&mut c, 0, 1, Transpose(true), &upper(), Transpose(false), &lower()).is_ok());
    assert_eq!(c.values(), &[4, 0, 23, 18]);

    let mut c = full(&[0, 0, 0, 0]);
    assert!(spmm_csr(&mut c, 0, 1, Transpose(false), &upper(), Transpose(true), &lower()).is_ok());
    assert_eq!(c.values(), &[4, 17, 0, 18]);

    let mut c = full(&[0, 0, 0, 0]);
    assert!(spmm_csr(&mut c, 0, 1, Transpose(true), &upper(), Transpose(true), &lower()).is_ok());
    assert_eq!(c.values(), &[4, 5, 8, 28]);
}

#[test]
fn product_of_rectangles() {
    // A is 2 x 3, B is 3 x 2.
    // A = [[1, 0, 2], [0, 3, 0]], B = [[4, 0], [0, 5], [6, 7]]
    let a = csr(2, 3, &[0, 2, 3], &[0, 2, 1], &[1, 2, 3]);
    let b = csr(3, 2, &[0, 1, 2, 4], &[0, 1, 0, 1], &[4, 5, 6, 7]);
    let mut c = csr(2, 2, &[0, 2, 3], &[0, 1, 1], &[1, 1, 1]);
    assert!(spmm_csr(&mut c, -1, 1, Transpose(false), &a, Transpose(false), &b).is_ok());
    assert_eq!(c.values(), &[15, 13, 14]);
}

#[test]
fn product_fails_on_an_entry_outside_the_pattern() {
    // The product holds (0, 0), (0, 1), (1, 0) and (1, 1); C lacks (1, 0).
    // Row 0 is done, row 1 has been scaled and nothing added.
    let mut c = csr(2, 2, &[0, 2, 3], &[0, 1, 1], &[1, 1, 1]);
    let err = spmm_csr(&mut c, 2, 1, Transpose(false), &upper(), Transpose(false), &lower())
        .unwrap_err();
    assert_eq!(*err.operation_error_type(), OperationErrorType::InvalidPattern);
    assert_eq!(err.message(), "Found unexpected entry that is not present in `c`.");
    assert_eq!(c.values(), &[16, 14, 2]);
    assert_eq!(c.col_indices(), &[0, 1, 1]);
}

#[test]
fn product_failure_keeps_the_terms_before_it() {
    // A = [[1, 2]], B = [[3, 0, 4], [5, 6, 0]], C holds (0, 0) and (0, 2).
    // The terms of a[0, 0] are added, then b[1, 0]; b[1, 1] has no slot.
    let a = csr(1, 2, &[0, 2], &[0, 1], &[1, 2]);
    let b = csr(2, 3, &[0, 2, 4], &[0, 2, 0, 1], &[3, 4, 5, 6]);
    let mut c = csr(1, 3, &[0, 2], &[0, 2], &[1, 1]);
    assert!(spmm_csr(&mut c, 10, 1, Transpose(false), &a, Transpose(false), &b).is_err());
    assert_eq!(c.values(), &[23, 14]);
}

#[test]
fn transposed_product_fails_on_an_entry_outside_the_pattern() {
    // op(A) * B = [[1, 0], [2, 3]] * [[4, 0], [5, 6]] holds (1, 0) among others.
    let mut c = csr(2, 2, &[0, 1, 2], &[0, 1], &[1, 1]);
    let err = spmm_csr(&mut c, 1, 1, Transpose(true), &upper(), Transpose(false), &lower())
        .unwrap_err();
    assert_eq!(*err.operation_error_type(), OperationErrorType::InvalidPattern);
    assert_eq!(c.values(), &[5, 1]);
}

#[test]
fn product_without_terms_only_scales() {
    let a = csr(2, 2, &[0, 0, 0], &[], &[]);
    let mut c = full(&[1, 2, 3, 4]);
    assert!(spmm_csr(&mut c, 3, 5, Transpose(false), &a, Transpose(false), &lower()).is_ok());
    assert_eq!(c.values(), &[3, 6, 9, 12]);
}

#[test]
fn product_wraps_around() {
    let a = csr(1, 1, &[0, 1], &[0], &[i64::MAX]);
    let b = csr(1, 1, &[0, 1], &[0], &[2]);
    let mut c = csr(1, 1, &[0, 1], &[0], &[0]);
    assert!(spmm_csr(&mut c, 0, 1, Transpose(false), &a, Transpose(false), &b).is_ok());
    assert_eq!(c.values(), &[-2]);
}

#[test]
fn spmm_error_names_the_destination() {
    let err = spmm_csr_unexpected_entry();
    assert_eq!(*err.operation_error_type(), OperationErrorType::InvalidPattern);
    assert_eq!(err.message(), "Found unexpected entry that is not present in `c`.");
}
