use csr_ops::csr::{CsrMatrix, SparseEntryMut, SparsityPattern};
use csr_ops::error::{OperationError, OperationErrorType};
use csr_ops::ops::Transpose;
use csr_ops::scalar::{ring_add, ring_mul};

fn csr(nrows: usize, ncols: usize, offsets: &[usize], indices: &[usize], values: &[i64]) -> CsrMatrix {
    CsrMatrix::try_from_csr_data(nrows, ncols, offsets.to_vec(), indices.to_vec(), values.to_vec())
        .unwrap()
}

fn try_csr(
    nrows: usize,
    ncols: usize,
    offsets: &[usize],
    indices: &[usize],
    values: &[i64],
) -> Option<CsrMatrix> {
    CsrMatrix::try_from_csr_data(nrows, ncols, offsets.to_vec(), indices.to_vec(), values.to_vec())
}

#[test]
fn valid_data_make_a_matrix() {
    let m = csr(2, 3, &[0, 2, 3], &[0, 2, 1], &[4, -5, 6]);
    assert_eq!(m.nrows(), 2);
    assert_eq!(m.ncols(), 3);
    assert_eq!(m.nnz(), 3);
    assert_eq!(m.row_offsets(), &[0, 2, 3]);
    assert_eq!(m.col_indices(), &[0, 2, 1]);
    assert_eq!(m.values(), &[4, -5, 6]);
    assert!(try_csr(0, 0, &[0], &[], &[]).is_some());
    assert!(try_csr(0, 4, &[0], &[], &[]).is_some());
    assert!(try_csr(3, 0, &[0, 0, 0, 0], &[], &[]).is_some());
}

#[test]
fn invalid_data_make_none() {
    // offsets of the wrong length
    assert!(try_csr(2, 3, &[0, 2], &[0, 2], &[1, 2]).is_none());
    assert!(try_csr(2, 3, &[], &[], &[]).is_none());
    // offsets that do not start at zero
    assert!(try_csr(2, 3, &[1, 2, 3], &[0, 2, 1], &[4, 5, 6]).is_none());
    // offsets that do not end at the number of indices
    assert!(try_csr(2, 3, &[0, 2, 2], &[0, 2, 1], &[4, 5, 6]).is_none());
    // offsets that descend
    assert!(try_csr(2, 3, &[0, 4, 3], &[0, 1, 2], &[4, 5, 6]).is_none());
    assert!(try_csr(3, 3, &[0, 2, 1, 3], &[0, 1, 2], &[4, 5, 6]).is_none());
    // a column outside the shape
    assert!(try_csr(2, 3, &[0, 2, 3], &[0, 3, 1], &[4, 5, 6]).is_none());
    // columns out of order, or twice
    assert!(try_csr(2, 3, &[0, 2, 3], &[2, 0, 1], &[4, 5, 6]).is_none());
    assert!(try_csr(2, 3, &[0, 2, 3], &[1, 1, 1], &[4, 5, 6]).is_none());
    // values of the wrong length
    assert!(try_csr(2, 3, &[0, 2, 3], &[0, 2, 1], &[4, 5]).is_none());
}

#[test]
fn pattern_is_checked_and_read_back() {
    let p = SparsityPattern::try_from_offsets_and_indices(2, 3, vec![0, 2, 3], vec![0, 2, 1])
        .unwrap();
    assert_eq!(p.major_dim(), 2);
    assert_eq!(p.minor_dim(), 3);
    assert_eq!(p.nnz(), 3);
    assert_eq!(p.major_offsets(), &[0, 2, 3]);
    assert_eq!(p.minor_indices(), &[0, 2, 1]);
    assert!(SparsityPattern::try_from_offsets_and_indices(2, 2, vec![0, 2, 3], vec![0, 2, 1])
        .is_none());
}

#[test]
fn shared_pattern_is_told_by_identity() {
    let a = csr(2, 3, &[0, 2, 3], &[0, 2, 1], &[4, -5, 6]);
    let same_structure = csr(2, 3, &[0, 2, 3], &[0, 2, 1], &[4, -5, 6]);
    let shared = CsrMatrix::try_from_pattern_and_values(a.pattern(), vec![1, 2, 3]).unwrap();
    assert!(a.shares_pattern_with(&shared));
    assert!(shared.shares_pattern_with(&a));
    assert!(!a.shares_pattern_with(&same_structure));
    assert_eq!(shared.col_indices(), &[0, 2, 1]);
    assert_eq!(shared.values(), &[1, 2, 3]);
    assert!(CsrMatrix::try_from_pattern_and_values(a.pattern(), vec![1, 2]).is_none());
    assert!(std::sync::Arc::ptr_eq(&a.pattern(), &shared.pattern()));
}

#[test]
fn entries_are_found_by_position() {
    let m = csr(3, 5, &[0, 4, 4, 5], &[0, 1, 3, 4, 2], &[10, 11, 13, 14, 22]);
    assert_eq!(m.get_entry(0, 0), Some(10));
    assert_eq!(m.get_entry(0, 1), Some(11));
    assert_eq!(m.get_entry(0, 2), None);
    assert_eq!(m.get_entry(0, 3), Some(13));
    assert_eq!(m.get_entry(0, 4), Some(14));
    assert_eq!(m.get_entry(1, 0), None);
    assert_eq!(m.get_entry(2, 2), Some(22));
    assert_eq!(m.get_entry(2, 1), None);
    assert_eq!(m.get_entry(2, 7), None);
    assert_eq!(m.find_slot(0, 3), Some(2));
    assert_eq!(m.find_slot(2, 2), Some(4));
    assert_eq!(m.find_slot(1, 2), None);
}

#[test]
fn entry_lookup_for_mutation() {
    let mut m = csr(2, 3, &[0, 2, 3], &[0, 2, 1], &[4, -5, 6]);
    match m.index_entry_mut(0, 2) {
        SparseEntryMut::NonZero(v) => {
            assert_eq!(*v, -5);
            *v = 50;
        }
        SparseEntryMut::Zero => panic!("(0, 2) is stored"),
    }
    assert!(matches!(m.index_entry_mut(0, 1), SparseEntryMut::Zero));
    assert!(matches!(m.index_entry_mut(1, 2), SparseEntryMut::Zero));
    assert_eq!(m.values(), &[4, 50, 6]);
    m.set_value(2, 7);
    assert_eq!(m.values(), &[4, 50, 7]);
}

#[test]
fn transpose_swaps_rows_and_columns() {
    // [[4, 0, -5], [0, 6, 0]]
    let m = csr(2, 3, &[0, 2, 3], &[0, 2, 1], &[4, -5, 6]);
    let t = m.transpose();
    assert_eq!(t.nrows(), 3);
    assert_eq!(t.ncols(), 2);
    assert_eq!(t.row_offsets(), &[0, 1, 2, 3]);
    assert_eq!(t.col_indices(), &[0, 1, 0]);
    assert_eq!(t.values(), &[4, 6, -5]);
    assert!(!t.shares_pattern_with(&m));

    let back = t.transpose();
    assert_eq!(back.row_offsets(), m.row_offsets());
    assert_eq!(back.col_indices(), m.col_indices());
    assert_eq!(back.values(), m.values());
}

#[test]
fn transpose_of_a_denser_matrix() {
    // [[1, 2, 0, 3], [0, 0, 0, 0], [4, 0, 5, 6]]
    let m = csr(3, 4, &[0, 3, 3, 6], &[0, 1, 3, 0, 2, 3], &[1, 2, 3, 4, 5, 6]);
    let t = m.transpose();
    assert_eq!(t.row_offsets(), &[0, 2, 3, 4, 6]);
    assert_eq!(t.col_indices(), &[0, 2, 0, 2, 0, 2]);
    assert_eq!(t.values(), &[1, 4, 2, 5, 3, 6]);
    for i in 0..3 {
        for j in 0..4 {
            assert_eq!(m.get_entry(i, j), t.get_entry(j, i));
        }
    }
}

#[test]
fn transpose_of_empty_shapes() {
    let m = csr(0, 3, &[0], &[], &[]);
    let t = m.transpose();
    assert_eq!(t.nrows(), 3);
    assert_eq!(t.ncols(), 0);
    assert_eq!(t.row_offsets(), &[0, 0, 0, 0]);
    let m = csr(2, 0, &[0, 0, 0], &[], &[]);
    let t = m.transpose();
    assert_eq!(t.nrows(), 0);
    assert_eq!(t.row_offsets(), &[0]);
}

#[test]
fn ring_operations_wrap() {
    assert_eq!(ring_add(2, 3), 5);
    assert_eq!(ring_add(i64::MAX, 1), i64::MIN);
    assert_eq!(ring_add(i64::MIN, -1), i64::MAX);
    assert_eq!(ring_mul(-4, 5), -20);
    assert_eq!(ring_mul(i64::MAX, 2), -2);
    assert_eq!(ring_mul(i64::MIN, -1), i64::MIN);
}

#[test]
fn transpose_flag_reads_back() {
    assert!(Transpose(true).to_bool());
    assert!(!Transpose(false).to_bool());
}

#[test]
fn operation_error_reads_back() {
    let e = OperationError::from_type_and_message(
        OperationErrorType::InvalidPattern,
        String::from("no slot"),
    );
    assert_eq!(*e.operation_error_type(), OperationErrorType::InvalidPattern);
    assert_eq!(e.message(), "no slot");
}
