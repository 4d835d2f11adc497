use csr_ops::csr::CsrMatrix;
use csr_ops::dense::DenseMatrix;
use csr_ops::ops::Transpose;
use csr_ops::spmm_dense::spmm_csr_dense;
use nalgebra::DMatrix;

fn dense(nrows: usize, ncols: usize, data: &[i64]) -> DenseMatrix {
    DenseMatrix::from_row_slice(nrows, ncols, data).unwrap()
}

fn elements(m: &DenseMatrix) -> Vec<i64> {
    let mut out = Vec::new();
    for i in 0..m.nrows() {
        for j in 0..m.ncols() {
            out.push(m.get(i, j));
        }
    }
    out
}

fn csr(nrows: usize, ncols: usize, offsets: &[usize], indices: &[usize], values: &[i64]) -> CsrMatrix {
    CsrMatrix::try_from_csr_data(nrows, ncols, offsets.to_vec(), indices.to_vec(), values.to_vec())
        .unwrap()
}

/// `[[1, 2], [0, 3]]`
fn upper() -> CsrMatrix {
    csr(2, 2, &[0, 2, 3], &[0, 1, 1], &[1, 2, 3])
}

/// `[[2, 0], [0, 3]]`
fn diagonal() -> CsrMatrix {
    csr(2, 2, &[0, 1, 2], &[0, 1], &[2, 3])
}

#[test]
fn diagonal_times_dense() {
    let a = diagonal();
    let b = dense(2, 2, &[1, 2, 3, 4]);
    let mut c = dense(2, 2, &[0, 0, 0, 0]);
    spmm_csr_dense(&mut c, 0, 1, Transpose(false), &a, Transpose(false), &b);
    assert_eq!(elements(&c), vec![2, 4, 9, 12]);
}

#[test]
fn transposed_diagonal_times_dense() {
    let a = diagonal();
    let b = dense(2, 2, &[1, 2, 3, 4]);
    let mut c = dense(2, 2, &[0, 0, 0, 0]);
    spmm_csr_dense(&mut c, 0, 1, Transpose(true), &a, Transpose(false), &b);
    assert_eq!(elements(&c), vec![2, 4, 9, 12]);
}

#[test]
fn asymmetric_operand_tells_the_flags_apart() {
    let a = upper();
    let b = dense(2, 2, &[1, 2, 3, 4]);

    let mut c = dense(2, 2, &[0, 0, 0, 0]);
    spmm_csr_dense(&mut c, 0, 1, Transpose(false), &a, Transpose(false), &b);
    assert_eq!(elements(&c), vec![7, 10, 9, 12]);

    let mut c = dense(2, 2, &[0, 0, 0, 0]);
    spmm_csr_dense(&mut c, 0, 1, Transpose(true), &a, Transpose(false), &b);
    assert_eq!(elements(&c), vec![1, 2, 11, 16]);

    let mut c = dense(2, 2, &[0, 0, 0, 0]);
    spmm_csr_dense(&mut c, 0, 1, Transpose(false), &a, Transpose(true), &b);
    assert_eq!(elements(&c), vec![5, 11, 6, 12]);

    let mut c = dense(2, 2, &[0, 0, 0, 0]);
    spmm_csr_dense(&mut c, 0, 1, Transpose(true), &a, Transpose(true), &b);
    assert_eq!(elements(&c), vec![1, 3, 8, 18]);
}

#[test]
fn beta_and_alpha_weigh_both_parts() {
    let a = upper();
    let b = dense(2, 2, &[1, 2, 3, 4]);
    let mut c = dense(2, 2, &[1, 1, 1, 1]);
    spmm_csr_dense(&mut c, 2, 3, Transpose(false), &a, Transpose(false), &b);
    assert_eq!(elements(&c), vec![23, 32, 29, 38]);

    let mut c = dense(2, 2, &[1, 1, 1, 1]);
    spmm_csr_dense(&mut c, 2, 3, Transpose(true), &a, Transpose(false), &b);
    assert_eq!(elements(&c), vec![5, 8, 35, 50]);
}

#[test]
fn unit_beta_and_zero_alpha_keep_c() {
    let a = upper();
    let b = dense(2, 2, &[1, 2, 3, 4]);
    for ta in [false, true] {
        for tb in [false, true] {
            let mut c = dense(2, 2, &[5, -6, 7, i64::MIN]);
            spmm_csr_dense(&mut c, 1, 0, Transpose(ta), &a, Transpose(tb), &b);
            assert_eq!(elements(&c), vec![5, -6, 7, i64::MIN]);
        }
    }
}

#[test]
fn matches_the_dense_product_of_nalgebra() {
    // A is 3 x 4 with an empty row, B is 4 x 2.
    let a = csr(3, 4, &[0, 2, 2, 5], &[1, 3, 0, 1, 2], &[4, -1, 2, 7, 3]);
    let a_dense = DMatrix::<i64>::from_row_slice(3, 4, &[0, 4, 0, -1, 0, 0, 0, 0, 2, 7, 3, 0]);
    let b_data = [1, 2, -3, 4, 5, 6, 7, -8];
    let b = dense(4, 2, &b_data);
    let b_dense = DMatrix::<i64>::from_row_slice(4, 2, &b_data);
    let expected = &a_dense * &b_dense;

    let mut c = dense(3, 2, &[9, 9, 9, 9, 9, 9]);
    spmm_csr_dense(&mut c, 0, 1, Transpose(false), &a, Transpose(false), &b);
    for i in 0..3 {
        for j in 0..2 {
            assert_eq!(c.get(i, j), expected[(i, j)]);
        }
    }
}

#[test]
fn every_flag_pair_matches_the_transposed_dense_product() {
    let a_data = [0, 4, 0, -1, 0, 0, 0, 0, 2, 7, 3, 0];
    let a = csr(3, 4, &[0, 2, 2, 5], &[1, 3, 0, 1, 2], &[4, -1, 2, 7, 3]);
    let a_dense = DMatrix::<i64>::from_row_slice(3, 4, &a_data);
    for ta in [false, true] {
        for tb in [false, true] {
            let op_a = if ta { a_dense.transpose() } else { a_dense.clone() };
            let inner = op_a.ncols();
            let (b_rows, b_cols) = if tb { (2, inner) } else { (inner, 2) };
            let b_data: Vec<i64> = (0..(b_rows * b_cols) as i64).map(|v| 3 * v - 7).collect();
            let b = dense(b_rows, b_cols, &b_data);
            let b_dense = DMatrix::<i64>::from_row_slice(b_rows, b_cols, &b_data);
            let op_b = if tb { b_dense.transpose() } else { b_dense.clone() };
            let c_data: Vec<i64> = (0..(op_a.nrows() * 2) as i64).map(|v| v + 1).collect();
            let c_dense = DMatrix::<i64>::from_row_slice(op_a.nrows(), 2, &c_data);
            let expected = c_dense * 5 + (&op_a * &op_b) * (-2);

            let mut c = dense(op_a.nrows(), 2, &c_data);
            spmm_csr_dense(&mut c, 5, -2, Transpose(ta), &a, Transpose(tb), &b);
            for i in 0..op_a.nrows() {
                for j in 0..2 {
                    assert_eq!(c.get(i, j), expected[(i, j)], "flags {} {}", ta, tb);
                }
            }
        }
    }
}

#[test]
fn sums_wrap_around() {
    let a = csr(1, 2, &[0, 2], &[0, 1], &[i64::MAX, 1]);
    let b = dense(2, 1, &[2, 3]);
    let mut c = dense(1, 1, &[0]);
    spmm_csr_dense(&mut c, 0, 1, Transpose(false), &a, Transpose(false), &b);
    assert_eq!(c.get(0, 0), i64::MAX.wrapping_mul(2).wrapping_add(3));
    assert_eq!(c.get(0, 0), 1);

    let at = csr(2, 1, &[0, 1, 2], &[0, 0], &[i64::MAX, 1]);
    let mut c = dense(1, 1, &[i64::MIN]);
    spmm_csr_dense(&mut c, -1, 1, Transpose(true), &at, Transpose(false), &b);
    assert_eq!(c.get(0, 0), i64::MIN.wrapping_add(1));
}

#[test]
fn empty_inner_dimension_only_scales() {
    let a = csr(2, 0, &[0, 0, 0], &[], &[]);
    let b = dense(0, 3, &[]);
    let mut c = dense(2, 3, &[1, 2, 3, 4, 5, 6]);
    spmm_csr_dense(&mut c, 3, 7, Transpose(false), &a, Transpose(false), &b);
    assert_eq!(elements(&c), vec![3, 6, 9, 12, 15, 18]);

    let a = csr(0, 2, &[0], &[], &[]);
    let mut c = dense(2, 3, &[1, 2, 3, 4, 5, 6]);
    spmm_csr_dense(&mut c, 3, 7, Transpose(true), &a, Transpose(false), &b);
    assert_eq!(elements(&c), vec![3, 6, 9, 12, 15, 18]);
}

#[test]
fn dense_matrix_is_built_row_by_row() {
    let m = dense(2, 3, &[1, 2, 3, 4, 5, 6]);
    assert_eq!(m.nrows(), 2);
    assert_eq!(m.ncols(), 3);
    assert_eq!(m.get(0, 2), 3);
    assert_eq!(m.get(1, 0), 4);
    assert!(DenseMatrix::from_row_slice(2, 3, &[1, 2, 3, 4, 5]).is_none());
    assert!(DenseMatrix::from_row_slice(usize::MAX, 2, &[1, 2]).is_none());
    assert!(DenseMatrix::from_row_slice(0, 5, &[]).is_some());
}

#[test]
fn dense_set_changes_one_element() {
    let mut m = dense(2, 2, &[1, 2, 3, 4]);
    m.set(1, 0, -9);
    assert_eq!(elements(&m), vec![1, 2, -9, 4]);
}

#[test]
fn dense_scale_multiplies_in_the_ring() {
    let mut m = dense(1, 3, &[1, -2, i64::MAX]);
    m.scale(3);
    assert_eq!(elements(&m), vec![3, -6, i64::MAX.wrapping_mul(3)]);
}
