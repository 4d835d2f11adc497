//! Sparse times dense: `C <- beta * C + alpha * op(A) * op(B)` with a dense
//! `C`.

use crate::csr::CsrMatrix;
use crate::dense::DenseMatrix;
use crate::model::{dot_upto, is_spmm_update, product_at, spmm_dims_compatible, MatrixView};
use crate::ops::Transpose;
use crate::scalar::{
    lemma_accumulate, lemma_add_product, lemma_fused_update, lemma_wrap_fits, ring_add, ring_mul,
    wrap, zero,
};
use vstd::prelude::*;

verus! {

/// Reads `op(b)` at `(k, j)`.
fn read_op(b: &DenseMatrix, trans: bool, k: usize, j: usize) -> (v: i64)
    requires
        k < b@.op(trans).nrows,
        j < b@.op(trans).ncols,
    ensures
        v == b@.op(trans).at(k as int, j as int),
{
    if trans {
        b.get(j, k)
    } else {
        b.get(k, j)
    }
}

/// What the element loops have established is the update of the view.
proof fn lemma_dense_update(
    c_new: &DenseMatrix,
    c_old: &DenseMatrix,
    beta: i64,
    alpha: i64,
    a: MatrixView,
    b: MatrixView,
)
    requires
        c_new.spec_nrows() == c_old.spec_nrows(),
        c_new.spec_ncols() == c_old.spec_ncols(),
        forall|i: int, j: int|
            0 <= i < c_old.spec_nrows() && 0 <= j < c_old.spec_ncols() ==> #[trigger] c_new.spec_at(
                i,
                j,
            ) == wrap(beta * c_old.spec_at(i, j) + alpha * product_at(a, b, i, j)),
    ensures
        is_spmm_update(c_new@, c_old@, beta, alpha, a, b),
{
    assert(c_new@.entries.dom() =~= c_old@.entries.dom());
    assert forall|i: int, j: int| c_old@.entries.contains_key((i, j)) implies #[trigger] c_new@.entries[(
        i,
        j,
    )] == wrap(beta * c_old@.entries[(i, j)] + alpha * product_at(a, b, i, j)) by {
        assert(c_new.spec_at(i, j) == wrap(
            beta * c_old.spec_at(i, j) + alpha * product_at(a, b, i, j),
        ));
    }
}

/// The dot-product form, for an `A` that is read as it is stored: each
/// element of `C` is set once, from the sum over the slots of a row of `A`.
fn spmm_dense_dot_form(
    c: &mut DenseMatrix,
    beta: i64,
    alpha: i64,
    a: &CsrMatrix,
    trans_b: bool,
    b: &DenseMatrix,
)
    requires
        a.wf(),
        spmm_dims_compatible(old(c)@, a@, b@.op(trans_b)),
    ensures
        is_spmm_update(final(c)@, old(c)@, beta, alpha, a@, b@.op(trans_b)),
{
    let m = a.nrows();
    let n = c.ncols();
    let offsets = a.row_offsets();
    let indices = a.col_indices();
    let values = a.values();
    let ghost opb = b@.op(trans_b);
    let mut j: usize = 0;
    while j < n
        invariant
            a.wf(),
            m == a.spec_nrows(),
            offsets@ == a.offsets(),
            indices@ == a.indices(),
            values@ == a.vals(),
            opb == b@.op(trans_b),
            a.spec_ncols() == opb.nrows,
            opb.ncols == n,
            c.spec_nrows() == old(c).spec_nrows(),
            c.spec_ncols() == old(c).spec_ncols(),
            c.spec_nrows() == m,
            c.spec_ncols() == n,
            0 <= j <= n,
            forall|ii: int, jj: int|
                0 <= ii < m && 0 <= jj < n ==> #[trigger] c.spec_at(ii, jj) == (if jj < j {
                    wrap(beta * old(c).spec_at(ii, jj) + alpha * product_at(a@, opb, ii, jj))
                } else {
                    old(c).spec_at(ii, jj)
                }),
        decreases n - j,
    {
        let mut i: usize = 0;
        while i < m
            invariant
                a.wf(),
                m == a.spec_nrows(),
                offsets@ == a.offsets(),
                indices@ == a.indices(),
                values@ == a.vals(),
                opb == b@.op(trans_b),
                a.spec_ncols() == opb.nrows,
                opb.ncols == n,
                c.spec_nrows() == old(c).spec_nrows(),
                c.spec_ncols() == old(c).spec_ncols(),
                c.spec_nrows() == m,
                c.spec_ncols() == n,
                0 <= j < n,
                0 <= i <= m,
                forall|ii: int, jj: int|
                    0 <= ii < m && 0 <= jj < n ==> #[trigger] c.spec_at(ii, jj) == (if jj < j || (jj
                        == j && ii < i) {
                        wrap(beta * old(c).spec_at(ii, jj) + alpha * product_at(a@, opb, ii, jj))
                    } else {
                        old(c).spec_at(ii, jj)
                    }),
            decreases m - i,
        {
            proof {
                a.lemma_row_range(i as int);
                lemma_wrap_fits(0);
            }
            let lo = offsets[i];
            let hi = offsets[i + 1];
            let mut dot = zero();
            let mut p: usize = lo;
            while p < hi
                invariant
                    a.wf(),
                    0 <= i < m,
                    m == a.spec_nrows(),
                    offsets@ == a.offsets(),
                    indices@ == a.indices(),
                    values@ == a.vals(),
                    opb == b@.op(trans_b),
                    a.spec_ncols() == opb.nrows,
                    opb.ncols == n,
                    0 <= j < n,
                    lo == offsets[i as int],
                    hi == offsets[i + 1],
                    lo <= p <= hi <= values@.len(),
                    dot == wrap(a.row_dot(opb, j as int, lo as int, p as int)),
                decreases hi - p,
            {
                proof {
                    a.lemma_view_of_slot(i as int, p as int);
                }
                let k = indices[p];
                let a_ik = values[p];
                let b_kj = read_op(b, trans_b, k, j);
                proof {
                    lemma_wrap_fits(a_ik as int);
                    lemma_accumulate(
                        dot,
                        a.row_dot(opb, j as int, lo as int, p as int),
                        a_ik,
                        a_ik as int,
                        b_kj,
                    );
                }
                dot = ring_add(dot, ring_mul(a_ik, b_kj));
                p += 1;
            }
            let c_ij = c.get(i, j);
            proof {
                lemma_fused_update(
                    beta,
                    c_ij,
                    alpha,
                    dot,
                    a.row_dot(opb, j as int, lo as int, hi as int),
                );
                a.lemma_row_dot_is_product(opb, i as int, j as int);
            }
            c.set(i, j, ring_add(ring_mul(beta, c_ij), ring_mul(alpha, dot)));
            i += 1;
        }
        j += 1;
    }
    proof {
        lemma_dense_update(c, old(c), beta, alpha, a@, opb);
    }
}

/// The scatter form, for an `A` that is read transposed: `C` is scaled by
/// `beta` first, then each slot of `A` adds its multiple of a row of `op(B)`
/// to the row of `C` that its column names.
fn spmm_dense_scatter_form(
    c: &mut DenseMatrix,
    beta: i64,
    alpha: i64,
    a: &CsrMatrix,
    trans_b: bool,
    b: &DenseMatrix,
)
    requires
        a.wf(),
        spmm_dims_compatible(old(c)@, a@.transpose(), b@.op(trans_b)),
    ensures
        is_spmm_update(final(c)@, old(c)@, beta, alpha, a@.transpose(), b@.op(trans_b)),
{
    let inner = a.nrows();
    let m = c.nrows();
    let n = c.ncols();
    let offsets = a.row_offsets();
    let indices = a.col_indices();
    let values = a.values();
    let ghost opb = b@.op(trans_b);
    let ghost at = a@.transpose();
    c.scale(beta);
    proof {
        assert forall|ii: int, jj: int| 0 <= ii < m && 0 <= jj < n implies #[trigger] c.spec_at(
            ii,
            jj,
        ) == wrap(beta * old(c).spec_at(ii, jj) + alpha * dot_upto(at, opb, ii, jj, 0)) by {
            let c0 = old(c).spec_at(ii, jj);
            assert(c0 * beta == beta * c0 + alpha * 0) by (nonlinear_arith);
        }
    }
    let mut k: usize = 0;
    while k < inner
        invariant
            a.wf(),
            inner == a.spec_nrows(),
            offsets@ == a.offsets(),
            indices@ == a.indices(),
            values@ == a.vals(),
            opb == b@.op(trans_b),
            at == a@.transpose(),
            a.spec_nrows() == opb.nrows,
            a.spec_ncols() == m,
            opb.ncols == n,
            c.spec_nrows() == old(c).spec_nrows(),
            c.spec_ncols() == old(c).spec_ncols(),
            c.spec_nrows() == m,
            c.spec_ncols() == n,
            0 <= k <= inner,
            forall|ii: int, jj: int|
                0 <= ii < m && 0 <= jj < n ==> #[trigger] c.spec_at(ii, jj) == wrap(
                    beta * old(c).spec_at(ii, jj) + alpha * dot_upto(at, opb, ii, jj, k as nat),
                ),
        decreases inner - k,
    {
        proof {
            a.lemma_row_range(k as int);
        }
        let lo = offsets[k];
        let hi = offsets[k + 1];
        proof {
            assert forall|ii: int, jj: int| 0 <= ii < m && 0 <= jj < n implies #[trigger] c.spec_at(
                ii,
                jj,
            ) == wrap(
                beta * old(c).spec_at(ii, jj) + alpha * (dot_upto(at, opb, ii, jj, k as nat)
                    + a.partial_at(k as int, lo as int, ii) * opb.at(k as int, jj)),
            ) by {
                a.lemma_partial_at_ends(k as int, ii);
                assert(a.partial_at(k as int, lo as int, ii) * opb.at(k as int, jj) == 0)
                    by (nonlinear_arith)
                    requires
                        a.partial_at(k as int, lo as int, ii) == 0,
                ;
            }
        }
        let mut p: usize = lo;
        while p < hi
            invariant
                a.wf(),
                inner == a.spec_nrows(),
                offsets@ == a.offsets(),
                indices@ == a.indices(),
                values@ == a.vals(),
                opb == b@.op(trans_b),
                at == a@.transpose(),
                a.spec_nrows() == opb.nrows,
                a.spec_ncols() == m,
                opb.ncols == n,
                c.spec_nrows() == old(c).spec_nrows(),
                c.spec_ncols() == old(c).spec_ncols(),
                c.spec_nrows() == m,
                c.spec_ncols() == n,
                0 <= k < inner,
                lo == offsets[k as int],
                hi == offsets[k + 1],
                lo <= p <= hi <= values@.len(),
                forall|ii: int, jj: int|
                    0 <= ii < m && 0 <= jj < n ==> #[trigger] c.spec_at(ii, jj) == wrap(
                        beta * old(c).spec_at(ii, jj) + alpha * (dot_upto(
                            at,
                            opb,
                            ii,
                            jj,
                            k as nat,
                        ) + a.partial_at(k as int, p as int, ii) * opb.at(k as int, jj)),
                    ),
            decreases hi - p,
        {
            proof {
                a.lemma_view_of_slot(k as int, p as int);
            }
            let i = indices[p];
            let a_ki = values[p];
            let gamma = ring_mul(alpha, a_ki);
            let ghost before = *c;
            let mut j: usize = 0;
            while j < n
                invariant
                    opb == b@.op(trans_b),
                    k < opb.nrows,
                    opb.ncols == n,
                    i < m,
                    c.spec_nrows() == m,
                    c.spec_ncols() == n,
                    before.spec_nrows() == m,
                    before.spec_ncols() == n,
                    0 <= j <= n,
                    forall|ii: int, jj: int|
                        0 <= ii < m && 0 <= jj < n ==> #[trigger] c.spec_at(ii, jj) == (if ii == i
                            && jj < j {
                            wrap(before.spec_at(ii, jj) + wrap(gamma * opb.at(k as int, jj)))
                        } else {
                            before.spec_at(ii, jj)
                        }),
                decreases n - j,
            {
                let b_kj = read_op(b, trans_b, k, j);
                let c_ij = c.get(i, j);
                c.set(i, j, ring_add(c_ij, ring_mul(gamma, b_kj)));
                j += 1;
            }
            proof {
                assert forall|ii: int, jj: int| 0 <= ii < m && 0 <= jj < n implies #[trigger] c.spec_at(
                    ii,
                    jj,
                ) == wrap(
                    beta * old(c).spec_at(ii, jj) + alpha * (dot_upto(at, opb, ii, jj, k as nat)
                        + a.partial_at(k as int, p + 1, ii) * opb.at(k as int, jj)),
                ) by {
                    a.lemma_partial_at_step(k as int, p as int, ii);
                    assert(before.spec_at(ii, jj) == wrap(
                        beta * old(c).spec_at(ii, jj) + alpha * (dot_upto(
                            at,
                            opb,
                            ii,
                            jj,
                            k as nat,
                        ) + a.partial_at(k as int, p as int, ii) * opb.at(k as int, jj)),
                    ));
                    if ii == i {
                        let b_kj = opb.at(k as int, jj);
                        lemma_dense_op_fits(b, trans_b, k as int, jj);
                        lemma_add_product(
                            before.spec_at(ii, jj),
                            beta,
                            old(c).spec_at(ii, jj),
                            alpha,
                            dot_upto(at, opb, ii, jj, k as nat),
                            a_ki,
                            b_kj as i64,
                            gamma,
                        );
                    }
                }
            }
            p += 1;
        }
        proof {
            assert forall|ii: int, jj: int| 0 <= ii < m && 0 <= jj < n implies #[trigger] c.spec_at(
                ii,
                jj,
            ) == wrap(
                beta * old(c).spec_at(ii, jj) + alpha * dot_upto(at, opb, ii, jj, (k + 1) as nat),
            ) by {
                a.lemma_partial_at_ends(k as int, ii);
            }
        }
        k += 1;
    }
    proof {
        lemma_dense_update(c, old(c), beta, alpha, at, opb);
    }
}

/// An element of a dense operand is a ring element.
proof fn lemma_dense_op_fits(b: &DenseMatrix, trans: bool, k: int, j: int)
    ensures
        i64::MIN <= b@.op(trans).at(k, j) <= i64::MAX,
{
}

/// The kernel behind [`spmm_csr_dense`]: the form of the computation goes by
/// the transpose flag of `A`, because the rows of a CSR matrix can be walked
/// and its columns cannot.
fn spmm_csr_dense_(
    c: &mut DenseMatrix,
    beta: i64,
    alpha: i64,
    trans_a: Transpose,
    a: &CsrMatrix,
    trans_b: Transpose,
    b: &DenseMatrix,
)
    requires
        a.wf(),
        spmm_dims_compatible(old(c)@, a@.op(trans_a.0), b@.op(trans_b.0)),
    ensures
        is_spmm_update(final(c)@, old(c)@, beta, alpha, a@.op(trans_a.0), b@.op(trans_b.0)),
{
    if trans_a.to_bool() {
        spmm_dense_scatter_form(c, beta, alpha, a, trans_b.to_bool(), b);
    } else {
        spmm_dense_dot_form(c, beta, alpha, a, trans_b.to_bool(), b);
    }
}

/// Sparse-dense matrix-matrix multiplication
/// `C <- beta * C + alpha * op(A) * op(B)`, in place in the dense `C`.
///
/// The shapes must fit; `A` and `B` are not changed.
pub fn spmm_csr_dense(
    c: &mut DenseMatrix,
    beta: i64,
    alpha: i64,
    trans_a: Transpose,
    a: &CsrMatrix,
    trans_b: Transpose,
    b: &DenseMatrix,
)
    requires
        a.wf(),
        spmm_dims_compatible(old(c)@, a@.op(trans_a.0), b@.op(trans_b.0)),
    ensures
        is_spmm_update(final(c)@, old(c)@, beta, alpha, a@.op(trans_a.0), b@.op(trans_b.0)),
{
    spmm_csr_dense_(c, beta, alpha, trans_a, a, trans_b, b)
}

} // verus!
