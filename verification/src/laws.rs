//! Laws of the kernels, stated over the models that their contracts use.

use crate::csr::CsrMatrix;
use crate::dense::DenseMatrix;
use crate::model::{
    covers_product, dot_upto, is_spadd_update, is_spmm_update, product_at, MatrixView,
};
use crate::scalar::{lemma_wrap_fits, wrap};
use vstd::prelude::*;

verus! {

/// The dense equivalent of a matrix: every position of the shape stored, and
/// zero written out where the pattern had none.
pub open spec fn to_dense(a: MatrixView) -> MatrixView {
    MatrixView {
        nrows: a.nrows,
        ncols: a.ncols,
        entries: Map::new(
            |p: (int, int)| 0 <= p.0 < a.nrows && 0 <= p.1 < a.ncols,
            |p: (int, int)| wrap(a.at(p.0, p.1)),
        ),
    }
}

/// The square matrix of size `n` that stores ones on the diagonal and nothing
/// else.
pub open spec fn is_identity(a: MatrixView, n: nat) -> bool {
    &&& a.nrows == n
    &&& a.ncols == n
    &&& forall|i: int, j: int| #[trigger]
        a.entries.contains_key((i, j)) <==> (0 <= i < n && i == j)
    &&& forall|i: int| 0 <= i < n ==> #[trigger] a.entries[(i, i)] == 1
}

/// The dense equivalent reads as the matrix does, at every position of the
/// shape.
pub proof fn lemma_to_dense_reads_alike(a: MatrixView, i: int, j: int)
    requires
        a.in_shape(),
    ensures
        to_dense(a).at(i, j) == a.at(i, j),
        to_dense(a).is_dense(),
{
    if a.entries.contains_key((i, j)) {
        lemma_wrap_fits(a.at(i, j));
    } else {
        lemma_wrap_fits(0);
    }
}

/// The sums of two pairs of matrices that read alike are equal.
pub proof fn lemma_dot_reads_only(
    a: MatrixView,
    b: MatrixView,
    a2: MatrixView,
    b2: MatrixView,
    i: int,
    j: int,
    n: nat,
)
    requires
        forall|k: int| 0 <= k < n ==> a.at(i, k) == a2.at(i, k),
        forall|k: int| 0 <= k < n ==> b.at(k, j) == b2.at(k, j),
    ensures
        dot_upto(a, b, i, j, n) == dot_upto(a2, b2, i, j, n),
    decreases n,
{
    if n > 0 {
        lemma_dot_reads_only(a, b, a2, b2, i, j, (n - 1) as nat);
    }
}

/// For every pair of transpose flags, an entry of the product of the selected
/// operands is the entry of the product of their dense equivalents,
/// transposed explicitly where the flag says so: a sparse operand multiplies
/// as the dense matrix that it stands for.
pub proof fn lemma_product_of_dense_equivalents(
    a: MatrixView,
    trans_a: bool,
    b: MatrixView,
    trans_b: bool,
    i: int,
    j: int,
)
    requires
        a.in_shape(),
        b.in_shape(),
    ensures
        product_at(a.op(trans_a), b.op(trans_b), i, j) == product_at(
            to_dense(a).op(trans_a),
            to_dense(b).op(trans_b),
            i,
            j,
        ),
{
    let x = a.op(trans_a);
    let y = b.op(trans_b);
    let dx = to_dense(a).op(trans_a);
    let dy = to_dense(b).op(trans_b);
    assert forall|k: int| 0 <= k < x.ncols implies x.at(i, k) == dx.at(i, k) by {
        if trans_a {
            lemma_to_dense_reads_alike(a, k, i);
        } else {
            lemma_to_dense_reads_alike(a, i, k);
        }
    }
    assert forall|k: int| 0 <= k < x.ncols implies y.at(k, j) == dy.at(k, j) by {
        if trans_b {
            lemma_to_dense_reads_alike(b, j, k);
        } else {
            lemma_to_dense_reads_alike(b, k, j);
        }
    }
    lemma_dot_reads_only(x, y, dx, dy, i, j, x.ncols);
}

/// For every pair of transpose flags, the product that the sparse-dense
/// multiplication adds is the product of dense matrices: of the dense
/// equivalent of `A` and of `B`, each transposed explicitly where its flag
/// says so.
pub proof fn lemma_spmm_dense_is_dense_product(
    a: &CsrMatrix,
    trans_a: bool,
    b: &DenseMatrix,
    trans_b: bool,
    i: int,
    j: int,
)
    requires
        a.wf(),
    ensures
        to_dense(a@).is_dense(),
        b@.is_dense(),
        product_at(a@.op(trans_a), b@.op(trans_b), i, j) == product_at(
            to_dense(a@).op(trans_a),
            b@.op(trans_b),
            i,
            j,
        ),
{
    a.lemma_view_in_shape();
    b.lemma_view_is_dense();
    lemma_to_dense_reads_alike(a@, 0, 0);
    let x = a@.op(trans_a);
    let dx = to_dense(a@).op(trans_a);
    let y = b@.op(trans_b);
    assert forall|k: int| 0 <= k < x.ncols implies x.at(i, k) == dx.at(i, k) by {
        if trans_a {
            lemma_to_dense_reads_alike(a@, k, i);
        } else {
            lemma_to_dense_reads_alike(a@, i, k);
        }
    }
    lemma_dot_reads_only(x, y, dx, y, i, j, x.ncols);
}

/// With `beta = 0` and `alpha = 1` the multiplication writes the product:
/// each stored position of `C` holds the ring element of the exact sum
/// `sum over k of a[i, k] * b[k, j]`, whatever it held before, and the sum
/// itself where that fits in 64 bits.
pub proof fn lemma_spmm_writes_product(
    c_new: MatrixView,
    c_old: MatrixView,
    a: MatrixView,
    b: MatrixView,
)
    requires
        is_spmm_update(c_new, c_old, 0, 1, a, b),
    ensures
        c_new.same_pattern(c_old),
        forall|i: int, j: int|
            c_old.entries.contains_key((i, j)) ==> #[trigger] c_new.entries[(i, j)] == wrap(
                product_at(a, b, i, j),
            ),
        forall|i: int, j: int|
            c_old.entries.contains_key((i, j)) && i64::MIN <= product_at(a, b, i, j) <= i64::MAX
                ==> #[trigger] c_new.entries[(i, j)] == product_at(a, b, i, j),
{
    assert forall|i: int, j: int| c_old.entries.contains_key((i, j)) implies #[trigger] c_new.entries[(
        i,
        j,
    )] == wrap(product_at(a, b, i, j)) by {
        assert(0 * c_old.entries[(i, j)] + 1 * product_at(a, b, i, j) == product_at(a, b, i, j));
    }
    assert forall|i: int, j: int|
        c_old.entries.contains_key((i, j)) && i64::MIN <= product_at(a, b, i, j)
            <= i64::MAX implies #[trigger] c_new.entries[(i, j)] == product_at(a, b, i, j) by {
        lemma_wrap_fits(product_at(a, b, i, j));
    }
}

/// With `beta = 1` and `alpha = 0` the multiplication leaves `C` as it was,
/// whatever the operands and the transpose flags.
pub proof fn lemma_spmm_unit_scaling_keeps(
    c_new: MatrixView,
    c_old: MatrixView,
    a: MatrixView,
    b: MatrixView,
)
    requires
        is_spmm_update(c_new, c_old, 1, 0, a, b),
    ensures
        c_new == c_old,
{
    assert forall|p: (int, int)| c_old.entries.contains_key(p) implies #[trigger] c_new.entries[p]
        == c_old.entries[p] by {
        let v = c_old.entries[p];
        assert(c_new.entries[(p.0, p.1)] == wrap(1 * v + 0 * product_at(a, b, p.0, p.1)));
        assert(1 * v + 0 * product_at(a, b, p.0, p.1) == v);
        lemma_wrap_fits(v as int);
    }
    assert(c_new.entries =~= c_old.entries);
}

/// Where `C` and `A` have the same pattern, the addition succeeds, and with
/// `beta = 0` and `alpha = 1` it makes `C` equal to `A`, value for value.
pub proof fn lemma_spadd_copies(c_new: MatrixView, c_old: MatrixView, a: MatrixView)
    requires
        c_old.same_pattern(a),
    ensures
        c_old.covers(a),
        is_spadd_update(c_new, c_old, 0, 1, a) ==> c_new == a,
{
    if is_spadd_update(c_new, c_old, 0, 1, a) {
        assert forall|p: (int, int)| a.entries.contains_key(p) implies #[trigger] c_new.entries[p]
            == a.entries[p] by {
            assert(c_old.entries.dom().contains(p));
            let v = c_old.entries[p];
            assert(c_new.entries[(p.0, p.1)] == wrap(0 * v + 1 * a.at(p.0, p.1)));
            assert(0 * v + 1 * a.at(p.0, p.1) == a.entries[p]);
            lemma_wrap_fits(a.entries[p] as int);
        }
        assert(c_new.entries =~= a.entries);
    }
}

/// Row `i` of the identity picks row `i` of the other factor.
pub proof fn lemma_identity_picks_row(a: MatrixView, b: MatrixView, i: int, j: int, n: nat, upto: nat)
    requires
        is_identity(a, n),
        upto <= n,
    ensures
        dot_upto(a, b, i, j, upto) == (if 0 <= i < upto {
            b.at(i, j)
        } else {
            0
        }),
    decreases upto,
{
    if upto > 0 {
        lemma_identity_picks_row(a, b, i, j, n, (upto - 1) as nat);
        let k = upto - 1;
        if k == i {
            assert(a.entries.contains_key((i, i)));
            assert(a.at(i, k) * b.at(k, j) == b.at(i, j)) by (nonlinear_arith)
                requires
                    a.at(i, k) == 1,
                    k == i,
            ;
        } else {
            assert(!a.entries.contains_key((i, k)));
            assert(a.at(i, k) * b.at(k, j) == 0) by (nonlinear_arith)
                requires
                    a.at(i, k) == 0,
            ;
        }
    }
}

/// Multiplying by the identity: where `A` is an identity matrix and `C` has
/// the pattern of `B`, the multiplication succeeds, and with `beta = 0` and
/// `alpha = 1` it makes `C` equal to `B`.
pub proof fn lemma_spmm_identity_copies(
    c_new: MatrixView,
    c_old: MatrixView,
    a: MatrixView,
    b: MatrixView,
    n: nat,
)
    requires
        is_identity(a, n),
        b.nrows == n,
        b.in_shape(),
        c_old.same_pattern(b),
    ensures
        covers_product(c_old, a, b),
        is_spmm_update(c_new, c_old, 0, 1, a, b) ==> c_new == b,
{
    assert forall|i: int, k: int, j: int|
        #![trigger a.entries.contains_key((i, k)), b.entries.contains_key((k, j))]
        a.entries.contains_key((i, k)) && b.entries.contains_key((k, j))
            implies c_old.entries.contains_key((i, j)) by {
        assert(c_old.entries.dom().contains((k, j)));
    }
    if is_spmm_update(c_new, c_old, 0, 1, a, b) {
        assert forall|p: (int, int)| b.entries.contains_key(p) implies #[trigger] c_new.entries[p]
            == b.entries[p] by {
            assert(c_old.entries.dom().contains(p));
            let v = c_old.entries[p];
            lemma_identity_picks_row(a, b, p.0, p.1, n, n);
            assert(c_new.entries[(p.0, p.1)] == wrap(0 * v + 1 * product_at(a, b, p.0, p.1)));
            assert(0 * v + 1 * product_at(a, b, p.0, p.1) == b.entries[p]);
            lemma_wrap_fits(b.entries[p] as int);
        }
        assert(c_new.entries =~= b.entries);
    }
}

} // verus!
