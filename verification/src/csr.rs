//! Compressed-sparse-row matrices and their sparsity patterns.

use crate::model::{dot_upto, lemma_dot_skips_zeros, MatrixView};
use std::sync::Arc;
use vstd::prelude::*;

verus! {

/// Whether the columns of row `r` ascend strictly.
pub open spec fn row_sorted(offsets: Seq<usize>, indices: Seq<usize>, r: int) -> bool {
    forall|k1: int, k2: int|
        offsets[r] <= k1 < k2 < offsets[r + 1] ==> #[trigger] indices[k1] < #[trigger] indices[k2]
}

/// Whether offsets and indices describe a pattern: the offsets start at zero,
/// never descend and end at the number of indices; every index is below
/// `minor_dim`; within a row the indices ascend strictly.
pub open spec fn valid_pattern(offsets: Seq<usize>, indices: Seq<usize>, minor_dim: nat) -> bool {
    &&& offsets.len() >= 1
    &&& offsets[0] == 0
    &&& offsets[offsets.len() - 1] == indices.len()
    &&& forall|a: int, b: int|
        0 <= a <= b < offsets.len() ==> #[trigger] offsets[a] <= #[trigger] offsets[b]
    &&& forall|k: int| 0 <= k < indices.len() ==> #[trigger] indices[k] < minor_dim
    &&& forall|r: int| 0 <= r < offsets.len() - 1 ==> #[trigger] row_sorted(offsets, indices, r)
}

/// The positions that a sparse matrix stores, row by row.
#[derive(Debug)]
pub struct SparsityPattern {
    major_offsets: Vec<usize>,
    minor_indices: Vec<usize>,
    minor_dim: usize,
}

impl SparsityPattern {
    /// Where each row begins among the indices; one more than there are rows.
    pub closed spec fn offsets(&self) -> Seq<usize> {
        self.major_offsets@
    }

    /// The column of each stored position.
    pub closed spec fn indices(&self) -> Seq<usize> {
        self.minor_indices@
    }

    /// The number of columns.
    pub closed spec fn spec_minor_dim(&self) -> nat {
        self.minor_dim as nat
    }

    /// The number of rows.
    pub open spec fn spec_major_dim(&self) -> nat {
        (self.offsets().len() - 1) as nat
    }

    /// Whether offsets and indices describe a pattern.
    pub open spec fn wf(&self) -> bool {
        valid_pattern(self.offsets(), self.indices(), self.spec_minor_dim())
    }

    /// Checks offsets and indices and makes a pattern of them; `None` where
    /// they describe none with `major_dim` rows.
    pub fn try_from_offsets_and_indices(
        major_dim: usize,
        minor_dim: usize,
        major_offsets: Vec<usize>,
        minor_indices: Vec<usize>,
    ) -> (r: Option<SparsityPattern>)
        ensures
            r.is_some() <==> major_offsets.len() == major_dim + 1 && valid_pattern(
                major_offsets@,
                minor_indices@,
                minor_dim as nat,
            ),
            r matches Some(p) ==> p.wf() && p.offsets() == major_offsets@ && p.indices()
                == minor_indices@ && p.spec_minor_dim() == minor_dim,
    {
        let nnz = minor_indices.len();
        if major_offsets.len() == 0 || major_offsets.len() - 1 != major_dim {
            return None;
        }
        if major_offsets[0] != 0 || major_offsets[major_dim] != nnz {
            return None;
        }
        let mut i: usize = 0;
        while i < major_dim
            invariant
                major_offsets.len() == major_dim + 1,
                nnz == minor_indices.len(),
                major_offsets[0] == 0,
                major_offsets[major_dim as int] == nnz,
                0 <= i <= major_dim,
                major_offsets[i as int] <= nnz,
                forall|a: int, b: int|
                    0 <= a <= b <= i ==> #[trigger] major_offsets[a] <= #[trigger] major_offsets[b],
                forall|k: int|
                    0 <= k < major_offsets[i as int] ==> #[trigger] minor_indices[k] < minor_dim,
                forall|r: int|
                    0 <= r < i ==> #[trigger] row_sorted(major_offsets@, minor_indices@, r),
            decreases major_dim - i,
        {
            let lo = major_offsets[i];
            let hi = major_offsets[i + 1];
            if lo > hi || hi > nnz {
                proof {
                    if hi > nnz {
                        assert(major_offsets[i + 1] > major_offsets[major_dim as int]);
                    }
                }
                return None;
            }
            let mut k: usize = lo;
            while k < hi
                invariant
                    nnz == minor_indices.len(),
                    lo <= k <= hi <= nnz,
                    lo == major_offsets[i as int],
                    hi == major_offsets[i + 1],
                    0 <= i < major_dim,
                    major_offsets.len() == major_dim + 1,
                    forall|q: int| 0 <= q < k ==> #[trigger] minor_indices[q] < minor_dim,
                    forall|k1: int, k2: int|
                        lo <= k1 < k2 < k ==> #[trigger] minor_indices[k1]
                            < #[trigger] minor_indices[k2],
                decreases hi - k,
            {
                if minor_indices[k] >= minor_dim {
                    return None;
                }
                if k > lo && minor_indices[k - 1] >= minor_indices[k] {
                    proof {
                        assert(!row_sorted(major_offsets@, minor_indices@, i as int)) by {
                            assert(minor_indices@[k - 1] >= minor_indices@[k as int]);
                        }
                    }
                    return None;
                }
                k += 1;
            }
            assert(row_sorted(major_offsets@, minor_indices@, i as int));
            i += 1;
        }
        Some(SparsityPattern { major_offsets, minor_indices, minor_dim })
    }

    /// The number of rows.
    pub fn major_dim(&self) -> (n: usize)
        requires
            self.wf(),
        ensures
            n == self.spec_major_dim(),
    {
        self.major_offsets.len() - 1
    }

    /// The number of columns.
    pub fn minor_dim(&self) -> (n: usize)
        ensures
            n == self.spec_minor_dim(),
    {
        self.minor_dim
    }

    /// The number of stored positions.
    pub fn nnz(&self) -> (n: usize)
        ensures
            n == self.indices().len(),
    {
        self.minor_indices.len()
    }

    /// Where each row begins among the indices.
    pub fn major_offsets(&self) -> (s: &[usize])
        ensures
            s@ == self.offsets(),
    {
        self.major_offsets.as_slice()
    }

    /// The column of each stored position, row by row.
    pub fn minor_indices(&self) -> (s: &[usize])
        ensures
            s@ == self.indices(),
    {
        self.minor_indices.as_slice()
    }
}

/// Whether two handles are one pattern object, by `Arc::ptr_eq`. Handles to
/// one allocation read the same pattern; of handles to two allocations
/// nothing is claimed.
#[verifier::external_body]
fn same_object(a: &Arc<SparsityPattern>, b: &Arc<SparsityPattern>) -> (same: bool)
    ensures
        same ==> **a == **b,
{
    Arc::ptr_eq(a, b)
}

/// Another handle to the same pattern object, by `Arc::clone`.
#[verifier::external_body]
fn share(p: &Arc<SparsityPattern>) -> (r: Arc<SparsityPattern>)
    ensures
        *r == **p,
{
    Arc::clone(p)
}

/// What a lookup for mutation finds at a position: the stored value, open to
/// change in place, or a structural zero, which cannot be written.
pub enum SparseEntryMut<'a> {
    NonZero(&'a mut i64),
    Zero,
}

/// A sparse matrix in compressed-sparse-row form. Its pattern is shared by
/// handle, so that matrices made over one pattern can be told by identity.
#[derive(Clone, Debug)]
pub struct CsrMatrix {
    sparsity_pattern: Arc<SparsityPattern>,
    values: Vec<i64>,
}

impl View for CsrMatrix {
    type V = MatrixView;

    open spec fn view(&self) -> MatrixView {
        MatrixView {
            nrows: self.spec_nrows(),
            ncols: self.spec_ncols(),
            entries: Map::new(
                |p: (int, int)| self.stores(p.0, p.1),
                |p: (int, int)| self.vals()[self.slot(p.0, p.1)],
            ),
        }
    }
}

impl CsrMatrix {
    /// The pattern, in contracts.
    pub closed spec fn spec_pattern(&self) -> SparsityPattern {
        *self.sparsity_pattern
    }

    /// The stored values, in the order of the pattern.
    pub closed spec fn vals(&self) -> Seq<i64> {
        self.values@
    }

    /// Where each row begins among the slots.
    pub open spec fn offsets(&self) -> Seq<usize> {
        self.spec_pattern().offsets()
    }

    /// The column of each slot.
    pub open spec fn indices(&self) -> Seq<usize> {
        self.spec_pattern().indices()
    }

    /// The number of rows.
    pub open spec fn spec_nrows(&self) -> nat {
        self.spec_pattern().spec_major_dim()
    }

    /// The number of columns.
    pub open spec fn spec_ncols(&self) -> nat {
        self.spec_pattern().spec_minor_dim()
    }

    /// Whether the pattern is one and each of its slots has a value.
    pub open spec fn wf(&self) -> bool {
        &&& self.spec_pattern().wf()
        &&& self.vals().len() == self.indices().len()
    }

    /// Whether slot `k` lies in row `i`.
    pub open spec fn in_row(&self, i: int, k: int) -> bool {
        0 <= i < self.spec_nrows() && self.offsets()[i] <= k < self.offsets()[i + 1]
    }

    /// Whether slot `k` holds position `(i, j)`.
    pub open spec fn has_slot(&self, i: int, j: int, k: int) -> bool {
        self.in_row(i, k) && self.indices()[k] == j
    }

    /// Whether the pattern holds `(i, j)`.
    pub open spec fn stores(&self, i: int, j: int) -> bool {
        exists|k: int| self.has_slot(i, j, k)
    }

    /// The slot of a stored position.
    pub open spec fn slot(&self, i: int, j: int) -> int {
        choose|k: int| self.has_slot(i, j, k)
    }

    /// The column before which the first `p - offsets[i]` slots of row `i`
    /// lie: that of slot `p`, or the number of columns at the row's end.
    pub open spec fn col_bound(&self, i: int, p: int) -> nat {
        if p < self.offsets()[i + 1] {
            self.indices()[p] as nat
        } else {
            self.spec_ncols()
        }
    }

    /// `sum over the slots lo <= p < hi of vals[p] * b[indices[p], j]`.
    pub open spec fn row_dot(&self, b: MatrixView, j: int, lo: int, hi: int) -> int
        decreases hi - lo,
    {
        if hi <= lo {
            0
        } else {
            self.row_dot(b, j, lo, hi - 1) + self.vals()[hi - 1] * b.at(
                self.indices()[hi - 1] as int,
                j,
            )
        }
    }

    /// The value of row `i` in column `j`, as far as the slots before `p`
    /// hold it: zero where the slot of `(i, j)` is `p` or a later one.
    pub open spec fn partial_at(&self, i: int, p: int, j: int) -> int {
        if self.stores(i, j) && self.slot(i, j) < p {
            self.vals()[self.slot(i, j)] as int
        } else {
            0
        }
    }

    /// The slots of a row lie inside the storage.
    pub proof fn lemma_row_range(&self, i: int)
        requires
            self.wf(),
            0 <= i < self.spec_nrows(),
        ensures
            0 <= self.offsets()[i] <= self.offsets()[i + 1] <= self.indices().len(),
            self.indices().len() == self.vals().len(),
    {
        let offs = self.offsets();
        assert(offs[0] <= offs[i]);
        assert(offs[i] <= offs[i + 1]);
        assert(offs[i + 1] <= offs[offs.len() - 1]);
    }

    /// A position has at most one slot.
    pub proof fn lemma_slot_unique(&self, i: int, j: int, k1: int, k2: int)
        requires
            self.wf(),
            self.has_slot(i, j, k1),
            self.has_slot(i, j, k2),
        ensures
            k1 == k2,
    {
        assert(row_sorted(self.offsets(), self.indices(), i));
        if k1 < k2 {
            assert(self.indices()[k1] < self.indices()[k2]);
        } else if k2 < k1 {
            assert(self.indices()[k2] < self.indices()[k1]);
        }
    }

    /// Matrices over one pattern store the same positions in the same slots.
    pub proof fn lemma_same_pattern_slots(&self, other: &CsrMatrix, i: int, j: int)
        requires
            self.wf(),
            self.spec_pattern() == other.spec_pattern(),
        ensures
            self.stores(i, j) == other.stores(i, j),
            self.stores(i, j) ==> self.slot(i, j) == other.slot(i, j) && self.has_slot(
                i,
                j,
                self.slot(i, j),
            ),
    {
        if self.stores(i, j) {
            assert(other.has_slot(i, j, self.slot(i, j)));
            assert(self.has_slot(i, j, other.slot(i, j)));
            self.lemma_slot_unique(i, j, self.slot(i, j), other.slot(i, j));
        }
        if other.stores(i, j) {
            assert(self.has_slot(i, j, other.slot(i, j)));
        }
    }

    /// Within a row, a later slot has a larger column.
    pub proof fn lemma_row_ascends(&self, i: int, k1: int, k2: int)
        requires
            self.wf(),
            self.in_row(i, k1),
            self.in_row(i, k2),
            k1 < k2,
        ensures
            self.indices()[k1] < self.indices()[k2],
    {
        assert(row_sorted(self.offsets(), self.indices(), i));
    }

    /// What the view holds at the position of slot `k` of row `i`.
    pub proof fn lemma_view_of_slot(&self, i: int, k: int)
        requires
            self.wf(),
            self.in_row(i, k),
        ensures
            0 <= k < self.vals().len(),
            self.indices()[k] < self.spec_ncols(),
            self.stores(i, self.indices()[k] as int),
            self.slot(i, self.indices()[k] as int) == k,
            self@.stores(i, self.indices()[k] as int),
            self@.entries[(i, self.indices()[k] as int)] == self.vals()[k],
            self@.at(i, self.indices()[k] as int) == self.vals()[k],
    {
        self.lemma_row_range(i);
        let j = self.indices()[k] as int;
        assert(self.has_slot(i, j, k));
        self.lemma_slot_unique(i, j, k, self.slot(i, j));
    }

    /// Every stored position lies inside the shape.
    pub proof fn lemma_view_in_shape(&self)
        requires
            self.wf(),
        ensures
            self@.in_shape(),
    {
        assert forall|i: int, j: int| #[trigger]
            self@.entries.contains_key((i, j)) implies 0 <= i < self@.nrows && 0 <= j
            < self@.ncols by {
            let k = self.slot(i, j);
            assert(self.has_slot(i, j, k));
            self.lemma_view_of_slot(i, k);
        }
    }

    /// Between the columns of two neighbouring slots of a row, before the
    /// first and after the last, nothing is stored.
    pub proof fn lemma_gap_is_empty(&self, i: int, p: int, c: int)
        requires
            self.wf(),
            0 <= i < self.spec_nrows(),
            self.offsets()[i] <= p <= self.offsets()[i + 1],
            p > self.offsets()[i] ==> self.indices()[p - 1] < c,
            c < self.col_bound(i, p),
        ensures
            !self.stores(i, c),
            self@.at(i, c) == 0,
    {
        if self.stores(i, c) {
            let q = self.slot(i, c);
            assert(self.has_slot(i, c, q));
            if q < p {
                if q < p - 1 {
                    self.lemma_row_ascends(i, q, p - 1);
                }
            } else if q > p {
                self.lemma_row_ascends(i, p, q);
            }
        }
    }

    /// The sum over the first slots of row `i` is the dense sum over the
    /// columns that lie before the next slot.
    pub proof fn lemma_row_dot_prefix(&self, b: MatrixView, i: int, j: int, p: int)
        requires
            self.wf(),
            0 <= i < self.spec_nrows(),
            self.offsets()[i] <= p <= self.offsets()[i + 1],
        ensures
            self.row_dot(b, j, self.offsets()[i] as int, p) == dot_upto(
                self@,
                b,
                i,
                j,
                self.col_bound(i, p),
            ),
        decreases p - self.offsets()[i],
    {
        let lo = self.offsets()[i] as int;
        self.lemma_row_range(i);
        let bound = self.col_bound(i, p);
        if p == lo {
            assert forall|c: int| 0 <= c < bound implies self@.at(i, c) == 0 by {
                self.lemma_gap_is_empty(i, p, c);
            }
            lemma_dot_skips_zeros(self@, b, i, j, 0, bound);
        } else {
            self.lemma_row_dot_prefix(b, i, j, p - 1);
            self.lemma_view_of_slot(i, p - 1);
            let c0 = self.indices()[p - 1] as nat;
            assert(self.col_bound(i, p - 1) == c0);
            if p < self.offsets()[i + 1] {
                self.lemma_row_ascends(i, p - 1, p);
            }
            assert(c0 + 1 <= bound);
            assert(dot_upto(self@, b, i, j, c0 + 1) == dot_upto(self@, b, i, j, c0) + self@.at(
                i,
                c0 as int,
            ) * b.at(c0 as int, j));
            assert forall|c: int| c0 + 1 <= c < bound implies self@.at(i, c) == 0 by {
                self.lemma_gap_is_empty(i, p, c);
            }
            lemma_dot_skips_zeros(self@, b, i, j, c0 + 1, bound);
        }
    }

    /// The sum over all slots of row `i` is entry `(i, j)` of the product.
    pub proof fn lemma_row_dot_is_product(&self, b: MatrixView, i: int, j: int)
        requires
            self.wf(),
            0 <= i < self.spec_nrows(),
        ensures
            self.row_dot(b, j, self.offsets()[i] as int, self.offsets()[i + 1] as int)
                == crate::model::product_at(self@, b, i, j),
    {
        self.lemma_row_range(i);
        self.lemma_row_dot_prefix(b, i, j, self.offsets()[i + 1] as int);
    }

    /// Before the first slot of a row nothing of it is held; after the last,
    /// the whole row.
    pub proof fn lemma_partial_at_ends(&self, i: int, j: int)
        requires
            self.wf(),
            0 <= i < self.spec_nrows(),
        ensures
            self.partial_at(i, self.offsets()[i] as int, j) == 0,
            self.partial_at(i, self.offsets()[i + 1] as int, j) == self@.at(i, j),
    {
        if self.stores(i, j) {
            assert(self.has_slot(i, j, self.slot(i, j)));
        }
    }

    /// Passing slot `p` adds its value in its own column and nothing
    /// elsewhere.
    pub proof fn lemma_partial_at_step(&self, i: int, p: int, j: int)
        requires
            self.wf(),
            self.in_row(i, p),
        ensures
            j == self.indices()[p] ==> self.partial_at(i, p, j) == 0 && self.partial_at(
                i,
                p + 1,
                j,
            ) == self.vals()[p],
            j != self.indices()[p] ==> self.partial_at(i, p + 1, j) == self.partial_at(i, p, j),
    {
        self.lemma_view_of_slot(i, p);
        if self.stores(i, j) {
            assert(self.has_slot(i, j, self.slot(i, j)));
        }
    }

    /// The slots before `p` hold the row up to the column of slot `p`.
    pub proof fn lemma_partial_at_below(&self, i: int, p: int, j: int)
        requires
            self.wf(),
            self.in_row(i, p),
        ensures
            self.partial_at(i, p, j) == (if j < self.indices()[p] {
                self@.at(i, j)
            } else {
                0
            }),
    {
        if self.stores(i, j) {
            let k = self.slot(i, j);
            assert(self.has_slot(i, j, k));
            if k < p {
                self.lemma_row_ascends(i, k, p);
            } else if k > p {
                self.lemma_row_ascends(i, p, k);
            }
        }
    }

    /// A statement on the values slot by slot is a statement on the view
    /// position by position, where the pattern is the same.
    pub proof fn lemma_lift_values(
        c_new: &CsrMatrix,
        c_old: &CsrMatrix,
        f: spec_fn(int, int, i64) -> i64,
    )
        requires
            c_old.wf(),
            c_new.spec_pattern() == c_old.spec_pattern(),
            c_new.vals().len() == c_old.vals().len(),
            forall|i: int, k: int| #[trigger]
                c_old.in_row(i, k) ==> c_new.vals()[k] == f(
                    i,
                    c_old.indices()[k] as int,
                    c_old.vals()[k],
                ),
        ensures
            c_new.wf(),
            c_new@.same_pattern(c_old@),
            forall|i: int, j: int|
                c_old@.entries.contains_key((i, j)) ==> #[trigger] c_new@.entries[(i, j)] == f(
                    i,
                    j,
                    c_old@.entries[(i, j)],
                ),
    {
        assert forall|p: (int, int)| #[trigger]
            c_new@.entries.dom().contains(p) == c_old@.entries.dom().contains(p) by {
            if c_old.stores(p.0, p.1) {
                assert(c_new.has_slot(p.0, p.1, c_old.slot(p.0, p.1)));
            }
            if c_new.stores(p.0, p.1) {
                assert(c_old.has_slot(p.0, p.1, c_new.slot(p.0, p.1)));
            }
        }
        assert(c_new@.entries.dom() =~= c_old@.entries.dom());
        assert forall|i: int, j: int| c_old@.entries.contains_key((i, j)) implies #[trigger] c_new@.entries[(
            i,
            j,
        )] == f(i, j, c_old@.entries[(i, j)]) by {
            let k = c_old.slot(i, j);
            assert(c_old.has_slot(i, j, k));
            assert(c_new.has_slot(i, j, k));
            c_new.lemma_slot_unique(i, j, k, c_new.slot(i, j));
            assert(c_old.in_row(i, k));
        }
    }

    /// Makes a matrix of raw CSR data; `None` where the data describe none of
    /// this shape.
    pub fn try_from_csr_data(
        nrows: usize,
        ncols: usize,
        row_offsets: Vec<usize>,
        col_indices: Vec<usize>,
        values: Vec<i64>,
    ) -> (r: Option<CsrMatrix>)
        ensures
            r.is_some() <==> row_offsets.len() == nrows + 1 && values.len() == col_indices.len()
                && valid_pattern(row_offsets@, col_indices@, ncols as nat),
            r matches Some(m) ==> m.wf() && m.spec_nrows() == nrows && m.spec_ncols() == ncols
                && m.offsets() == row_offsets@ && m.indices() == col_indices@ && m.vals()
                == values@,
    {
        if values.len() != col_indices.len() {
            return None;
        }
        match SparsityPattern::try_from_offsets_and_indices(nrows, ncols, row_offsets, col_indices) {
            Some(pattern) => Some(CsrMatrix { sparsity_pattern: Arc::new(pattern), values }),
            None => None,
        }
    }

    /// Makes a matrix of raw CSR data that are known to be valid.
    pub(crate) fn from_valid_parts(
        ncols: usize,
        row_offsets: Vec<usize>,
        col_indices: Vec<usize>,
        values: Vec<i64>,
    ) -> (m: CsrMatrix)
        requires
            valid_pattern(row_offsets@, col_indices@, ncols as nat),
            values.len() == col_indices.len(),
        ensures
            m.wf(),
            m.spec_ncols() == ncols,
            m.offsets() == row_offsets@,
            m.indices() == col_indices@,
            m.vals() == values@,
    {
        let pattern = SparsityPattern {
            major_offsets: row_offsets,
            minor_indices: col_indices,
            minor_dim: ncols,
        };
        CsrMatrix { sparsity_pattern: Arc::new(pattern), values }
    }

    /// A slot lies in one row only.
    pub proof fn lemma_row_unique(&self, i1: int, i2: int, k: int)
        requires
            self.wf(),
            self.in_row(i1, k),
            self.in_row(i2, k),
        ensures
            i1 == i2,
    {
        let offs = self.offsets();
        if i1 < i2 {
            assert(offs[i1 + 1] <= offs[i2]);
        } else if i2 < i1 {
            assert(offs[i2 + 1] <= offs[i1]);
        }
    }

    /// Makes a matrix over a shared pattern; `None` unless there is one value
    /// for each stored position.
    pub fn try_from_pattern_and_values(pattern: Arc<SparsityPattern>, values: Vec<i64>) -> (r:
        Option<CsrMatrix>)
        requires
            pattern.wf(),
        ensures
            r.is_some() <==> values.len() == pattern.indices().len(),
            r matches Some(m) ==> m.wf() && m.spec_pattern() == *pattern && m.vals() == values@,
    {
        if values.len() != pattern.nnz() {
            return None;
        }
        Some(CsrMatrix { sparsity_pattern: pattern, values })
    }

    /// A handle to the pattern, shared with this matrix.
    pub fn pattern(&self) -> (p: Arc<SparsityPattern>)
        ensures
            *p == self.spec_pattern(),
    {
        share(&self.sparsity_pattern)
    }

    /// Whether both matrices hold one pattern object. `true` only for equal
    /// patterns; two equal patterns in two objects give `false`.
    pub fn shares_pattern_with(&self, other: &CsrMatrix) -> (same: bool)
        ensures
            same ==> self.spec_pattern() == other.spec_pattern(),
    {
        same_object(&self.sparsity_pattern, &other.sparsity_pattern)
    }

    /// The number of rows.
    pub fn nrows(&self) -> (n: usize)
        requires
            self.wf(),
        ensures
            n == self.spec_nrows(),
    {
        self.sparsity_pattern.major_dim()
    }

    /// The number of columns.
    pub fn ncols(&self) -> (n: usize)
        ensures
            n == self.spec_ncols(),
    {
        self.sparsity_pattern.minor_dim()
    }

    /// The number of stored positions.
    pub fn nnz(&self) -> (n: usize)
        ensures
            n == self.indices().len(),
    {
        self.sparsity_pattern.nnz()
    }

    /// Where each row begins among the slots.
    pub fn row_offsets(&self) -> (s: &[usize])
        ensures
            s@ == self.offsets(),
    {
        self.sparsity_pattern.major_offsets()
    }

    /// The column of each slot, row by row.
    pub fn col_indices(&self) -> (s: &[usize])
        ensures
            s@ == self.indices(),
    {
        self.sparsity_pattern.minor_indices()
    }

    /// The value of each slot, row by row.
    pub fn values(&self) -> (s: &[i64])
        ensures
            s@ == self.vals(),
    {
        self.values.as_slice()
    }

    /// Overwrites the value in slot `k`.
    pub fn set_value(&mut self, k: usize, v: i64)
        requires
            k < old(self).vals().len(),
        ensures
            final(self).spec_pattern() == old(self).spec_pattern(),
            final(self).vals() == old(self).vals().update(k as int, v),
    {
        self.values[k] = v;
    }

    /// The slot of `(i, j)`, by bisection of row `i`; `None` for a structural
    /// zero.
    pub fn find_slot(&self, i: usize, j: usize) -> (r: Option<usize>)
        requires
            self.wf(),
            i < self.spec_nrows(),
        ensures
            match r {
                Some(k) => self.has_slot(i as int, j as int, k as int),
                None => !self.stores(i as int, j as int),
            },
    {
        let offsets = self.row_offsets();
        let indices = self.col_indices();
        proof {
            self.lemma_row_range(i as int);
        }
        let row_lo = offsets[i];
        let row_hi = offsets[i + 1];
        let mut lo: usize = row_lo;
        let mut hi: usize = row_hi;
        while lo < hi
            invariant
                self.wf(),
                i < self.spec_nrows(),
                indices@ == self.indices(),
                row_lo == self.offsets()[i as int],
                row_hi == self.offsets()[i + 1],
                row_lo <= lo <= hi <= row_hi <= indices@.len(),
                forall|k: int| row_lo <= k < lo ==> #[trigger] indices@[k] < j,
                forall|k: int| hi <= k < row_hi ==> #[trigger] indices@[k] > j,
            decreases hi - lo,
        {
            let mid = lo + (hi - lo) / 2;
            let c = indices[mid];
            if c == j {
                return Some(mid);
            }
            proof {
                assert(row_sorted(self.offsets(), self.indices(), i as int));
            }
            if c < j {
                lo = mid + 1;
            } else {
                hi = mid;
            }
        }
        proof {
            assert forall|k: int| !self.has_slot(i as int, j as int, k) by {
                if self.has_slot(i as int, j as int, k) {
                    if k < lo {
                        assert(indices@[k] < j);
                    } else {
                        assert(indices@[k] > j);
                    }
                }
            }
        }
        None
    }

    /// The value at `(i, j)`; `None` for a structural zero.
    pub fn get_entry(&self, i: usize, j: usize) -> (r: Option<i64>)
        requires
            self.wf(),
            i < self.spec_nrows(),
        ensures
            match r {
                Some(v) => self@.stores(i as int, j as int) && v == self@.entries[(
                    i as int,
                    j as int,
                )],
                None => !self@.stores(i as int, j as int),
            },
    {
        match self.find_slot(i, j) {
            Some(k) => {
                proof {
                    self.lemma_view_of_slot(i as int, k as int);
                }
                Some(self.values[k])
            },
            None => None,
        }
    }

    /// Looks `(i, j)` up for mutation.
    pub fn index_entry_mut(&mut self, i: usize, j: usize) -> (e: SparseEntryMut<'_>)
        requires
            old(self).wf(),
            i < old(self).spec_nrows(),
            j < old(self).spec_ncols(),
        ensures
            final(self).spec_pattern() == old(self).spec_pattern(),
            match e {
                SparseEntryMut::NonZero(v) => {
                    &&& old(self).stores(i as int, j as int)
                    &&& *v == old(self).vals()[old(self).slot(i as int, j as int)]
                    &&& final(self).vals() == old(self).vals().update(
                        old(self).slot(i as int, j as int),
                        *final(v),
                    )
                },
                SparseEntryMut::Zero => {
                    &&& !old(self).stores(i as int, j as int)
                    &&& final(self).vals() == old(self).vals()
                },
            },
    {
        match self.find_slot(i, j) {
            Some(k) => {
                proof {
                    self.lemma_view_of_slot(i as int, k as int);
                }
                SparseEntryMut::NonZero(&mut self.values[k])
            },
            None => SparseEntryMut::Zero,
        }
    }
}

} // verus!
