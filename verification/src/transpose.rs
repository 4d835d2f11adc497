//! The explicit transpose of a CSR matrix, by counting.

use crate::csr::{row_sorted, valid_pattern, CsrMatrix};
use vstd::prelude::*;

verus! {

/// The number of slots before `n` whose column is `j`.
pub open spec fn col_count(indices: Seq<usize>, j: int, n: int) -> int
    decreases n,
{
    if n <= 0 {
        0
    } else {
        col_count(indices, j, n - 1) + if indices[n - 1] == j {
            1int
        } else {
            0int
        }
    }
}

/// The number of slots before `n` whose column is below `j`.
pub open spec fn count_below(indices: Seq<usize>, j: int, n: int) -> int
    decreases n,
{
    if n <= 0 {
        0
    } else {
        count_below(indices, j, n - 1) + if indices[n - 1] < j {
            1int
        } else {
            0int
        }
    }
}

/// Neither count exceeds the number of slots looked at.
proof fn lemma_count_bounds(indices: Seq<usize>, j: int, n: int)
    requires
        0 <= n,
    ensures
        0 <= col_count(indices, j, n) <= n,
        0 <= count_below(indices, j, n) <= n,
    decreases n,
{
    if n > 0 {
        lemma_count_bounds(indices, j, n - 1);
    }
}

/// The slots below `j + 1` are those below `j` and those of column `j`.
proof fn lemma_count_below_next(indices: Seq<usize>, j: int, n: int)
    ensures
        count_below(indices, j + 1, n) == count_below(indices, j, n) + col_count(indices, j, n),
    decreases n,
{
    if n > 0 {
        lemma_count_below_next(indices, j, n - 1);
    }
}

/// No column is below zero.
proof fn lemma_count_below_zero(indices: Seq<usize>, n: int)
    ensures
        count_below(indices, 0, n) == 0,
    decreases n,
{
    if n > 0 {
        lemma_count_below_zero(indices, n - 1);
    }
}

/// Where every column is below `m`, every slot is counted.
proof fn lemma_count_below_all(indices: Seq<usize>, m: int, n: int)
    requires
        0 <= n <= indices.len(),
        forall|k: int| 0 <= k < indices.len() ==> #[trigger] indices[k] < m,
    ensures
        count_below(indices, m, n) == n,
    decreases n,
{
    if n > 0 {
        lemma_count_below_all(indices, m, n - 1);
    }
}

/// A larger bound counts no fewer slots.
proof fn lemma_count_below_ascends(indices: Seq<usize>, j1: int, j2: int, n: int)
    requires
        j1 <= j2,
    ensures
        count_below(indices, j1, n) <= count_below(indices, j2, n),
    decreases n,
{
    if n > 0 {
        lemma_count_below_ascends(indices, j1, j2, n - 1);
    }
}

/// Looking at more slots counts no fewer.
proof fn lemma_col_count_ascends(indices: Seq<usize>, j: int, n1: int, n2: int)
    requires
        n1 <= n2,
    ensures
        col_count(indices, j, n1) <= col_count(indices, j, n2),
    decreases n2 - n1,
{
    if n1 < n2 {
        lemma_col_count_ascends(indices, j, n1, n2 - 1);
        lemma_count_bounds(indices, j, 0);
    }
}

/// What is known of slot `s` of the transpose: it copies slot `src[s]` of
/// `a`, and lies in the row that is that slot's column.
pub open spec fn copies(
    a: &CsrMatrix,
    t_offsets: Seq<usize>,
    t_indices: Seq<usize>,
    t_values: Seq<i64>,
    src: Seq<int>,
    s: int,
) -> bool {
    let k = src[s];
    let r = t_indices[s] as int;
    let c = a.indices()[k] as int;
    &&& a.in_row(r, k)
    &&& t_values[s] == a.vals()[k]
    &&& 0 <= c < a.spec_ncols()
    &&& t_offsets[c] <= s < t_offsets[c + 1]
}

/// Slot `s1` of the transpose comes before slot `s2` by column of `a`, then
/// by row.
pub open spec fn ordered(a: &CsrMatrix, t_indices: Seq<usize>, src: Seq<int>, s1: int, s2: int)
    -> bool {
    let c1 = a.indices()[src[s1]];
    let c2 = a.indices()[src[s2]];
    c1 < c2 || (c1 == c2 && t_indices[s1] < t_indices[s2])
}

/// What is known of slot `k` of `a` once it has been placed: where it went,
/// and that it is there.
pub open spec fn placed(
    a: &CsrMatrix,
    t_offsets: Seq<usize>,
    next: Seq<usize>,
    t_indices: Seq<usize>,
    t_values: Seq<i64>,
    src: Seq<int>,
    dst: Seq<int>,
    k: int,
) -> bool {
    let c = a.indices()[k] as int;
    let d = dst[k];
    &&& t_offsets[c] <= d < next[c]
    &&& src[d] == k
    &&& a.in_row(t_indices[d] as int, k)
    &&& t_values[d] == a.vals()[k]
}

/// Slot `s` of row `j` of the transpose, where it lies in the part that has
/// been filled, holds a slot of `a` of column `j` that was placed there.
pub open spec fn filled(
    a: &CsrMatrix,
    t_offsets: Seq<usize>,
    next: Seq<usize>,
    src: Seq<int>,
    dst: Seq<int>,
    upto: int,
    j: int,
    s: int,
) -> bool {
    t_offsets[j] <= s < next[j] ==> 0 <= src[s] < upto && dst[src[s]] == s && a.indices()[src[s]]
        == j
}

/// Of two placed slots of one column, the earlier went to the earlier place.
pub open spec fn in_order(a: &CsrMatrix, dst: Seq<int>, k1: int, k2: int) -> bool {
    a.indices()[k1] == a.indices()[k2] ==> dst[k1] < dst[k2]
}

/// The offsets of the transpose are the counts of the slots by column.
pub open spec fn counted(a: &CsrMatrix, t_offsets: Seq<usize>) -> bool {
    &&& t_offsets.len() == a.spec_ncols() + 1
    &&& forall|j: int|
        0 <= j <= a.spec_ncols() ==> #[trigger] t_offsets[j] == count_below(
            a.indices(),
            j,
            a.indices().len() as int,
        )
}

/// Counted offsets start at zero, never descend and end at the number of
/// slots.
proof fn lemma_counted_offsets(a: &CsrMatrix, t_offsets: Seq<usize>)
    requires
        a.wf(),
        counted(a, t_offsets),
    ensures
        t_offsets[0] == 0,
        t_offsets[a.spec_ncols() as int] == a.indices().len(),
        forall|x: int, y: int|
            0 <= x <= y < t_offsets.len() ==> #[trigger] t_offsets[x] <= #[trigger] t_offsets[y],
{
    let n = a.indices().len() as int;
    lemma_count_below_zero(a.indices(), n);
    lemma_count_below_all(a.indices(), a.spec_ncols() as int, n);
    assert forall|x: int, y: int| 0 <= x <= y < t_offsets.len() implies #[trigger] t_offsets[x]
        <= #[trigger] t_offsets[y] by {
        lemma_count_below_ascends(a.indices(), x, y, n);
    }
}

/// A slot of the transpose lies in the row that `copies` names, and in no
/// other.
proof fn lemma_slot_row(
    a: &CsrMatrix,
    t_offsets: Seq<usize>,
    t_indices: Seq<usize>,
    t_values: Seq<i64>,
    src: Seq<int>,
    c: int,
    s: int,
)
    requires
        t_offsets.len() == a.spec_ncols() + 1,
        0 <= c < a.spec_ncols(),
        t_offsets[c] <= s < t_offsets[c + 1],
        forall|x: int, y: int|
            0 <= x <= y < t_offsets.len() ==> #[trigger] t_offsets[x] <= #[trigger] t_offsets[y],
        copies(a, t_offsets, t_indices, t_values, src, s),
    ensures
        a.indices()[src[s]] == c,
{
    let d = a.indices()[src[s]] as int;
    if d < c {
        assert(t_offsets[d + 1] <= t_offsets[c]);
    } else if d > c {
        assert(t_offsets[c + 1] <= t_offsets[d]);
    }
}

/// Offsets and indices in which every slot copies one of `a`, in order,
/// form a pattern.
proof fn lemma_copies_give_pattern(
    a: &CsrMatrix,
    t_offsets: Seq<usize>,
    t_indices: Seq<usize>,
    t_values: Seq<i64>,
    src: Seq<int>,
)
    requires
        a.wf(),
        t_offsets.len() == a.spec_ncols() + 1,
        t_offsets[0] == 0,
        t_offsets[a.spec_ncols() as int] == t_indices.len(),
        t_indices.len() == src.len(),
        forall|x: int, y: int|
            0 <= x <= y < t_offsets.len() ==> #[trigger] t_offsets[x] <= #[trigger] t_offsets[y],
        forall|s: int|
            0 <= s < src.len() ==> #[trigger] copies(a, t_offsets, t_indices, t_values, src, s),
        forall|s1: int, s2: int|
            0 <= s1 < s2 < src.len() ==> #[trigger] ordered(a, t_indices, src, s1, s2),
    ensures
        valid_pattern(t_offsets, t_indices, a.spec_nrows()),
{
    let ncols = a.spec_ncols() as int;
    assert forall|s: int| 0 <= s < t_indices.len() implies #[trigger] t_indices[s]
        < a.spec_nrows() by {
        assert(copies(a, t_offsets, t_indices, t_values, src, s));
    }
    assert forall|c: int| 0 <= c < t_offsets.len() - 1 implies #[trigger] row_sorted(
        t_offsets,
        t_indices,
        c,
    ) by {
        assert forall|s1: int, s2: int| t_offsets[c] <= s1 < s2 < t_offsets[c + 1] implies
            #[trigger] t_indices[s1] < #[trigger] t_indices[s2] by {
            assert(t_offsets[c + 1] <= t_offsets[ncols]);
            assert(copies(a, t_offsets, t_indices, t_values, src, s1));
            assert(copies(a, t_offsets, t_indices, t_values, src, s2));
            lemma_slot_row(a, t_offsets, t_indices, t_values, src, c, s1);
            lemma_slot_row(a, t_offsets, t_indices, t_values, src, c, s2);
            assert(ordered(a, t_indices, src, s1, s2));
        }
    }
}

/// Position `p` of a matrix whose slots copy those of `a`, one for one,
/// holds what the transpose holds there.
proof fn lemma_copied_entry(
    a: &CsrMatrix,
    t: &CsrMatrix,
    src: Seq<int>,
    dst: Seq<int>,
    p: (int, int),
)
    requires
        a.wf(),
        t.wf(),
        t.spec_nrows() == a.spec_ncols(),
        t.spec_ncols() == a.spec_nrows(),
        src.len() == t.vals().len(),
        forall|s: int|
            0 <= s < src.len() ==> #[trigger] copies(
                a,
                t.offsets(),
                t.indices(),
                t.vals(),
                src,
                s,
            ),
        forall|r: int, k: int|
            #[trigger] a.in_row(r, k) ==> 0 <= k < dst.len() && 0 <= dst[k] < src.len()
                && src[dst[k]] == k,
    ensures
        t.stores(p.0, p.1) == a.stores(p.1, p.0),
        t.stores(p.0, p.1) ==> t.vals()[t.slot(p.0, p.1)] == a.vals()[a.slot(p.1, p.0)],
{
    if t.stores(p.0, p.1) {
        let s = t.slot(p.0, p.1);
        assert(t.has_slot(p.0, p.1, s));
        t.lemma_row_range(p.0);
        assert(copies(a, t.offsets(), t.indices(), t.vals(), src, s));
        let k = src[s];
        lemma_slot_row(a, t.offsets(), t.indices(), t.vals(), src, p.0, s);
        assert(a.has_slot(p.1, p.0, k));
        a.lemma_slot_unique(p.1, p.0, k, a.slot(p.1, p.0));
    }
    if a.stores(p.1, p.0) {
        let k = a.slot(p.1, p.0);
        assert(a.has_slot(p.1, p.0, k));
        let s = dst[k];
        assert(copies(a, t.offsets(), t.indices(), t.vals(), src, s));
        a.lemma_row_unique(p.1, t.indices()[s] as int, k);
        assert(t.has_slot(p.0, p.1, s));
    }
}

/// A matrix whose slots copy those of `a`, one for one, each in the row that
/// is its column, is the transpose.
proof fn lemma_copies_give_transpose(a: &CsrMatrix, t: &CsrMatrix, src: Seq<int>, dst: Seq<int>)
    requires
        a.wf(),
        t.wf(),
        t.spec_nrows() == a.spec_ncols(),
        t.spec_ncols() == a.spec_nrows(),
        src.len() == t.vals().len(),
        forall|s: int|
            0 <= s < src.len() ==> #[trigger] copies(
                a,
                t.offsets(),
                t.indices(),
                t.vals(),
                src,
                s,
            ),
        forall|r: int, k: int|
            #[trigger] a.in_row(r, k) ==> 0 <= k < dst.len() && 0 <= dst[k] < src.len()
                && src[dst[k]] == k,
    ensures
        t@ == a@.transpose(),
{
    let got = t@.entries;
    let want = a@.transpose().entries;
    assert forall|p: (int, int)| #[trigger] got.dom().contains(p) == want.dom().contains(p) by {
        lemma_copied_entry(a, t, src, dst, p);
    }
    assert(got.dom() =~= want.dom());
    assert forall|p: (int, int)| got.dom().contains(p) implies #[trigger] got[p] == want[p] by {
        lemma_copied_entry(a, t, src, dst, p);
    }
    assert(got =~= want);
}

/// The row of the transpose in which slot `s` lies.
proof fn lemma_find_row(t_offsets: Seq<usize>, s: int, upto: int) -> (j: int)
    requires
        0 <= upto < t_offsets.len(),
        t_offsets[0] == 0,
        0 <= s < t_offsets[upto],
    ensures
        0 <= j < upto,
        t_offsets[j] <= s < t_offsets[j + 1],
    decreases upto,
{
    if t_offsets[upto - 1] <= s {
        upto - 1
    } else {
        lemma_find_row(t_offsets, s, upto - 1)
    }
}

/// Once every slot of `a` is placed, every slot of the transpose copies one,
/// in order.
proof fn lemma_all_placed(
    a: &CsrMatrix,
    t_offsets: Seq<usize>,
    next: Seq<usize>,
    t_indices: Seq<usize>,
    t_values: Seq<i64>,
    src: Seq<int>,
    dst: Seq<int>,
)
    requires
        a.wf(),
        counted(a, t_offsets),
        next.len() == a.spec_ncols(),
        t_indices.len() == a.indices().len(),
        t_values.len() == a.indices().len(),
        src.len() == a.indices().len(),
        dst.len() == a.indices().len(),
        forall|j: int| 0 <= j < a.spec_ncols() ==> #[trigger] next[j] == t_offsets[j + 1],
        forall|k: int|
            0 <= k < a.indices().len() ==> #[trigger] placed(
                a,
                t_offsets,
                next,
                t_indices,
                t_values,
                src,
                dst,
                k,
            ),
        forall|j: int, s: int|
            0 <= j < a.spec_ncols() ==> #[trigger] filled(
                a,
                t_offsets,
                next,
                src,
                dst,
                a.indices().len() as int,
                j,
                s,
            ),
        forall|k1: int, k2: int|
            0 <= k1 < k2 < a.indices().len() ==> #[trigger] in_order(a, dst, k1, k2),
    ensures
        forall|s: int|
            0 <= s < src.len() ==> #[trigger] copies(a, t_offsets, t_indices, t_values, src, s),
        forall|s1: int, s2: int|
            0 <= s1 < s2 < src.len() ==> #[trigger] ordered(a, t_indices, src, s1, s2),
        forall|r: int, k: int|
            #[trigger] a.in_row(r, k) ==> 0 <= k < dst.len() && 0 <= dst[k] < src.len()
                && src[dst[k]] == k,
{
    let nnz = a.indices().len() as int;
    let ncols = a.spec_ncols() as int;
    lemma_counted_offsets(a, t_offsets);
    assert forall|s: int| 0 <= s < src.len() implies #[trigger] copies(
        a,
        t_offsets,
        t_indices,
        t_values,
        src,
        s,
    ) by {
        let j = lemma_find_row(t_offsets, s, ncols);
        assert(filled(a, t_offsets, next, src, dst, nnz, j, s));
        assert(placed(a, t_offsets, next, t_indices, t_values, src, dst, src[s]));
    }
    assert forall|s1: int, s2: int| 0 <= s1 < s2 < src.len() implies #[trigger] ordered(
        a,
        t_indices,
        src,
        s1,
        s2,
    ) by {
        let j1 = lemma_find_row(t_offsets, s1, ncols);
        let j2 = lemma_find_row(t_offsets, s2, ncols);
        assert(filled(a, t_offsets, next, src, dst, nnz, j1, s1));
        assert(filled(a, t_offsets, next, src, dst, nnz, j2, s2));
        let k1 = src[s1];
        let k2 = src[s2];
        assert(placed(a, t_offsets, next, t_indices, t_values, src, dst, k1));
        assert(placed(a, t_offsets, next, t_indices, t_values, src, dst, k2));
        if j1 > j2 {
            assert(t_offsets[j2 + 1] <= t_offsets[j1]);
        } else if j1 == j2 {
            if k2 < k1 {
                assert(in_order(a, dst, k2, k1));
            }
            let r1 = t_indices[s1] as int;
            let r2 = t_indices[s2] as int;
            if r1 == r2 {
                a.lemma_row_ascends(r1, k1, k2);
            } else if r1 > r2 {
                assert(a.offsets()[r2 + 1] <= a.offsets()[r1]);
            }
        }
    }
    assert forall|r: int, k: int| #[trigger] a.in_row(r, k) implies 0 <= k < dst.len() && 0
        <= dst[k] < src.len() && src[dst[k]] == k by {
        a.lemma_row_range(r);
        a.lemma_view_of_slot(r, k);
        assert(placed(a, t_offsets, next, t_indices, t_values, src, dst, k));
        assert(t_offsets[a.indices()[k] + 1] <= t_offsets[ncols]);
    }
}

/// Counts the slots of `a` by column and sums the counts up: the offsets of
/// the transpose.
fn count_columns(a: &CsrMatrix) -> (t_offsets: Vec<usize>)
    requires
        a.wf(),
    ensures
        counted(a, t_offsets@),
{
    let ncols = a.ncols();
    let indices = a.col_indices();
    let nnz = indices.len();
    let mut counts: Vec<usize> = Vec::new();
    counts.push(0);
    let mut j: usize = 0;
    while j < ncols
        invariant
            0 <= j <= ncols,
            counts.len() == j + 1,
            forall|x: int| 0 <= x <= j ==> #[trigger] counts[x] == 0,
        decreases ncols - j,
    {
        counts.push(0);
        j += 1;
    }
    let mut k: usize = 0;
    while k < nnz
        invariant
            a.wf(),
            ncols == a.spec_ncols(),
            indices@ == a.indices(),
            nnz == indices@.len(),
            0 <= k <= nnz,
            counts.len() == ncols + 1,
            counts[0] == 0,
            forall|x: int|
                0 <= x < ncols ==> #[trigger] counts[x + 1] == col_count(indices@, x, k as int),
        decreases nnz - k,
    {
        let c = indices[k];
        proof {
            lemma_count_bounds(indices@, c as int, k as int);
        }
        let seen = counts[c + 1];
        counts[c + 1] = seen + 1;
        k += 1;
    }
    let mut j: usize = 0;
    proof {
        lemma_count_below_zero(indices@, nnz as int);
    }
    while j < ncols
        invariant
            ncols == a.spec_ncols(),
            indices@ == a.indices(),
            nnz == indices@.len(),
            0 <= j <= ncols,
            counts.len() == ncols + 1,
            forall|x: int|
                0 <= x <= j ==> #[trigger] counts[x] == count_below(indices@, x, nnz as int),
            forall|x: int|
                j <= x < ncols ==> #[trigger] counts[x + 1] == col_count(
                    indices@,
                    x,
                    nnz as int,
                ),
        decreases ncols - j,
    {
        proof {
            lemma_count_below_next(indices@, j as int, nnz as int);
            lemma_count_bounds(indices@, j + 1, nnz as int);
        }
        let below = counts[j];
        let here = counts[j + 1];
        counts[j + 1] = below + here;
        j += 1;
    }
    counts
}

impl CsrMatrix {
    /// The transpose, as a matrix with a pattern of its own. The slots are
    /// counted by column and then each is put in its place, so the time is
    /// of the order of the number of rows, columns and slots together.
    pub fn transpose(&self) -> (t: CsrMatrix)
        requires
            self.wf(),
        ensures
            t.wf(),
            t@ == self@.transpose(),
    {
        let nrows = self.nrows();
        let ncols = self.ncols();
        let offsets = self.row_offsets();
        let indices = self.col_indices();
        let values = self.values();
        let nnz = indices.len();
        let t_offsets = count_columns(self);
        proof {
            lemma_counted_offsets(self, t_offsets@);
        }
        let mut next: Vec<usize> = Vec::new();
        let mut j: usize = 0;
        while j < ncols
            invariant
                0 <= j <= ncols,
                t_offsets.len() == ncols + 1,
                next.len() == j,
                forall|x: int| 0 <= x < j ==> #[trigger] next[x] == t_offsets[x],
            decreases ncols - j,
        {
            next.push(t_offsets[j]);
            j += 1;
        }
        let mut t_indices: Vec<usize> = vec![0usize; nnz];
        let mut t_values: Vec<i64> = vec![0i64; nnz];
        let ghost mut src: Seq<int> = Seq::new(nnz as nat, |k: int| 0int);
        let ghost mut dst: Seq<int> = Seq::new(nnz as nat, |k: int| 0int);
        let mut i: usize = 0;
        while i < nrows
            invariant
                self.wf(),
                nrows == self.spec_nrows(),
                ncols == self.spec_ncols(),
                offsets@ == self.offsets(),
                indices@ == self.indices(),
                values@ == self.vals(),
                nnz == indices@.len(),
                counted(self, t_offsets@),
                0 <= i <= nrows,
                next.len() == ncols,
                t_indices.len() == nnz,
                t_values.len() == nnz,
                src.len() == nnz,
                dst.len() == nnz,
                forall|x: int|
                    0 <= x < ncols ==> #[trigger] next[x] == t_offsets[x] + col_count(
                        indices@,
                        x,
                        offsets@[i as int] as int,
                    ),
                forall|k: int|
                    0 <= k < offsets@[i as int] ==> #[trigger] placed(
                        self,
                        t_offsets@,
                        next@,
                        t_indices@,
                        t_values@,
                        src,
                        dst,
                        k,
                    ),
                forall|x: int, s: int|
                    0 <= x < ncols ==> #[trigger] filled(
                        self,
                        t_offsets@,
                        next@,
                        src,
                        dst,
                        offsets@[i as int] as int,
                        x,
                        s,
                    ),
                forall|k1: int, k2: int|
                    0 <= k1 < k2 < offsets@[i as int] ==> #[trigger] in_order(self, dst, k1, k2),
            decreases nrows - i,
        {
            proof {
                self.lemma_row_range(i as int);
            }
            let lo = offsets[i];
            let hi = offsets[i + 1];
            let mut k: usize = lo;
            while k < hi
                invariant
                    self.wf(),
                    nrows == self.spec_nrows(),
                    ncols == self.spec_ncols(),
                    offsets@ == self.offsets(),
                    indices@ == self.indices(),
                    values@ == self.vals(),
                    nnz == indices@.len(),
                    counted(self, t_offsets@),
                    0 <= i < nrows,
                    lo == offsets@[i as int],
                    hi == offsets@[i + 1],
                    lo <= k <= hi <= nnz,
                    next.len() == ncols,
                    t_indices.len() == nnz,
                    t_values.len() == nnz,
                    src.len() == nnz,
                    dst.len() == nnz,
                    forall|x: int|
                        0 <= x < ncols ==> #[trigger] next[x] == t_offsets[x] + col_count(
                            indices@,
                            x,
                            k as int,
                        ),
                    forall|q: int|
                        0 <= q < k ==> #[trigger] placed(
                            self,
                            t_offsets@,
                            next@,
                            t_indices@,
                            t_values@,
                            src,
                            dst,
                            q,
                        ),
                    forall|x: int, s: int|
                        0 <= x < ncols ==> #[trigger] filled(
                            self,
                            t_offsets@,
                            next@,
                            src,
                            dst,
                            k as int,
                            x,
                            s,
                        ),
                    forall|k1: int, k2: int|
                        0 <= k1 < k2 < k ==> #[trigger] in_order(self, dst, k1, k2),
                decreases hi - k,
            {
                proof {
                    self.lemma_view_of_slot(i as int, k as int);
                }
                let c = indices[k];
                let d = next[c];
                proof {
                    lemma_counted_offsets(self, t_offsets@);
                    lemma_count_below_next(indices@, c as int, nnz as int);
                    lemma_col_count_ascends(indices@, c as int, k + 1, nnz as int);
                    lemma_count_bounds(indices@, c as int, k as int);
                    assert(t_offsets@[c as int] <= d < t_offsets@[c + 1]);
                    assert(t_offsets@[c + 1] <= t_offsets@[ncols as int]);
                }
                let ghost old_next = next@;
                let ghost old_indices = t_indices@;
                let ghost old_values = t_values@;
                let ghost old_src = src;
                let ghost old_dst = dst;
                t_indices[d] = i;
                t_values[d] = values[k];
                next[c] = d + 1;
                proof {
                    src = src.update(d as int, k as int);
                    dst = dst.update(k as int, d as int);
                    assert forall|q: int| 0 <= q < k implies 0 <= old_dst[q] < nnz && old_dst[q]
                        != d by {
                        assert(placed(
                            self,
                            t_offsets@,
                            old_next,
                            old_indices,
                            old_values,
                            old_src,
                            old_dst,
                            q,
                        ));
                        let c2 = indices@[q] as int;
                        assert(t_offsets@[c2 + 1] <= t_offsets@[ncols as int]);
                        lemma_count_below_next(indices@, c2, nnz as int);
                        lemma_col_count_ascends(indices@, c2, k as int, nnz as int);
                        lemma_disjoint_rows(
                            self,
                            t_offsets@,
                            old_next,
                            c2,
                            old_dst[q],
                            c as int,
                            d as int,
                        );
                    }
                    assert forall|q: int| 0 <= q < k + 1 implies #[trigger] placed(
                        self,
                        t_offsets@,
                        next@,
                        t_indices@,
                        t_values@,
                        src,
                        dst,
                        q,
                    ) by {
                        if q < k {
                            assert(placed(
                                self,
                                t_offsets@,
                                old_next,
                                old_indices,
                                old_values,
                                old_src,
                                old_dst,
                                q,
                            ));
                            assert(0 <= old_dst[q] < nnz && old_dst[q] != d);
                        }
                    }
                    assert forall|x: int, s: int| 0 <= x < ncols implies #[trigger] filled(
                        self,
                        t_offsets@,
                        next@,
                        src,
                        dst,
                        k + 1,
                        x,
                        s,
                    ) by {
                        assert(filled(self, t_offsets@, old_next, old_src, old_dst, k as int, x, s));
                        if t_offsets@[x] <= s < next@[x] && !(x == c && s == d) {
                            assert(t_offsets@[x] <= s < old_next[x]);
                            let q = old_src[s];
                            assert(old_dst[q] == s);
                            assert(0 <= old_dst[q] < nnz && old_dst[q] != d);
                        }
                    }
                    assert forall|k1: int, k2: int| 0 <= k1 < k2 < k + 1 implies #[trigger] in_order(
                        self,
                        dst,
                        k1,
                        k2,
                    ) by {
                        if k2 < k {
                            assert(in_order(self, old_dst, k1, k2));
                        } else {
                            assert(placed(
                                self,
                                t_offsets@,
                                old_next,
                                old_indices,
                                old_values,
                                old_src,
                                old_dst,
                                k1,
                            ));
                        }
                    }
                }
                k += 1;
            }
            i += 1;
        }
        proof {
            assert(offsets@[nrows as int] == nnz);
            assert forall|x: int| 0 <= x < ncols implies #[trigger] next@[x] == t_offsets@[x
                + 1] by {
                lemma_count_below_next(indices@, x, nnz as int);
            }
            lemma_all_placed(self, t_offsets@, next@, t_indices@, t_values@, src, dst);
            lemma_copies_give_pattern(self, t_offsets@, t_indices@, t_values@, src);
        }
        let t = CsrMatrix::from_valid_parts(nrows, t_offsets, t_indices, t_values);
        proof {
            lemma_copies_give_transpose(self, &t, src, dst);
        }
        t
    }
}

/// A place in the filled part of row `c2` of the transpose is not the place
/// where the next slot of column `c` goes.
proof fn lemma_disjoint_rows(
    a: &CsrMatrix,
    t_offsets: Seq<usize>,
    next: Seq<usize>,
    c2: int,
    e: int,
    c: int,
    d: int,
)
    requires
        a.wf(),
        counted(a, t_offsets),
        0 <= c2 < a.spec_ncols(),
        0 <= c < a.spec_ncols(),
        next.len() == a.spec_ncols(),
        d == next[c],
        t_offsets[c] <= d < t_offsets[c + 1],
        t_offsets[c2] <= e < next[c2],
        next[c2] <= t_offsets[c2 + 1],
    ensures
        e != d,
{
    lemma_counted_offsets(a, t_offsets);
    if c2 < c {
        assert(t_offsets[c2 + 1] <= t_offsets[c]);
    } else if c2 > c {
        assert(t_offsets[c + 1] <= t_offsets[c2]);
    }
}

} // verus!
