//! The mathematical model that the contracts speak of.

use crate::scalar::wrap;
use vstd::prelude::*;

verus! {

/// A matrix as mathematics sees it: a shape, and a value at each stored
/// position. A position that is not stored reads as zero. A dense matrix stores
/// every position of its shape; a sparse one stores its pattern.
pub struct MatrixView {
    pub nrows: nat,
    pub ncols: nat,
    pub entries: Map<(int, int), i64>,
}

impl MatrixView {
    /// Whether `(i, j)` belongs to the pattern.
    pub open spec fn stores(self, i: int, j: int) -> bool {
        self.entries.contains_key((i, j))
    }

    /// The value at `(i, j)`, zero outside the pattern.
    pub open spec fn at(self, i: int, j: int) -> int {
        if self.entries.contains_key((i, j)) {
            self.entries[(i, j)] as int
        } else {
            0
        }
    }

    /// The explicit transpose.
    pub open spec fn transpose(self) -> MatrixView {
        MatrixView {
            nrows: self.ncols,
            ncols: self.nrows,
            entries: Map::new(
                |p: (int, int)| self.entries.contains_key((p.1, p.0)),
                |p: (int, int)| self.entries[(p.1, p.0)],
            ),
        }
    }

    /// The operand that a transpose flag selects.
    pub open spec fn op(self, trans: bool) -> MatrixView {
        if trans {
            self.transpose()
        } else {
            self
        }
    }

    /// Every stored position lies inside the shape.
    pub open spec fn in_shape(self) -> bool {
        forall|i: int, j: int| #[trigger]
            self.entries.contains_key((i, j)) ==> 0 <= i < self.nrows && 0 <= j < self.ncols
    }

    /// Every position of the shape is stored, and no other.
    pub open spec fn is_dense(self) -> bool {
        forall|i: int, j: int| #[trigger]
            self.entries.contains_key((i, j)) <==> 0 <= i < self.nrows && 0 <= j < self.ncols
    }

    /// Whether the pattern holds every position that `other` stores.
    pub open spec fn covers(self, other: MatrixView) -> bool {
        forall|i: int, j: int| #[trigger]
            other.entries.contains_key((i, j)) ==> self.entries.contains_key((i, j))
    }

    /// Same shape and same pattern; the values may differ.
    pub open spec fn same_pattern(self, other: MatrixView) -> bool {
        &&& self.nrows == other.nrows
        &&& self.ncols == other.ncols
        &&& self.entries.dom() == other.entries.dom()
    }
}

/// `sum over k < n of a[i, k] * b[k, j]`, in exact integers.
pub open spec fn dot_upto(a: MatrixView, b: MatrixView, i: int, j: int, n: nat) -> int
    decreases n,
{
    if n == 0 {
        0
    } else {
        dot_upto(a, b, i, j, (n - 1) as nat) + a.at(i, n - 1) * b.at(n - 1, j)
    }
}

/// Entry `(i, j)` of the matrix product `a * b`, in exact integers.
pub open spec fn product_at(a: MatrixView, b: MatrixView, i: int, j: int) -> int {
    dot_upto(a, b, i, j, a.ncols)
}

/// Whether the shapes allow `c <- beta * c + alpha * a * b`.
pub open spec fn spmm_dims_compatible(c: MatrixView, a: MatrixView, b: MatrixView) -> bool {
    &&& c.nrows == a.nrows
    &&& c.ncols == b.ncols
    &&& a.ncols == b.nrows
}

/// Whether the shapes allow `c <- beta * c + alpha * a`.
pub open spec fn spadd_dims_compatible(c: MatrixView, a: MatrixView) -> bool {
    &&& c.nrows == a.nrows
    &&& c.ncols == a.ncols
}

/// Whether the pattern of `c` holds every position at which the product
/// `a * b` has a term.
pub open spec fn covers_product(c: MatrixView, a: MatrixView, b: MatrixView) -> bool {
    forall|i: int, k: int, j: int|
        #![trigger a.entries.contains_key((i, k)), b.entries.contains_key((k, j))]
        a.entries.contains_key((i, k)) && b.entries.contains_key((k, j))
            ==> c.entries.contains_key((i, j))
}

/// `c_new` is `beta * c_old + alpha * a * b`: the pattern of `c_old`, and at
/// each of its positions the ring element of the exact expression.
pub open spec fn is_spmm_update(
    c_new: MatrixView,
    c_old: MatrixView,
    beta: i64,
    alpha: i64,
    a: MatrixView,
    b: MatrixView,
) -> bool {
    &&& c_new.same_pattern(c_old)
    &&& forall|i: int, j: int|
        c_old.entries.contains_key((i, j)) ==> #[trigger] c_new.entries[(i, j)] == wrap(
            beta * c_old.entries[(i, j)] + alpha * product_at(a, b, i, j),
        )
}

/// `c_new` is `beta * c_old + alpha * a`: the pattern of `c_old`, and at each
/// of its positions the ring element of the exact expression.
pub open spec fn is_spadd_update(
    c_new: MatrixView,
    c_old: MatrixView,
    beta: i64,
    alpha: i64,
    a: MatrixView,
) -> bool {
    &&& c_new.same_pattern(c_old)
    &&& forall|i: int, j: int|
        c_old.entries.contains_key((i, j)) ==> #[trigger] c_new.entries[(i, j)] == wrap(
            beta * c_old.entries[(i, j)] + alpha * a.at(i, j),
        )
}

/// Whether `(i, j)` comes before `(r, m)` in row-major order.
pub open spec fn precedes(i: int, j: int, r: int, m: int) -> bool {
    i < r || (i == r && j < m)
}

/// What a failed addition leaves at position `(x, y)` of `C`, which held `v`,
/// when it stopped at the entry `(r, m)` of `a` as stored.
///
/// Read as stored, `a` is added row by row: the rows of `C` before `r`, and
/// row `r` itself, have been scaled, and the entries of `a` before `(r, m)`
/// added; the rows after `r` are untouched. Read transposed, all of `C` has
/// been scaled, and each entry of `a` before `(r, m)` added at its mirrored
/// position.
pub open spec fn spadd_partial_value(
    v: i64,
    beta: i64,
    alpha: i64,
    a: MatrixView,
    trans: bool,
    r: int,
    m: int,
    x: int,
    y: int,
) -> i64 {
    if trans {
        wrap(
            beta * v + alpha * (if precedes(y, x, r, m) {
                a.at(y, x)
            } else {
                0
            }),
        )
    } else if x > r {
        v
    } else {
        wrap(
            beta * v + alpha * (if precedes(x, y, r, m) {
                a.at(x, y)
            } else {
                0
            }),
        )
    }
}

/// `c_new` is what an addition leaves that stopped at the entry `(r, m)` of
/// `a` as stored: the first one, row by row, for which `c_old` has no slot.
pub open spec fn is_spadd_partial(
    c_new: MatrixView,
    c_old: MatrixView,
    beta: i64,
    alpha: i64,
    a: MatrixView,
    trans: bool,
    r: int,
    m: int,
) -> bool {
    &&& c_new.same_pattern(c_old)
    &&& a.entries.contains_key((r, m))
    &&& if trans {
        !c_old.entries.contains_key((m, r))
    } else {
        !c_old.entries.contains_key((r, m))
    }
    &&& forall|i: int, j: int|
        #[trigger] a.entries.contains_key((i, j)) && precedes(i, j, r, m) ==> if trans {
            c_old.entries.contains_key((j, i))
        } else {
            c_old.entries.contains_key((i, j))
        }
    &&& forall|x: int, y: int|
        c_old.entries.contains_key((x, y)) ==> #[trigger] c_new.entries[(x, y)]
            == spadd_partial_value(c_old.entries[(x, y)], beta, alpha, a, trans, r, m, x, y)
}

/// What a failed multiplication leaves at position `(x, y)` of `C`, which
/// held `v`, when it stopped at the term `a[r, k] * b[k, m]`: the rows before
/// `r` are done and the rows after it untouched; row `r` has been scaled and
/// has the terms that come before that one, by `k` and then by column.
pub open spec fn spmm_partial_value(
    v: i64,
    beta: i64,
    alpha: i64,
    a: MatrixView,
    b: MatrixView,
    r: int,
    k: int,
    m: int,
    x: int,
    y: int,
) -> i64 {
    if x < r {
        wrap(beta * v + alpha * product_at(a, b, x, y))
    } else if x == r {
        wrap(
            beta * v + alpha * (dot_upto(a, b, r, y, k as nat) + (if y < m {
                a.at(r, k) * b.at(k, y)
            } else {
                0
            })),
        )
    } else {
        v
    }
}

/// `c_new` is what a multiplication leaves that stopped at the term
/// `a[r, k] * b[k, m]`: the first one, by row, then by `k`, then by column,
/// for whose position `(r, m)` `c_old` has no slot.
pub open spec fn is_spmm_partial(
    c_new: MatrixView,
    c_old: MatrixView,
    beta: i64,
    alpha: i64,
    a: MatrixView,
    b: MatrixView,
    r: int,
    k: int,
    m: int,
) -> bool {
    &&& c_new.same_pattern(c_old)
    &&& 0 <= k
    &&& a.entries.contains_key((r, k))
    &&& b.entries.contains_key((k, m))
    &&& !c_old.entries.contains_key((r, m))
    &&& forall|i: int, kk: int, j: int|
        #![trigger a.entries.contains_key((i, kk)), b.entries.contains_key((kk, j))]
        a.entries.contains_key((i, kk)) && b.entries.contains_key((kk, j)) && (i < r || (i == r
            && precedes(kk, j, k, m))) ==> c_old.entries.contains_key((i, j))
    &&& forall|x: int, y: int|
        c_old.entries.contains_key((x, y)) ==> #[trigger] c_new.entries[(x, y)]
            == spmm_partial_value(c_old.entries[(x, y)], beta, alpha, a, b, r, k, m, x, y)
}

/// Columns where `a` reads zero in row `i` add nothing to the sum.
pub proof fn lemma_dot_skips_zeros(a: MatrixView, b: MatrixView, i: int, j: int, lo: nat, hi: nat)
    requires
        lo <= hi,
        forall|k: int| lo <= k < hi ==> a.at(i, k) == 0,
    ensures
        dot_upto(a, b, i, j, hi) == dot_upto(a, b, i, j, lo),
    decreases hi - lo,
{
    if lo < hi {
        lemma_dot_skips_zeros(a, b, i, j, lo, (hi - 1) as nat);
        assert(a.at(i, hi - 1) == 0);
        assert(a.at(i, hi - 1) * b.at(hi - 1, j) == 0) by (nonlinear_arith)
            requires
                a.at(i, hi - 1) == 0,
        ;
    }
}

} // verus!
