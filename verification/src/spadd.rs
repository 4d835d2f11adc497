//! Sparse addition into a fixed pattern: `C <- beta * C + alpha * op(A)`.

use crate::csr::{CsrMatrix, SparseEntryMut};
use crate::error::{OperationError, OperationErrorType};
use crate::model::{
    is_spadd_partial, is_spadd_update, precedes, spadd_dims_compatible, spadd_partial_value,
};
use crate::ops::{scale_slots, Transpose};
use crate::scalar::{
    lemma_add_scaled, lemma_fused_update, lemma_wrap_fits, one, ring_add, ring_mul, wrap,
};
use vstd::prelude::*;

verus! {

/// Whether `e` is the error of an addition that met an entry of `A` for
/// which `C` has no slot.
pub open spec fn is_spadd_unexpected_entry(e: OperationError) -> bool {
    &&& e.spec_error_type() == OperationErrorType::InvalidPattern
    &&& e.spec_message() == "Found entry in `a` that is not present in `c`."@
}

/// The error of an addition that met an entry of `A` for which `C` has no
/// slot.
pub fn spadd_csr_unexpected_entry() -> (e: OperationError)
    ensures
        is_spadd_unexpected_entry(e),
{
    OperationError::from_type_and_message(
        OperationErrorType::InvalidPattern,
        "Found entry in `a` that is not present in `c`.".to_owned(),
    )
}

/// The value in slot `s` of row `x` of `C` while row `i` is being added and
/// the slots of `a` before `p` have been.
pub open spec fn rows_value(
    c0: &CsrMatrix,
    a: &CsrMatrix,
    beta: i64,
    alpha: i64,
    i: int,
    p: int,
    x: int,
    s: int,
) -> i64 {
    let v = c0.vals()[s];
    let y = c0.indices()[s] as int;
    if x < i {
        wrap(beta * v + alpha * a@.at(x, y))
    } else if x == i {
        wrap(beta * v + alpha * a.partial_at(i, p, y))
    } else {
        v
    }
}

/// The value in slot `s` of row `x` of `C` once the rows before `i` have been
/// added.
pub open spec fn rows_done_value(
    c0: &CsrMatrix,
    a: &CsrMatrix,
    beta: i64,
    alpha: i64,
    i: int,
    x: int,
    s: int,
) -> i64 {
    let v = c0.vals()[s];
    let y = c0.indices()[s] as int;
    if x < i {
        wrap(beta * v + alpha * a@.at(x, y))
    } else {
        v
    }
}

/// The value of `a` at `(ai, aj)` as far as the entries before slot `p` of
/// row `i` hold it.
pub open spec fn prefix_at(a: &CsrMatrix, i: int, p: int, ai: int, aj: int) -> int {
    if ai < i {
        a@.at(ai, aj)
    } else if ai == i {
        a.partial_at(i, p, aj)
    } else {
        0
    }
}

/// Every slot of `a` before `p` has its position in `c`, mirrored or not.
pub open spec fn found_before(c: &CsrMatrix, a: &CsrMatrix, trans: bool, p: int) -> bool {
    forall|ai: int, k: int| #[trigger]
        a.in_row(ai, k) && k < p ==> (if trans {
            c.stores(a.indices()[k] as int, ai)
        } else {
            c.stores(ai, a.indices()[k] as int)
        })
}

/// Slot `p` of row `i` of `a` is the first entry without a slot in `c`.
proof fn lemma_first_missing(c0: &CsrMatrix, a: &CsrMatrix, trans: bool, i: int, p: int)
    requires
        c0.wf(),
        a.wf(),
        a.in_row(i, p),
        found_before(c0, a, trans, p),
    ensures
        a@.entries.contains_key((i, a.indices()[p] as int)),
        forall|ai: int, aj: int|
            #[trigger] a@.entries.contains_key((ai, aj)) && precedes(
                ai,
                aj,
                i,
                a.indices()[p] as int,
            ) ==> (if trans {
                c0@.entries.contains_key((aj, ai))
            } else {
                c0@.entries.contains_key((ai, aj))
            }),
{
    a.lemma_view_of_slot(i, p);
    assert forall|ai: int, aj: int|
        #[trigger] a@.entries.contains_key((ai, aj)) && precedes(
            ai,
            aj,
            i,
            a.indices()[p] as int,
        ) implies (if trans {
        c0@.entries.contains_key((aj, ai))
    } else {
        c0@.entries.contains_key((ai, aj))
    }) by {
        let k = a.slot(ai, aj);
        assert(a.has_slot(ai, aj, k));
        if ai < i {
            assert(a.offsets()[ai + 1] <= a.offsets()[i]);
        } else if k >= p {
            if k > p {
                a.lemma_row_ascends(i, p, k);
            }
        }
        assert(a.in_row(ai, k) && k < p);
    }
}

/// Once every slot of `a` is found, the pattern of `c` covers `op(a)`.
proof fn lemma_all_found(c0: &CsrMatrix, a: &CsrMatrix, trans: bool)
    requires
        c0.wf(),
        a.wf(),
        found_before(c0, a, trans, a.vals().len() as int),
    ensures
        c0@.covers(a@.op(trans)),
{
    assert forall|x: int, y: int| #[trigger]
        a@.op(trans).entries.contains_key((x, y)) implies c0@.entries.contains_key((x, y)) by {
        let ai = if trans {
            y
        } else {
            x
        };
        let aj = if trans {
            x
        } else {
            y
        };
        let k = a.slot(ai, aj);
        assert(a.has_slot(ai, aj, k));
        a.lemma_row_range(ai);
        assert(a.in_row(ai, k) && k < a.vals().len());
    }
}

/// The fast path: `C` and `A` hold one pattern, so the values are combined
/// slot by slot.
fn spadd_same_pattern(c: &mut CsrMatrix, beta: i64, alpha: i64, a: &CsrMatrix)
    requires
        old(c).wf(),
        a.wf(),
        old(c).spec_pattern() == a.spec_pattern(),
    ensures
        final(c).wf(),
        final(c).spec_pattern() == old(c).spec_pattern(),
        old(c)@.covers(a@),
        is_spadd_update(final(c)@, old(c)@, beta, alpha, a@),
{
    let ghost c0 = *c;
    let nnz = c.nnz();
    let a_values = a.values();
    let mut k: usize = 0;
    while k < nnz
        invariant
            c0.wf(),
            a.wf(),
            c0.spec_pattern() == a.spec_pattern(),
            c.spec_pattern() == c0.spec_pattern(),
            c.vals().len() == c0.vals().len(),
            a_values@ == a.vals(),
            nnz == c0.vals().len(),
            0 <= k <= nnz,
            forall|s: int|
                0 <= s < nnz ==> #[trigger] c.vals()[s] == (if s < k {
                    wrap(beta * c0.vals()[s] + alpha * a.vals()[s])
                } else {
                    c0.vals()[s]
                }),
        decreases nnz - k,
    {
        let c_k = c.values()[k];
        let a_k = a_values[k];
        proof {
            lemma_wrap_fits(a_k as int);
            lemma_fused_update(beta, c_k, alpha, a_k, a_k as int);
        }
        c.set_value(k, ring_add(ring_mul(beta, c_k), ring_mul(alpha, a_k)));
        k += 1;
    }
    proof {
        let f = |x: int, y: int, v: i64| wrap(beta * v + alpha * a@.at(x, y));
        assert forall|x: int, s: int| #[trigger] c0.in_row(x, s) implies c.vals()[s] == f(
            x,
            c0.indices()[s] as int,
            c0.vals()[s],
        ) by {
            assert(a.in_row(x, s));
            a.lemma_view_of_slot(x, s);
        }
        CsrMatrix::lemma_lift_values(c, &c0, f);
        assert forall|x: int, y: int| #[trigger]
            a@.entries.contains_key((x, y)) implies c0@.entries.contains_key((x, y)) by {
            assert(c0.has_slot(x, y, a.slot(x, y)));
        }
    }
}

/// The general path for an `A` that is read as stored: row by row, `C` is
/// scaled and the entries of the row of `A` are added, each found by a scan
/// of the row of `C` that goes on from where the last one was found.
fn spadd_rows(c: &mut CsrMatrix, beta: i64, alpha: i64, a: &CsrMatrix) -> (r: Result<
    (),
    OperationError,
>)
    requires
        old(c).wf(),
        a.wf(),
        spadd_dims_compatible(old(c)@, a@),
    ensures
        final(c).wf(),
        final(c).spec_pattern() == old(c).spec_pattern(),
        match r {
            Ok(_) => old(c)@.covers(a@) && is_spadd_update(final(c)@, old(c)@, beta, alpha, a@),
            Err(e) => is_spadd_unexpected_entry(e) && exists|r0: int, m0: int|
                is_spadd_partial(final(c)@, old(c)@, beta, alpha, a@, false, r0, m0),
        },
{
    let ghost c0 = *c;
    let nrows = a.nrows();
    let pattern = c.pattern();
    let c_offsets = pattern.major_offsets();
    let c_indices = pattern.minor_indices();
    let a_offsets = a.row_offsets();
    let a_indices = a.col_indices();
    let a_values = a.values();
    let unit = one();
    let mut i: usize = 0;
    while i < nrows
        invariant
            c0.wf(),
            a.wf(),
            c0 == *old(c),
            nrows == a.spec_nrows(),
            nrows == c0.spec_nrows(),
            c.spec_pattern() == c0.spec_pattern(),
            c.vals().len() == c0.vals().len(),
            c_offsets@ == c0.offsets(),
            c_indices@ == c0.indices(),
            a_offsets@ == a.offsets(),
            a_indices@ == a.indices(),
            a_values@ == a.vals(),
            unit == 1,
            0 <= i <= nrows,
            forall|x: int, s: int| #[trigger]
                c0.in_row(x, s) ==> c.vals()[s] == rows_done_value(
                    &c0,
                    a,
                    beta,
                    alpha,
                    i as int,
                    x,
                    s,
                ),
            found_before(&c0, a, false, a_offsets@[i as int] as int),
        decreases nrows - i,
    {
        proof {
            a.lemma_row_range(i as int);
            c0.lemma_row_range(i as int);
        }
        let c_lo = c_offsets[i];
        let c_hi = c_offsets[i + 1];
        let a_lo = a_offsets[i];
        let a_hi = a_offsets[i + 1];
        let ghost unscaled = *c;
        if beta != unit {
            scale_slots(c, beta, c_lo, c_hi);
        }
        proof {
            assert forall|x: int, s: int| #[trigger] c0.in_row(x, s) implies c.vals()[s]
                == rows_value(&c0, a, beta, alpha, i as int, a_lo as int, x, s) by {
                c0.lemma_row_range(x);
                assert(unscaled.vals()[s] == rows_done_value(
                    &c0,
                    a,
                    beta,
                    alpha,
                    i as int,
                    x,
                    s,
                ));
                if x == i {
                    a.lemma_partial_at_ends(i as int, c0.indices()[s] as int);
                    lemma_wrap_fits(c0.vals()[s] as int);
                } else if c_lo <= s < c_hi {
                    c0.lemma_row_unique(x, i as int, s);
                }
            }
        }
        let mut cp: usize = c_lo;
        let mut p: usize = a_lo;
        while p < a_hi
            invariant
                c0.wf(),
                a.wf(),
                c0 == *old(c),
                nrows == a.spec_nrows(),
                nrows == c0.spec_nrows(),
                c.spec_pattern() == c0.spec_pattern(),
                c.vals().len() == c0.vals().len(),
                c_offsets@ == c0.offsets(),
                c_indices@ == c0.indices(),
                a_offsets@ == a.offsets(),
                a_indices@ == a.indices(),
                a_values@ == a.vals(),
                0 <= i < nrows,
                c_lo == c_offsets@[i as int],
                c_hi == c_offsets@[i + 1],
                a_lo == a_offsets@[i as int],
                a_hi == a_offsets@[i + 1],
                c_lo <= cp <= c_hi <= c0.vals().len(),
                a_lo <= p <= a_hi <= a.vals().len(),
                p == a_lo ==> cp == c_lo,
                p > a_lo ==> cp < c_hi && c_indices@[cp as int] == a_indices@[p - 1],
                forall|x: int, s: int| #[trigger]
                    c0.in_row(x, s) ==> c.vals()[s] == rows_value(
                        &c0,
                        a,
                        beta,
                        alpha,
                        i as int,
                        p as int,
                        x,
                        s,
                    ),
                found_before(&c0, a, false, p as int),
            decreases a_hi - p,
        {
            let a_col = a_indices[p];
            let a_val = a_values[p];
            let mut q: usize = cp;
            while q < c_hi && c_indices[q] != a_col
                invariant
                    cp <= q <= c_hi <= c_indices@.len(),
                    forall|s: int| cp <= s < q ==> #[trigger] c_indices@[s] != a_col,
                decreases c_hi - q,
            {
                q += 1;
            }
            if q == c_hi {
                proof {
                    assert forall|k: int| !c0.has_slot(i as int, a_col as int, k) by {
                        if c0.has_slot(i as int, a_col as int, k) {
                            if k < cp {
                                c0.lemma_row_ascends(i as int, k, cp as int);
                                a.lemma_row_ascends(i as int, p - 1, p as int);
                            } else {
                                assert(c_indices@[k] != a_col);
                            }
                        }
                    }
                    lemma_rows_failure(c, &c0, a, beta, alpha, i as int, p as int);
                }
                return Err(spadd_csr_unexpected_entry());
            }
            let c_val = c.values()[q];
            let ghost prev = *c;
            c.set_value(q, ring_add(c_val, ring_mul(alpha, a_val)));
            proof {
                assert(c0.has_slot(i as int, a_col as int, q as int));
                assert(a.in_row(i as int, p as int));
                assert forall|x: int, s: int| #[trigger] c0.in_row(x, s) implies c.vals()[s]
                    == rows_value(&c0, a, beta, alpha, i as int, p + 1, x, s) by {
                    c0.lemma_row_range(x);
                    assert(prev.vals()[s] == rows_value(
                        &c0,
                        a,
                        beta,
                        alpha,
                        i as int,
                        p as int,
                        x,
                        s,
                    ));
                    if s == q {
                        c0.lemma_row_unique(x, i as int, s);
                    }
                    if x == i {
                        let y = c0.indices()[s] as int;
                        a.lemma_partial_at_step(i as int, p as int, y);
                        if s == q {
                            lemma_add_scaled(
                                c_val,
                                beta * c0.vals()[s] + alpha * 0,
                                alpha,
                                a_val,
                            );
                        } else if y == a_col {
                            c0.lemma_slot_unique(i as int, y, s, q as int);
                        }
                    }
                }
                assert(found_before(&c0, a, false, p + 1)) by {
                    assert forall|ai: int, k: int| #[trigger]
                        a.in_row(ai, k) && k < p + 1 implies c0.stores(
                        ai,
                        a.indices()[k] as int,
                    ) by {
                        if k == p {
                            a.lemma_row_unique(ai, i as int, k);
                        }
                    }
                }
            }
            cp = q;
            p += 1;
        }
        proof {
            assert forall|x: int, s: int| #[trigger] c0.in_row(x, s) implies c.vals()[s]
                == rows_done_value(&c0, a, beta, alpha, i + 1, x, s) by {
                assert(c.vals()[s] == rows_value(&c0, a, beta, alpha, i as int, a_hi as int, x, s));
                if x == i {
                    a.lemma_partial_at_ends(i as int, c0.indices()[s] as int);
                }
            }
        }
        i += 1;
    }
    proof {
        let f = |x: int, y: int, v: i64| wrap(beta * v + alpha * a@.at(x, y));
        assert forall|x: int, s: int| #[trigger] c0.in_row(x, s) implies c.vals()[s] == f(
            x,
            c0.indices()[s] as int,
            c0.vals()[s],
        ) by {
            assert(c.vals()[s] == rows_done_value(&c0, a, beta, alpha, nrows as int, x, s));
        }
        CsrMatrix::lemma_lift_values(c, &c0, f);
        lemma_all_found(&c0, a, false);
    }
    Ok(())
}

/// What the row-by-row addition leaves when slot `p` of row `i` of `a` has
/// no slot in `c`.
proof fn lemma_rows_failure(
    c: &CsrMatrix,
    c0: &CsrMatrix,
    a: &CsrMatrix,
    beta: i64,
    alpha: i64,
    i: int,
    p: int,
)
    requires
        c0.wf(),
        a.wf(),
        a.in_row(i, p),
        c.spec_pattern() == c0.spec_pattern(),
        c.vals().len() == c0.vals().len(),
        !c0.stores(i, a.indices()[p] as int),
        found_before(c0, a, false, p),
        forall|x: int, s: int| #[trigger]
            c0.in_row(x, s) ==> c.vals()[s] == rows_value(c0, a, beta, alpha, i, p, x, s),
    ensures
        c.wf(),
        is_spadd_partial(c@, c0@, beta, alpha, a@, false, i, a.indices()[p] as int),
{
    let m = a.indices()[p] as int;
    let f = |x: int, y: int, v: i64| spadd_partial_value(v, beta, alpha, a@, false, i, m, x, y);
    assert forall|x: int, s: int| #[trigger] c0.in_row(x, s) implies c.vals()[s] == f(
        x,
        c0.indices()[s] as int,
        c0.vals()[s],
    ) by {
        assert(c.vals()[s] == rows_value(c0, a, beta, alpha, i, p, x, s));
        if x == i {
            a.lemma_partial_at_below(i, p, c0.indices()[s] as int);
        }
    }
    CsrMatrix::lemma_lift_values(c, c0, f);
    lemma_first_missing(c0, a, false, i, p);
}

/// The general path for an `A` that is read transposed: all of `C` is
/// scaled, then each entry of `A` is added at its mirrored position, which is
/// looked up by row and column.
fn spadd_transposed(c: &mut CsrMatrix, beta: i64, alpha: i64, a: &CsrMatrix) -> (r: Result<
    (),
    OperationError,
>)
    requires
        old(c).wf(),
        a.wf(),
        spadd_dims_compatible(old(c)@, a@.transpose()),
    ensures
        final(c).wf(),
        final(c).spec_pattern() == old(c).spec_pattern(),
        match r {
            Ok(_) => old(c)@.covers(a@.transpose()) && is_spadd_update(
                final(c)@,
                old(c)@,
                beta,
                alpha,
                a@.transpose(),
            ),
            Err(e) => is_spadd_unexpected_entry(e) && exists|r0: int, m0: int|
                is_spadd_partial(final(c)@, old(c)@, beta, alpha, a@, true, r0, m0),
        },
{
    let ghost c0 = *c;
    let nrows = a.nrows();
    let a_offsets = a.row_offsets();
    let a_indices = a.col_indices();
    let a_values = a.values();
    let unit = one();
    if beta != unit {
        let nnz = c.nnz();
        scale_slots(c, beta, 0, nnz);
    }
    proof {
        assert forall|x: int, s: int| #[trigger] c0.in_row(x, s) implies c.vals()[s] == wrap(
            beta * c0.vals()[s] + alpha * prefix_at(a, 0, 0, c0.indices()[s] as int, x),
        ) by {
            c0.lemma_view_of_slot(x, s);
            lemma_wrap_fits(c0.vals()[s] as int);
        }
    }
    let mut i: usize = 0;
    while i < nrows
        invariant
            c0.wf(),
            a.wf(),
            c0 == *old(c),
            nrows == a.spec_nrows(),
            a.spec_nrows() == c0.spec_ncols(),
            a.spec_ncols() == c0.spec_nrows(),
            c.spec_pattern() == c0.spec_pattern(),
            c.vals().len() == c0.vals().len(),
            a_offsets@ == a.offsets(),
            a_indices@ == a.indices(),
            a_values@ == a.vals(),
            0 <= i <= nrows,
            forall|x: int, s: int| #[trigger]
                c0.in_row(x, s) ==> c.vals()[s] == wrap(
                    beta * c0.vals()[s] + alpha * prefix_at(
                        a,
                        i as int,
                        a_offsets@[i as int] as int,
                        c0.indices()[s] as int,
                        x,
                    ),
                ),
            found_before(&c0, a, true, a_offsets@[i as int] as int),
        decreases nrows - i,
    {
        proof {
            a.lemma_row_range(i as int);
        }
        let a_lo = a_offsets[i];
        let a_hi = a_offsets[i + 1];
        let mut p: usize = a_lo;
        while p < a_hi
            invariant
                c0.wf(),
                a.wf(),
                c0 == *old(c),
                nrows == a.spec_nrows(),
                a.spec_nrows() == c0.spec_ncols(),
                a.spec_ncols() == c0.spec_nrows(),
                c.spec_pattern() == c0.spec_pattern(),
                c.vals().len() == c0.vals().len(),
                a_offsets@ == a.offsets(),
                a_indices@ == a.indices(),
                a_values@ == a.vals(),
                0 <= i < nrows,
                a_lo == a_offsets@[i as int],
                a_hi == a_offsets@[i + 1],
                a_lo <= p <= a_hi <= a.vals().len(),
                forall|x: int, s: int| #[trigger]
                    c0.in_row(x, s) ==> c.vals()[s] == wrap(
                        beta * c0.vals()[s] + alpha * prefix_at(
                            a,
                            i as int,
                            p as int,
                            c0.indices()[s] as int,
                            x,
                        ),
                    ),
                found_before(&c0, a, true, p as int),
            decreases a_hi - p,
        {
            proof {
                a.lemma_view_of_slot(i as int, p as int);
            }
            let j = a_indices[p];
            let a_val = a_values[p];
            let ghost prev = *c;
            match c.index_entry_mut(j, i) {
                SparseEntryMut::NonZero(c_ji) => {
                    let c_val = *c_ji;
                    *c_ji = ring_add(c_val, ring_mul(alpha, a_val));
                },
                SparseEntryMut::Zero => {
                    proof {
                        c0.lemma_same_pattern_slots(&prev, j as int, i as int);
                        lemma_transposed_failure(c, &c0, a, beta, alpha, i as int, p as int);
                    }
                    return Err(spadd_csr_unexpected_entry());
                },
            }
            proof {
                let q = c0.slot(j as int, i as int);
                c0.lemma_same_pattern_slots(&prev, j as int, i as int);
                assert forall|x: int, s: int| #[trigger] c0.in_row(x, s) implies c.vals()[s]
                    == wrap(
                    beta * c0.vals()[s] + alpha * prefix_at(
                        a,
                        i as int,
                        p + 1,
                        c0.indices()[s] as int,
                        x,
                    ),
                ) by {
                    c0.lemma_row_range(x);
                    let y = c0.indices()[s] as int;
                    assert(prev.vals()[s] == wrap(
                        beta * c0.vals()[s] + alpha * prefix_at(a, i as int, p as int, y, x),
                    ));
                    if s == q {
                        c0.lemma_row_unique(x, j as int, s);
                    }
                    if y == i {
                        a.lemma_partial_at_step(i as int, p as int, x);
                        if s == q {
                            lemma_add_scaled(
                                prev.vals()[s],
                                beta * c0.vals()[s] + alpha * 0,
                                alpha,
                                a_val,
                            );
                        } else if x == j {
                            c0.lemma_slot_unique(j as int, i as int, s, q);
                        }
                    }
                }
                assert(found_before(&c0, a, true, p + 1)) by {
                    assert forall|ai: int, k: int| #[trigger]
                        a.in_row(ai, k) && k < p + 1 implies c0.stores(
                        a.indices()[k] as int,
                        ai,
                    ) by {
                        if k == p {
                            a.lemma_row_unique(ai, i as int, k);
                        }
                    }
                }
            }
            p += 1;
        }
        proof {
            assert forall|x: int, s: int| #[trigger] c0.in_row(x, s) implies c.vals()[s] == wrap(
                beta * c0.vals()[s] + alpha * prefix_at(
                    a,
                    i + 1,
                    a_hi as int,
                    c0.indices()[s] as int,
                    x,
                ),
            ) by {
                let y = c0.indices()[s] as int;
                assert(c.vals()[s] == wrap(
                    beta * c0.vals()[s] + alpha * prefix_at(a, i as int, a_hi as int, y, x),
                ));
                if y == i {
                    a.lemma_partial_at_ends(i as int, x);
                } else if y == i + 1 && i + 1 < nrows {
                    a.lemma_partial_at_ends(i + 1, x);
                }
            }
        }
        i += 1;
    }
    proof {
        let at = a@.transpose();
        let f = |x: int, y: int, v: i64| wrap(beta * v + alpha * at.at(x, y));
        assert forall|x: int, s: int| #[trigger] c0.in_row(x, s) implies c.vals()[s] == f(
            x,
            c0.indices()[s] as int,
            c0.vals()[s],
        ) by {
            c0.lemma_view_of_slot(x, s);
            let y = c0.indices()[s] as int;
            assert(c.vals()[s] == wrap(
                beta * c0.vals()[s] + alpha * prefix_at(
                    a,
                    nrows as int,
                    a_offsets@[nrows as int] as int,
                    y,
                    x,
                ),
            ));
        }
        CsrMatrix::lemma_lift_values(c, &c0, f);
        lemma_all_found(&c0, a, true);
    }
    Ok(())
}

/// What the mirrored addition leaves when slot `p` of row `i` of `a` has no
/// slot in `c`.
proof fn lemma_transposed_failure(
    c: &CsrMatrix,
    c0: &CsrMatrix,
    a: &CsrMatrix,
    beta: i64,
    alpha: i64,
    i: int,
    p: int,
)
    requires
        c0.wf(),
        a.wf(),
        a.in_row(i, p),
        c.spec_pattern() == c0.spec_pattern(),
        c.vals().len() == c0.vals().len(),
        !c0.stores(a.indices()[p] as int, i),
        found_before(c0, a, true, p),
        forall|x: int, s: int| #[trigger]
            c0.in_row(x, s) ==> c.vals()[s] == wrap(
                beta * c0.vals()[s] + alpha * prefix_at(a, i, p, c0.indices()[s] as int, x),
            ),
    ensures
        c.wf(),
        is_spadd_partial(c@, c0@, beta, alpha, a@, true, i, a.indices()[p] as int),
{
    let m = a.indices()[p] as int;
    let f = |x: int, y: int, v: i64| spadd_partial_value(v, beta, alpha, a@, true, i, m, x, y);
    assert forall|x: int, s: int| #[trigger] c0.in_row(x, s) implies c.vals()[s] == f(
        x,
        c0.indices()[s] as int,
        c0.vals()[s],
    ) by {
        let y = c0.indices()[s] as int;
        assert(c.vals()[s] == wrap(beta * c0.vals()[s] + alpha * prefix_at(a, i, p, y, x)));
        if y == i {
            a.lemma_partial_at_below(i, p, x);
        }
    }
    CsrMatrix::lemma_lift_values(c, c0, f);
    lemma_first_missing(c0, a, true, i, p);
}

/// Sparse matrix addition `C <- beta * C + alpha * op(A)`.
///
/// The pattern of `C` is never changed. Where it lacks a position that
/// `op(A)` holds, the error is returned and `C` is left as far as the
/// addition had come.
///
/// Where `A` is read as stored and holds the very pattern object of `C`, the
/// values are combined slot by slot, without a search. A transposed `A` is
/// always looked up position by position, since a shared pattern need not be
/// symmetric.
pub fn spadd_csr(
    c: &mut CsrMatrix,
    beta: i64,
    alpha: i64,
    trans_a: Transpose,
    a: &CsrMatrix,
) -> (r: Result<(), OperationError>)
    requires
        old(c).wf(),
        a.wf(),
        spadd_dims_compatible(old(c)@, a@.op(trans_a.0)),
    ensures
        final(c).wf(),
        final(c).spec_pattern() == old(c).spec_pattern(),
        r.is_ok() <==> old(c)@.covers(a@.op(trans_a.0)),
        match r {
            Ok(_) => is_spadd_update(final(c)@, old(c)@, beta, alpha, a@.op(trans_a.0)),
            Err(e) => is_spadd_unexpected_entry(e) && exists|r0: int, m0: int|
                is_spadd_partial(final(c)@, old(c)@, beta, alpha, a@, trans_a.0, r0, m0),
        },
{
    if trans_a.to_bool() {
        let r = spadd_transposed(c, beta, alpha, a);
        proof {
            if r.is_err() {
                let (r0, m0) = choose|r0: int, m0: int|
                    is_spadd_partial(c@, old(c)@, beta, alpha, a@, true, r0, m0);
                assert(a@.transpose().entries.contains_key((m0, r0)));
            }
        }
        r
    } else if c.shares_pattern_with(a) {
        spadd_same_pattern(c, beta, alpha, a);
        Ok(())
    } else {
        let r = spadd_rows(c, beta, alpha, a);
        proof {
            if r.is_err() {
                let (r0, m0) = choose|r0: int, m0: int|
                    is_spadd_partial(c@, old(c)@, beta, alpha, a@, false, r0, m0);
                assert(a@.entries.contains_key((r0, m0)));
            }
        }
        r
    }
}

} // verus!
