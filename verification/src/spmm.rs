//! Sparse times sparse into a fixed pattern:
//! `C <- beta * C + alpha * op(A) * op(B)`.

use crate::csr::CsrMatrix;
use crate::error::{OperationError, OperationErrorType};
use crate::model::{
    covers_product, is_spmm_partial, is_spmm_update, product_at, spmm_dims_compatible,
    spmm_partial_value,
};
use crate::ops::{scale_slots, Transpose};
use crate::scalar::{lemma_add_product, ring_add, ring_mul, wrap};
use std::borrow::Cow;
use vstd::prelude::*;

verus! {

/// Whether `e` is the error of a multiplication that computed an entry for
/// which `C` has no slot.
pub open spec fn is_spmm_unexpected_entry(e: OperationError) -> bool {
    &&& e.spec_error_type() == OperationErrorType::InvalidPattern
    &&& e.spec_message() == "Found unexpected entry that is not present in `c`."@
}

/// The error of a multiplication that computed an entry for which `C` has no
/// slot.
pub fn spmm_csr_unexpected_entry() -> (e: OperationError)
    ensures
        is_spmm_unexpected_entry(e),
{
    OperationError::from_type_and_message(
        OperationErrorType::InvalidPattern,
        "Found unexpected entry that is not present in `c`.".to_owned(),
    )
}

/// The value in slot `s` of row `x` of `C` once the rows before `i` are done.
pub open spec fn done_value(
    c0: &CsrMatrix,
    a: &CsrMatrix,
    b: &CsrMatrix,
    beta: i64,
    alpha: i64,
    i: int,
    x: int,
    s: int,
) -> i64 {
    let v = c0.vals()[s];
    let y = c0.indices()[s] as int;
    if x < i {
        wrap(beta * v + alpha * product_at(a@, b@, x, y))
    } else {
        v
    }
}

/// The value in slot `s` of row `x` of `C` while row `i` is computed and the
/// slots of `a` before `p` have been multiplied in.
pub open spec fn row_value(
    c0: &CsrMatrix,
    a: &CsrMatrix,
    b: &CsrMatrix,
    beta: i64,
    alpha: i64,
    i: int,
    p: int,
    x: int,
    s: int,
) -> i64 {
    let v = c0.vals()[s];
    let y = c0.indices()[s] as int;
    if x < i {
        wrap(beta * v + alpha * product_at(a@, b@, x, y))
    } else if x == i {
        wrap(beta * v + alpha * a.row_dot(b@, y, a.offsets()[i] as int, p))
    } else {
        v
    }
}

/// The value in slot `s` of row `x` of `C` while slot `p` of `a` is
/// multiplied in and the slots before `q` of its row of `b` have been.
pub open spec fn term_value(
    c0: &CsrMatrix,
    a: &CsrMatrix,
    b: &CsrMatrix,
    beta: i64,
    alpha: i64,
    i: int,
    p: int,
    q: int,
    x: int,
    s: int,
) -> i64 {
    let v = c0.vals()[s];
    let y = c0.indices()[s] as int;
    if x < i {
        wrap(beta * v + alpha * product_at(a@, b@, x, y))
    } else if x == i {
        wrap(
            beta * v + alpha * (a.row_dot(b@, y, a.offsets()[i] as int, p) + a.vals()[p]
                * b.partial_at(a.indices()[p] as int, q, y)),
        )
    } else {
        v
    }
}

/// Every term `a[slot pa] * b[slot qb]` that comes before the term of the
/// slots `p` and `q` has its position in `c0`.
pub open spec fn terms_found(c0: &CsrMatrix, a: &CsrMatrix, b: &CsrMatrix, p: int, q: int) -> bool {
    forall|ai: int, pa: int, qb: int|
        #![trigger a.in_row(ai, pa), b.in_row(a.indices()[pa] as int, qb)]
        a.in_row(ai, pa) && b.in_row(a.indices()[pa] as int, qb) && (pa < p || (pa == p && qb
            < q)) ==> c0.stores(ai, b.indices()[qb] as int)
}

/// Once every term is found, the pattern of `c0` covers the product.
proof fn lemma_all_terms_found(c0: &CsrMatrix, a: &CsrMatrix, b: &CsrMatrix)
    requires
        c0.wf(),
        a.wf(),
        b.wf(),
        terms_found(c0, a, b, a.vals().len() as int, 0),
    ensures
        covers_product(c0@, a@, b@),
{
    assert forall|i: int, k: int, j: int|
        #![trigger a@.entries.contains_key((i, k)), b@.entries.contains_key((k, j))]
        a@.entries.contains_key((i, k)) && b@.entries.contains_key((k, j))
            implies c0@.entries.contains_key((i, j)) by {
        let pa = a.slot(i, k);
        let qb = b.slot(k, j);
        assert(a.has_slot(i, k, pa));
        assert(b.has_slot(k, j, qb));
        a.lemma_row_range(i);
        assert(a.in_row(i, pa) && b.in_row(a.indices()[pa] as int, qb));
    }
}

/// What the multiplication leaves when the term of slot `p` of row `i` of
/// `a` and slot `q` of `b` has no slot in `c0`.
proof fn lemma_rows_failure(
    c: &CsrMatrix,
    c0: &CsrMatrix,
    a: &CsrMatrix,
    b: &CsrMatrix,
    beta: i64,
    alpha: i64,
    i: int,
    p: int,
    q: int,
)
    requires
        c0.wf(),
        a.wf(),
        b.wf(),
        a.in_row(i, p),
        b.in_row(a.indices()[p] as int, q),
        c.spec_pattern() == c0.spec_pattern(),
        c.vals().len() == c0.vals().len(),
        !c0.stores(i, b.indices()[q] as int),
        terms_found(c0, a, b, p, q),
        forall|x: int, s: int| #[trigger]
            c0.in_row(x, s) ==> c.vals()[s] == term_value(c0, a, b, beta, alpha, i, p, q, x, s),
    ensures
        c.wf(),
        is_spmm_partial(
            c@,
            c0@,
            beta,
            alpha,
            a@,
            b@,
            i,
            a.indices()[p] as int,
            b.indices()[q] as int,
        ),
{
    let k = a.indices()[p] as int;
    let m = b.indices()[q] as int;
    a.lemma_view_of_slot(i, p);
    b.lemma_view_of_slot(k, q);
    let f = |x: int, y: int, v: i64| spmm_partial_value(v, beta, alpha, a@, b@, i, k, m, x, y);
    assert forall|x: int, s: int| #[trigger] c0.in_row(x, s) implies c.vals()[s] == f(
        x,
        c0.indices()[s] as int,
        c0.vals()[s],
    ) by {
        let y = c0.indices()[s] as int;
        assert(c.vals()[s] == term_value(c0, a, b, beta, alpha, i, p, q, x, s));
        if x == i {
            a.lemma_row_dot_prefix(b@, i, y, p);
            b.lemma_partial_at_below(k, q, y);
            if y >= m {
                assert(a.vals()[p] * b.partial_at(k, q, y) == 0) by (nonlinear_arith)
                    requires
                        b.partial_at(k, q, y) == 0,
                ;
            }
        }
    }
    CsrMatrix::lemma_lift_values(c, c0, f);
    assert forall|x: int, kk: int, y: int|
        #![trigger a@.entries.contains_key((x, kk)), b@.entries.contains_key((kk, y))]
        a@.entries.contains_key((x, kk)) && b@.entries.contains_key((kk, y)) && (x < i || (x == i
            && crate::model::precedes(kk, y, k, m))) implies c0@.entries.contains_key((x, y)) by {
        let pa = a.slot(x, kk);
        let qb = b.slot(kk, y);
        assert(a.has_slot(x, kk, pa));
        assert(b.has_slot(kk, y, qb));
        if x < i {
            assert(a.offsets()[x + 1] <= a.offsets()[i]);
        } else {
            if pa > p {
                a.lemma_row_ascends(i, p, pa);
            }
            if pa == p && qb > q {
                b.lemma_row_ascends(k, q, qb);
            }
        }
        assert(a.in_row(x, pa) && b.in_row(a.indices()[pa] as int, qb));
    }
}

/// The kernel for operands that are read as stored: row `i` of `C` is scaled,
/// then for each entry `a[i, k]` the multiple `alpha * a[i, k]` of row `k` of
/// `B` is added to it, each position found by a scan of the row of `C` that
/// goes on from where the last one was found.
fn spmm_rows(c: &mut CsrMatrix, beta: i64, alpha: i64, a: &CsrMatrix, b: &CsrMatrix) -> (r:
    Result<(), OperationError>)
    requires
        old(c).wf(),
        a.wf(),
        b.wf(),
        spmm_dims_compatible(old(c)@, a@, b@),
    ensures
        final(c).wf(),
        final(c).spec_pattern() == old(c).spec_pattern(),
        match r {
            Ok(_) => covers_product(old(c)@, a@, b@) && is_spmm_update(
                final(c)@,
                old(c)@,
                beta,
                alpha,
                a@,
                b@,
            ),
            Err(e) => is_spmm_unexpected_entry(e) && exists|r0: int, k0: int, m0: int|
                is_spmm_partial(final(c)@, old(c)@, beta, alpha, a@, b@, r0, k0, m0),
        },
{
    let ghost c0 = *c;
    let nrows = a.nrows();
    let pattern = c.pattern();
    let c_offsets = pattern.major_offsets();
    let c_indices = pattern.minor_indices();
    let a_offsets = a.row_offsets();
    let a_indices = a.col_indices();
    let a_values = a.values();
    let b_offsets = b.row_offsets();
    let b_indices = b.col_indices();
    let b_values = b.values();
    let mut i: usize = 0;
    while i < nrows
        invariant
            c0.wf(),
            a.wf(),
            b.wf(),
            c0 == *old(c),
            nrows == a.spec_nrows(),
            nrows == c0.spec_nrows(),
            a.spec_ncols() == b.spec_nrows(),
            c.spec_pattern() == c0.spec_pattern(),
            c.vals().len() == c0.vals().len(),
            c_offsets@ == c0.offsets(),
            c_indices@ == c0.indices(),
            a_offsets@ == a.offsets(),
            a_indices@ == a.indices(),
            a_values@ == a.vals(),
            b_offsets@ == b.offsets(),
            b_indices@ == b.indices(),
            b_values@ == b.vals(),
            0 <= i <= nrows,
            forall|x: int, s: int| #[trigger]
                c0.in_row(x, s) ==> c.vals()[s] == done_value(&c0, a, b, beta, alpha, i as int, x, s),
            terms_found(&c0, a, b, a_offsets@[i as int] as int, 0),
        decreases nrows - i,
    {
        proof {
            a.lemma_row_range(i as int);
            c0.lemma_row_range(i as int);
        }
        let c_lo = c_offsets[i];
        let c_hi = c_offsets[i + 1];
        let a_lo = a_offsets[i];
        let a_hi = a_offsets[i + 1];
        let ghost unscaled = *c;
        scale_slots(c, beta, c_lo, c_hi);
        proof {
            assert forall|x: int, s: int| #[trigger] c0.in_row(x, s) implies c.vals()[s]
                == row_value(&c0, a, b, beta, alpha, i as int, a_lo as int, x, s) by {
                c0.lemma_row_range(x);
                assert(unscaled.vals()[s] == done_value(&c0, a, b, beta, alpha, i as int, x, s));
                if x != i && c_lo <= s < c_hi {
                    c0.lemma_row_unique(x, i as int, s);
                }
            }
        }
        let mut p: usize = a_lo;
        while p < a_hi
            invariant
                c0.wf(),
                a.wf(),
                b.wf(),
                c0 == *old(c),
                nrows == a.spec_nrows(),
                nrows == c0.spec_nrows(),
                a.spec_ncols() == b.spec_nrows(),
                c.spec_pattern() == c0.spec_pattern(),
                c.vals().len() == c0.vals().len(),
                c_offsets@ == c0.offsets(),
                c_indices@ == c0.indices(),
                a_offsets@ == a.offsets(),
                a_indices@ == a.indices(),
                a_values@ == a.vals(),
                b_offsets@ == b.offsets(),
                b_indices@ == b.indices(),
                b_values@ == b.vals(),
                0 <= i < nrows,
                c_lo == c_offsets@[i as int],
                c_hi == c_offsets@[i + 1],
                a_lo == a_offsets@[i as int],
                a_hi == a_offsets@[i + 1],
                c_lo <= c_hi <= c0.vals().len(),
                a_lo <= p <= a_hi <= a.vals().len(),
                forall|x: int, s: int| #[trigger]
                    c0.in_row(x, s) ==> c.vals()[s] == row_value(
                        &c0,
                        a,
                        b,
                        beta,
                        alpha,
                        i as int,
                        p as int,
                        x,
                        s,
                    ),
                terms_found(&c0, a, b, p as int, 0),
            decreases a_hi - p,
        {
            proof {
                a.lemma_view_of_slot(i as int, p as int);
            }
            let k = a_indices[p];
            let a_ik = a_values[p];
            let alpha_aik = ring_mul(alpha, a_ik);
            proof {
                b.lemma_row_range(k as int);
            }
            let b_lo = b_offsets[k];
            let b_hi = b_offsets[k + 1];
            proof {
                assert forall|x: int, s: int| #[trigger] c0.in_row(x, s) implies c.vals()[s]
                    == term_value(&c0, a, b, beta, alpha, i as int, p as int, b_lo as int, x, s) by {
                    assert(c.vals()[s] == row_value(
                        &c0,
                        a,
                        b,
                        beta,
                        alpha,
                        i as int,
                        p as int,
                        x,
                        s,
                    ));
                    if x == i {
                        let y = c0.indices()[s] as int;
                        b.lemma_partial_at_ends(k as int, y);
                        assert(a.vals()[p as int] * b.partial_at(k as int, b_lo as int, y) == 0)
                            by (nonlinear_arith)
                            requires
                                b.partial_at(k as int, b_lo as int, y) == 0,
                        ;
                    }
                }
                assert(terms_found(&c0, a, b, p as int, b_lo as int));
            }
            let mut cp: usize = c_lo;
            let mut q: usize = b_lo;
            while q < b_hi
                invariant
                    c0.wf(),
                    a.wf(),
                    b.wf(),
                    c0 == *old(c),
                    nrows == c0.spec_nrows(),
                    c.spec_pattern() == c0.spec_pattern(),
                    c.vals().len() == c0.vals().len(),
                    c_offsets@ == c0.offsets(),
                    c_indices@ == c0.indices(),
                    b_indices@ == b.indices(),
                    b_values@ == b.vals(),
                    0 <= i < nrows,
                    a.in_row(i as int, p as int),
                    k == a.indices()[p as int],
                    a_ik == a.vals()[p as int],
                    alpha_aik == wrap(alpha * a_ik),
                    k < b.spec_nrows(),
                    c_lo == c_offsets@[i as int],
                    c_hi == c_offsets@[i + 1],
                    b_lo == b.offsets()[k as int],
                    b_hi == b.offsets()[k + 1],
                    c_lo <= cp <= c_hi <= c0.vals().len(),
                    b_lo <= q <= b_hi <= b.vals().len(),
                    q == b_lo ==> cp == c_lo,
                    q > b_lo ==> cp < c_hi && c_indices@[cp as int] == b_indices@[q - 1],
                    forall|x: int, s: int| #[trigger]
                        c0.in_row(x, s) ==> c.vals()[s] == term_value(
                            &c0,
                            a,
                            b,
                            beta,
                            alpha,
                            i as int,
                            p as int,
                            q as int,
                            x,
                            s,
                        ),
                    terms_found(&c0, a, b, p as int, q as int),
                decreases b_hi - q,
            {
                let j = b_indices[q];
                let b_kj = b_values[q];
                let mut t: usize = cp;
                while t < c_hi && c_indices[t] != j
                    invariant
                        cp <= t <= c_hi <= c_indices@.len(),
                        forall|s: int| cp <= s < t ==> #[trigger] c_indices@[s] != j,
                    decreases c_hi - t,
                {
                    t += 1;
                }
                if t == c_hi {
                    proof {
                        assert forall|s: int| !c0.has_slot(i as int, j as int, s) by {
                            if c0.has_slot(i as int, j as int, s) {
                                if s < cp {
                                    c0.lemma_row_ascends(i as int, s, cp as int);
                                    b.lemma_row_ascends(k as int, q - 1, q as int);
                                } else {
                                    assert(c_indices@[s] != j);
                                }
                            }
                        }
                        lemma_rows_failure(c, &c0, a, b, beta, alpha, i as int, p as int, q as int);
                    }
                    return Err(spmm_csr_unexpected_entry());
                }
                let c_val = c.values()[t];
                let ghost prev = *c;
                c.set_value(t, ring_add(c_val, ring_mul(alpha_aik, b_kj)));
                proof {
                    assert(c0.has_slot(i as int, j as int, t as int));
                    assert(b.in_row(k as int, q as int));
                    assert forall|x: int, s: int| #[trigger] c0.in_row(x, s) implies c.vals()[s]
                        == term_value(&c0, a, b, beta, alpha, i as int, p as int, q + 1, x, s) by {
                        c0.lemma_row_range(x);
                        assert(prev.vals()[s] == term_value(
                            &c0,
                            a,
                            b,
                            beta,
                            alpha,
                            i as int,
                            p as int,
                            q as int,
                            x,
                            s,
                        ));
                        if s == t {
                            c0.lemma_row_unique(x, i as int, s);
                        }
                        if x == i {
                            let y = c0.indices()[s] as int;
                            b.lemma_partial_at_step(k as int, q as int, y);
                            if s == t {
                                let d = a.row_dot(b@, y, a.offsets()[i as int] as int, p as int);
                                assert(a_ik * b.partial_at(k as int, q as int, y) == 0)
                                    by (nonlinear_arith)
                                    requires
                                        b.partial_at(k as int, q as int, y) == 0,
                                ;
                                lemma_add_product(
                                    c_val,
                                    beta,
                                    c0.vals()[s],
                                    alpha,
                                    d,
                                    a_ik,
                                    b_kj,
                                    alpha_aik,
                                );
                            } else if y == j {
                                c0.lemma_slot_unique(i as int, y, s, t as int);
                            }
                        }
                    }
                    assert(terms_found(&c0, a, b, p as int, q + 1)) by {
                        assert forall|ai: int, pa: int, qb: int|
                            #![trigger a.in_row(ai, pa), b.in_row(a.indices()[pa] as int, qb)]
                            a.in_row(ai, pa) && b.in_row(a.indices()[pa] as int, qb) && (pa < p
                                || (pa == p && qb < q + 1)) implies c0.stores(
                            ai,
                            b.indices()[qb] as int,
                        ) by {
                            if pa == p && qb == q {
                                a.lemma_row_unique(ai, i as int, pa);
                            }
                        }
                    }
                }
                cp = t;
                q += 1;
            }
            proof {
                assert forall|x: int, s: int| #[trigger] c0.in_row(x, s) implies c.vals()[s]
                    == row_value(&c0, a, b, beta, alpha, i as int, p + 1, x, s) by {
                    assert(c.vals()[s] == term_value(
                        &c0,
                        a,
                        b,
                        beta,
                        alpha,
                        i as int,
                        p as int,
                        b_hi as int,
                        x,
                        s,
                    ));
                    if x == i {
                        b.lemma_partial_at_ends(k as int, c0.indices()[s] as int);
                    }
                }
                assert(terms_found(&c0, a, b, p + 1, 0));
            }
            p += 1;
        }
        proof {
            assert forall|x: int, s: int| #[trigger] c0.in_row(x, s) implies c.vals()[s]
                == done_value(&c0, a, b, beta, alpha, i + 1, x, s) by {
                assert(c.vals()[s] == row_value(
                    &c0,
                    a,
                    b,
                    beta,
                    alpha,
                    i as int,
                    a_hi as int,
                    x,
                    s,
                ));
                if x == i {
                    a.lemma_row_dot_is_product(b@, i as int, c0.indices()[s] as int);
                }
            }
        }
        i += 1;
    }
    proof {
        let f = |x: int, y: int, v: i64| wrap(beta * v + alpha * product_at(a@, b@, x, y));
        assert forall|x: int, s: int| #[trigger] c0.in_row(x, s) implies c.vals()[s] == f(
            x,
            c0.indices()[s] as int,
            c0.vals()[s],
        ) by {
            assert(c.vals()[s] == done_value(&c0, a, b, beta, alpha, nrows as int, x, s));
        }
        CsrMatrix::lemma_lift_values(c, &c0, f);
        lemma_all_terms_found(&c0, a, b);
    }
    Ok(())
}

/// The matrix that a borrowed-or-owned operand stands for.
fn operand<'a>(m: &'a Cow<'_, CsrMatrix>) -> (r: &'a CsrMatrix)
    ensures
        *r == (match *m {
            Cow::Borrowed(x) => *x,
            Cow::Owned(x) => x,
        }),
{
    match m {
        Cow::Borrowed(x) => x,
        Cow::Owned(x) => x,
    }
}

/// Sparse-sparse matrix multiplication,
/// `C <- beta * C + alpha * op(A) * op(B)`.
///
/// The pattern of `C` is never changed. Where it lacks a position at which
/// the product has a term, the error is returned and `C` is left as far as
/// the multiplication had come. An operand that is to be read transposed is
/// transposed into a copy first.
pub fn spmm_csr(
    c: &mut CsrMatrix,
    beta: i64,
    alpha: i64,
    trans_a: Transpose,
    a: &CsrMatrix,
    trans_b: Transpose,
    b: &CsrMatrix,
) -> (r: Result<(), OperationError>)
    requires
        old(c).wf(),
        a.wf(),
        b.wf(),
        spmm_dims_compatible(old(c)@, a@.op(trans_a.0), b@.op(trans_b.0)),
    ensures
        final(c).wf(),
        final(c).spec_pattern() == old(c).spec_pattern(),
        r.is_ok() <==> covers_product(old(c)@, a@.op(trans_a.0), b@.op(trans_b.0)),
        match r {
            Ok(_) => is_spmm_update(
                final(c)@,
                old(c)@,
                beta,
                alpha,
                a@.op(trans_a.0),
                b@.op(trans_b.0),
            ),
            Err(e) => is_spmm_unexpected_entry(e) && exists|r0: int, k0: int, m0: int|
                is_spmm_partial(
                    final(c)@,
                    old(c)@,
                    beta,
                    alpha,
                    a@.op(trans_a.0),
                    b@.op(trans_b.0),
                    r0,
                    k0,
                    m0,
                ),
        },
    decreases
            (if trans_a.0 || trans_b.0 {
                1nat
            } else {
                0nat
            }),
{
    if !trans_a.to_bool() && !trans_b.to_bool() {
        let r = spmm_rows(c, beta, alpha, a, b);
        proof {
            if r.is_err() {
                let (r0, k0, m0) = choose|r0: int, k0: int, m0: int|
                    is_spmm_partial(c@, old(c)@, beta, alpha, a@, b@, r0, k0, m0);
                assert(a@.entries.contains_key((r0, k0)) && b@.entries.contains_key((k0, m0)));
            }
        }
        r
    } else {
        let (a, b) = if !trans_b.to_bool() {
            (Cow::Owned(a.transpose()), Cow::Borrowed(b))
        } else if !trans_a.to_bool() {
            (Cow::Borrowed(a), Cow::Owned(b.transpose()))
        } else {
            (Cow::Owned(a.transpose()), Cow::Owned(b.transpose()))
        };
        spmm_csr(c, beta, alpha, Transpose(false), operand(&a), Transpose(false), operand(&b))
    }
}

} // verus!
