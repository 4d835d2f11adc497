//! What the kernels have in common.

use crate::csr::CsrMatrix;
use crate::scalar::{ring_mul, wrap};
use vstd::prelude::*;

verus! {

/// Whether an operand is read as its transpose. The storage is not touched.
#[derive(Clone, Copy, Debug, PartialEq, Eq, Structural)]
pub struct Transpose(pub bool);

impl Transpose {
    /// Whether the operand is read transposed.
    pub fn to_bool(&self) -> (b: bool)
        ensures
            b == self.0,
    {
        self.0
    }
}

/// Multiplies the values in the slots `lo <= s < hi` of `c` by `factor`.
pub(crate) fn scale_slots(c: &mut CsrMatrix, factor: i64, lo: usize, hi: usize)
    requires
        lo <= hi <= old(c).vals().len(),
    ensures
        final(c).spec_pattern() == old(c).spec_pattern(),
        final(c).vals().len() == old(c).vals().len(),
        forall|s: int|
            0 <= s < old(c).vals().len() ==> #[trigger] final(c).vals()[s] == (if lo <= s < hi {
                wrap(factor * old(c).vals()[s])
            } else {
                old(c).vals()[s]
            }),
{
    let mut s: usize = lo;
    while s < hi
        invariant
            lo <= s <= hi <= c.vals().len(),
            c.spec_pattern() == old(c).spec_pattern(),
            c.vals().len() == old(c).vals().len(),
            forall|t: int|
                0 <= t < c.vals().len() ==> #[trigger] c.vals()[t] == (if lo <= t < s {
                    wrap(factor * old(c).vals()[t])
                } else {
                    old(c).vals()[t]
                }),
        decreases hi - s,
    {
        let v = c.values()[s];
        c.set_value(s, ring_mul(factor, v));
        s += 1;
    }
}

} // verus!
