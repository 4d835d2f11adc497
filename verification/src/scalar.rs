//! The scalar ring: `i64` with wrapping addition and multiplication.

use std::num::Wrapping;
use vstd::arithmetic::div_mod::{
    lemma_add_mod_noop, lemma_mod_add_multiples_vanish, lemma_mod_sub_multiples_vanish,
    lemma_mul_mod_noop, lemma_small_mod,
};
use vstd::prelude::*;

verus! {

/// The number of residues of the ring, `2^64`.
pub open spec fn modulus() -> int {
    0x1_0000_0000_0000_0000
}

/// The ring element that stands for the mathematical integer `x`: the one
/// `i64` congruent to `x` modulo `2^64`.
pub open spec fn wrap(x: int) -> i64 {
    let r = x % 0x1_0000_0000_0000_0000;
    if r > i64::MAX {
        (r - 0x1_0000_0000_0000_0000) as i64
    } else {
        r as i64
    }
}

/// An integer that fits in `i64` stands for itself.
pub proof fn lemma_wrap_fits(x: int)
    requires
        i64::MIN <= x <= i64::MAX,
    ensures
        wrap(x) == x,
{
    if x >= 0 {
        lemma_small_mod(x as nat, 0x1_0000_0000_0000_0000);
    } else {
        lemma_small_mod((x + 0x1_0000_0000_0000_0000) as nat, 0x1_0000_0000_0000_0000);
        lemma_mod_add_multiples_vanish(x, 0x1_0000_0000_0000_0000);
    }
}

/// `wrap(x)` is congruent to `x`.
pub proof fn lemma_wrap_congruent(x: int)
    ensures
        (wrap(x) as int) % modulus() == x % modulus(),
{
    let r = x % modulus();
    lemma_small_mod(r as nat, modulus() as nat);
    if r > i64::MAX {
        lemma_mod_sub_multiples_vanish(r, modulus());
    }
}

/// Reducing the summands first does not change the reduced sum.
pub proof fn lemma_wrap_add(x: int, y: int)
    ensures
        wrap(wrap(x) + wrap(y)) == wrap(x + y),
{
    lemma_wrap_congruent(x);
    lemma_wrap_congruent(y);
    lemma_add_mod_noop(wrap(x) as int, wrap(y) as int, modulus());
    lemma_add_mod_noop(x, y, modulus());
}

/// Reducing the factors first does not change the reduced product.
pub proof fn lemma_wrap_mul(x: int, y: int)
    ensures
        wrap(wrap(x) * wrap(y)) == wrap(x * y),
{
    lemma_wrap_congruent(x);
    lemma_wrap_congruent(y);
    lemma_mul_mod_noop(wrap(x) as int, wrap(y) as int, modulus());
    lemma_mul_mod_noop(x, y, modulus());
}

/// The fused update `beta * c + alpha * d`, computed in the ring from a
/// reduced `d`, is the reduction of the exact expression.
pub proof fn lemma_fused_update(beta: i64, c: i64, alpha: i64, d: i64, exact_d: int)
    requires
        d == wrap(exact_d),
    ensures
        wrap(wrap(beta * c) + wrap(alpha * d)) == wrap(beta * c + alpha * exact_d),
{
    lemma_wrap_fits(alpha as int);
    lemma_wrap_mul(alpha as int, exact_d);
    lemma_wrap_add(beta * c, alpha * d);
    lemma_wrap_add(beta * c, alpha * exact_d);
}

/// Adding `g * b` in the ring to a reduced accumulator is the reduction of the
/// exact sum.
pub proof fn lemma_accumulate(acc: i64, exact_acc: int, g: i64, exact_g: int, b: i64)
    requires
        acc == wrap(exact_acc),
        g == wrap(exact_g),
    ensures
        wrap(acc + wrap(g * b)) == wrap(exact_acc + exact_g * b),
{
    lemma_wrap_fits(b as int);
    lemma_wrap_mul(exact_g, b as int);
    lemma_wrap_add(exact_acc, g * b);
    lemma_wrap_add(exact_acc, exact_g * b);
}

/// Adding `alpha * x` in the ring to a reduced value is the reduction of the
/// exact sum.
pub proof fn lemma_add_scaled(cur: i64, exact: int, alpha: i64, x: i64)
    requires
        cur == wrap(exact),
    ensures
        wrap(cur + wrap(alpha * x)) == wrap(exact + alpha * x),
{
    lemma_wrap_add(exact, alpha * x);
}

/// Adding the product of `b` and a reduced `alpha * a` in the ring to a
/// reduced update is the update with one more term in its sum.
pub proof fn lemma_add_product(
    cur: i64,
    beta: i64,
    c0: i64,
    alpha: i64,
    d: int,
    a: i64,
    b: i64,
    gamma: i64,
)
    requires
        cur == wrap(beta * c0 + alpha * d),
        gamma == wrap(alpha * a),
    ensures
        wrap(cur + wrap(gamma * b)) == wrap(beta * c0 + alpha * (d + a * b)),
{
    lemma_accumulate(cur, beta * c0 + alpha * d, gamma, alpha * a, b);
    assert(beta * c0 + alpha * d + (alpha * a) * b == beta * c0 + alpha * (d + a * b))
        by (nonlinear_arith);
}

/// Sum in the ring.
pub fn ring_add(a: i64, b: i64) -> (r: i64)
    ensures
        r == wrap(a + b),
{
    proof {
        let s = a + b;
        if s > i64::MAX {
            lemma_wrap_fits(s - 0x1_0000_0000_0000_0000);
            lemma_mod_sub_multiples_vanish(s, 0x1_0000_0000_0000_0000);
        } else if s < i64::MIN {
            lemma_wrap_fits(s + 0x1_0000_0000_0000_0000);
            lemma_mod_add_multiples_vanish(s, 0x1_0000_0000_0000_0000);
        } else {
            lemma_wrap_fits(s);
        }
    }
    a.wrapping_add(b)
}

/// Product in the ring.
pub fn ring_mul(a: i64, b: i64) -> (r: i64)
    ensures
        r == wrap(a * b),
{
    a.wrapping_mul(b)
}

/// The additive identity, as `num_traits::zero` gives it for `Wrapping<i64>`:
/// the source defines it as `Wrapping(0)`.
#[verifier::external_body]
pub(crate) fn zero() -> (z: i64)
    ensures
        z == 0,
{
    num_traits::zero::<Wrapping<i64>>().0
}

/// The multiplicative identity, as `num_traits::one` gives it for
/// `Wrapping<i64>`: the source defines it as `Wrapping(1)`.
#[verifier::external_body]
pub(crate) fn one() -> (u: i64)
    ensures
        u == 1,
{
    num_traits::one::<Wrapping<i64>>().0
}

} // verus!
