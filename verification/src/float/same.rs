//! Operations do not tell apart encodings of the same number.
use vstd::prelude::*;
use crate::float::arith::{abs_nat, lemma_nearest_zero, one_unit};
use crate::float::encoding::{lemma_magnitude_value_monotone, Float64, INFINITE};
use crate::float::monotone::{lemma_one, lemma_sign};

verus! {

/// Whether two encodings are of the same number, or both of none.
pub open spec fn alike(a: Float64, b: Float64) -> bool {
    a.nan() == b.nan() && (!a.nan() ==> a.value() == b.value())
}

/// Encodings of the same number have the same magnitude, and the same sign unless it is zero.
pub proof fn lemma_alike(a: Float64, b: Float64)
    requires
        alike(a, b),
        !a.nan(),
    ensures
        a.magnitude() == b.magnitude(),
        !a.zero() ==> a == b,
{
    lemma_sign(a);
    lemma_sign(b);
    if a.magnitude() < b.magnitude() {
        lemma_magnitude_value_monotone(a.magnitude(), b.magnitude());
        lemma_magnitude_value_monotone(0, b.magnitude());
        if a.magnitude() > 0 {
            lemma_magnitude_value_monotone(0, a.magnitude());
        }
    } else if b.magnitude() < a.magnitude() {
        lemma_magnitude_value_monotone(b.magnitude(), a.magnitude());
        lemma_magnitude_value_monotone(0, a.magnitude());
        if b.magnitude() > 0 {
            lemma_magnitude_value_monotone(0, b.magnitude());
        }
    } else if a.magnitude() > 0 {
        lemma_magnitude_value_monotone(0, a.magnitude());
    }
}

/// The sign of a zero does not matter to a difference, but for the sign of a zero.
pub proof fn lemma_difference_alike(a: Float64, b: Float64, c: Float64, d: Float64)
    requires
        alike(a, c),
        alike(b, d),
    ensures
        alike(a.difference(b), c.difference(d)),
{
    if !a.nan() && !b.nan() {
        lemma_alike(a, c);
        lemma_alike(b, d);
        lemma_negated(b);
        lemma_negated(d);
    } else {
        lemma_negated(b);
        lemma_negated(d);
    }
}

proof fn lemma_negated(a: Float64)
    ensures
        a.negated().magnitude() == a.magnitude(),
        a.negated().negative() == !a.negative(),
        a.negated().value() == -a.value(),
{
}

/// The sign of a zero does not matter to a quotient by a number that is not zero, but for the sign
/// of a zero.
pub proof fn lemma_quotient_alike(a: Float64, b: Float64, c: Float64, d: Float64)
    requires
        alike(a, c),
        alike(b, d),
        b.nan() || !b.zero(),
    ensures
        alike(a.quotient(b), c.quotient(d)),
{
    if !a.nan() && !b.nan() {
        lemma_alike(a, c);
        lemma_alike(b, d);
        if a.zero() {
            lemma_one();
            lemma_sign(a);
            lemma_sign(c);
            if b.magnitude() < INFINITE {
                lemma_magnitude_value_monotone(0, b.magnitude());
                assert(0 * one_unit() == 0) by (nonlinear_arith);
                lemma_nearest_zero(abs_nat(b.value()));
            }
        }
    }
}

/// A number that is not negative, less itself, is zero.
pub proof fn lemma_difference_self(x: Float64)
    requires
        x.finite(),
        !x.negative(),
    ensures
        x.difference(x) == (Float64 { bits: 0 }),
{
    lemma_negated(x);
}

/// Zero times a number that is not negative is zero.
pub proof fn lemma_zero_product(x: Float64)
    requires
        x.finite(),
        !x.negative(),
    ensures
        (Float64 { bits: 0 }).product(x) == (Float64 { bits: 0 }),
{
    let v = abs_nat(x.value());
    lemma_one();
    lemma_sign(Float64 { bits: 0 });
    assert(0 * v == 0) by (nonlinear_arith);
    lemma_nearest_zero(one_unit());
}

/// Zero divided by a positive number is zero.
pub proof fn lemma_zero_quotient(x: Float64)
    requires
        x.finite(),
        x.value() > 0,
    ensures
        (Float64 { bits: 0 }).quotient(x) == (Float64 { bits: 0 }),
{
    lemma_sign(x);
    lemma_sign(Float64 { bits: 0 });
    assert(0 * one_unit() == 0) by (nonlinear_arith);
    lemma_nearest_zero(abs_nat(x.value()));
}

/// The larger of two numbers is the same number whichever comes first.
pub proof fn lemma_larger_alike(a: Float64, b: Float64)
    ensures
        alike(a.larger(b), b.larger(a)),
{
}

/// The smaller of two numbers is the same number whichever comes first.
pub proof fn lemma_smaller_alike(a: Float64, b: Float64)
    ensures
        alike(a.smaller(b), b.smaller(a)),
{
}

} // verus!
