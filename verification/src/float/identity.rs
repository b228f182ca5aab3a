//! Operations that leave a number as it is.
use vstd::prelude::*;
use crate::float::arith::{abs_nat, lemma_magnitude_value_zero, nearest, of_nat, one_unit};
use crate::float::encoding::{magnitude_value, Float64};
use crate::float::monotone::{
    lemma_integer_encoded, lemma_nearest_at_least, lemma_nearest_at_most, lemma_one, lemma_sign,
};
use crate::float::rounding::nearest_magnitude;

verus! {

/// A number that has an encoding is rounded to itself.
proof fn lemma_exact(x: Float64, den: nat)
    requires
        x.finite(),
        den > 0,
    ensures
        nearest(x.negative(), abs_nat(x.value()) * den, den) == x,
{
    let m = x.magnitude();
    let v = abs_nat(x.value());
    assert(v == magnitude_value(m));
    lemma_nearest_at_least(v * den, den, m);
    lemma_nearest_at_most(v * den, den, m);
    assert(nearest_magnitude(v * den, den) == m);
}

/// Negative zero and a number add up to the number, as do any zero and a number that is not zero.
pub proof fn lemma_nothing_more(zero: Float64, x: Float64)
    requires
        zero.zero(),
        x.finite(),
        zero.negative() || !x.zero(),
    ensures
        zero.sum(x) == x,
{
    lemma_sign(zero);
    lemma_sign(x);
    let v = abs_nat(x.value());
    if x.value() == 0 {
        lemma_magnitude_value_zero(x.magnitude());
    } else {
        lemma_exact(x, 1);
        assert(v * 1 == v) by (nonlinear_arith);
    }
}

/// A number less zero is the number.
pub proof fn lemma_nothing_less(x: Float64, zero: Float64)
    requires
        x.finite(),
        x.value() > 0,
        zero.finite(),
        zero.value() == 0,
    ensures
        x.difference(zero) == x,
{
    lemma_sign(x);
    assert(zero.negated().value() == 0);
    lemma_exact(x, 1);
    let v = abs_nat(x.value());
    assert(v * 1 == v) by (nonlinear_arith);
}

/// A number divided by one is the number.
pub proof fn lemma_divided_by_one(x: Float64)
    requires
        x.finite(),
    ensures
        x.quotient(of_nat(1)) == x,
{
    let m = lemma_integer_encoded(1);
    let one = of_nat(1);
    lemma_one();
    assert(1 * one_unit() == one_unit()) by (nonlinear_arith);
    lemma_sign(one);
    lemma_exact(x, one_unit());
}

} // verus!
