//! Sums and differences keep order.
use vstd::prelude::*;
use vstd::arithmetic::div_mod::{lemma_fundamental_div_mod, lemma_fundamental_div_mod_converse};
use vstd::arithmetic::power2::pow2;
use vstd::arithmetic::power2::{lemma2_to64, lemma_pow2_pos, lemma_pow2_unfold};
use crate::float::arith::{abs_nat, lemma_nearest_zero};
use crate::float::encoding::{
    lemma_magnitude_value_monotone, magnitude_value, Float64, BINADE, INFINITE,
};
use crate::float::monotone::{lemma_nearest_at_least, lemma_nearest_at_most, lemma_nearest_monotone};
use crate::float::rounding::{
    lemma_rounded_significand, lemma_scale_bounds, nearest_even, nearest_magnitude, scale,
};

verus! {

/// The number, in units of `2^-1074`, that `v` units are rounded to.
pub open spec fn rounded(v: int) -> int {
    let m = magnitude_value(nearest_magnitude(abs_nat(v), 1)) as int;
    if v < 0 {
        -m
    } else {
        m
    }
}

proof fn lemma_value_monotone(m: nat, n: nat)
    requires
        m <= n,
    ensures
        magnitude_value(m) <= magnitude_value(n),
{
    if m < n {
        lemma_magnitude_value_monotone(m, n);
    }
}

/// Rounding keeps order.
pub proof fn lemma_rounded_monotone(v: int, w: int)
    requires
        v <= w,
    ensures
        rounded(v) <= rounded(w),
{
    if v >= 0 {
        lemma_nearest_monotone(v as nat, w as nat, 1);
        lemma_value_monotone(nearest_magnitude(v as nat, 1), nearest_magnitude(w as nat, 1));
    } else if w < 0 {
        lemma_nearest_monotone(abs_nat(w), abs_nat(v), 1);
        lemma_value_monotone(nearest_magnitude(abs_nat(w), 1), nearest_magnitude(abs_nat(v), 1));
    }
}

/// What has an encoding is not rounded.
pub proof fn lemma_rounded_encoded(a: Float64)
    requires
        !a.nan(),
    ensures
        rounded(a.value()) == a.value(),
{
    let m = a.magnitude();
    let v = magnitude_value(m);
    assert(v * 1 == v) by (nonlinear_arith);
    lemma_nearest_at_least(v, 1, m);
    lemma_nearest_at_most(v, 1, m);
    assert(nearest_magnitude(v, 1) == m);
    assert(abs_nat(a.value()) == v);
}

/// What is no further from zero than an encoding is not rounded beyond it.
pub proof fn lemma_rounded_bound(v: int, m: nat)
    requires
        abs_nat(v) <= magnitude_value(m),
    ensures
        nearest_magnitude(abs_nat(v), 1) <= m,
        abs_nat(rounded(v)) <= magnitude_value(m),
{
    assert(magnitude_value(m) * 1 == magnitude_value(m)) by (nonlinear_arith);
    lemma_nearest_at_most(abs_nat(v), 1, m);
    lemma_value_monotone(nearest_magnitude(abs_nat(v), 1), m);
}

/// What a scaled significand stands for.
proof fn lemma_significand_value(s: nat, k: nat)
    requires
        k <= 2 * BINADE,
        s > 0 ==> k >= BINADE,
    ensures
        magnitude_value(s * BINADE as nat + k) == k * pow2(s),
{
    let b = BINADE as nat;
    lemma2_to64();
    let m = s * b + k;
    if k < b {
        assert(0 * b == 0) by (nonlinear_arith);
        lemma_fundamental_div_mod_converse(m as int, b as int, 0, k as int);
        assert(k * pow2(0) == k) by (nonlinear_arith)
            requires
                pow2(0) == 1,
        ;
    } else if k < 2 * b {
        assert(m == b * (s + 1) + (k - b)) by (nonlinear_arith)
            requires
                m == s * b + k,
        ;
        lemma_fundamental_div_mod_converse(m as int, b as int, (s + 1) as int, k - b);
    } else {
        assert(m == b * (s + 2) + 0) by (nonlinear_arith)
            requires
                m == s * b + k,
                k == 2 * b,
        ;
        lemma_fundamental_div_mod_converse(m as int, b as int, (s + 2) as int, 0);
        lemma_pow2_unfold(s + 1);
        assert(b * (2 * pow2(s)) == k * pow2(s)) by (nonlinear_arith)
            requires
                k == 2 * b,
        ;
    }
}

/// A quotient is not rounded up by more than one part in 64, and a unit.
pub proof fn lemma_nearest_above(num: nat, den: nat)
    requires
        den > 0,
        nearest_magnitude(num, den) < INFINITE,
    ensures
        64 * (magnitude_value(nearest_magnitude(num, den)) * den) <= 65 * num + 64 * den,
{
    let s = scale(num, den);
    let d = den * pow2(s);
    let k = nearest_even(num, d);
    lemma_pow2_pos(s);
    lemma_scale_bounds(num, den);
    lemma_rounded_significand(num, den);
    lemma_significand_value(s, k);
    assert(d > 0) by (nonlinear_arith)
        requires
            den > 0,
            pow2(s) > 0,
            d == den * pow2(s),
    ;
    let q = num / d;
    let r = num % d;
    lemma_fundamental_div_mod(num as int, d as int);
    let w = (k * pow2(s)) * den;
    assert(w == k * d) by (nonlinear_arith)
        requires
            w == (k * pow2(s)) * den,
            d == den * pow2(s),
    ;
    assert(2 * w <= 2 * num + d) by (nonlinear_arith)
        requires
            num == d * q + r,
            0 <= r < d,
            k == q || k == q + 1 && 2 * r >= d,
            w == k * d,
    ;
    if s == 0 {
        lemma2_to64();
        assert(d == den) by (nonlinear_arith)
            requires
                d == den * pow2(s),
                pow2(s) == 1,
        ;
    } else {
        assert(BINADE * den * pow2(s) == BINADE * d) by (nonlinear_arith)
            requires
                d == den * pow2(s),
        ;
        assert(64 * d <= num) by (nonlinear_arith)
            requires
                BINADE * d <= num,
                BINADE >= 64,
        ;
    }
}

/// Rounding is off by at most one part in `2^53`.
pub proof fn lemma_rounding_error(v: int)
    requires
        nearest_magnitude(abs_nat(v), 1) < INFINITE,
    ensures
        2 * BINADE * abs_nat(rounded(v) - v) <= abs_nat(v),
{
    let n = abs_nat(v);
    let s = scale(n, 1);
    let d = pow2(s);
    let k = nearest_even(n, 1 * d);
    assert(1 * d == d) by (nonlinear_arith);
    lemma_pow2_pos(s);
    lemma_scale_bounds(n, 1);
    lemma_rounded_significand(n, 1);
    lemma_significand_value(s, k);
    let q = n / d;
    let r = n % d;
    lemma_fundamental_div_mod(n as int, d as int);
    let w = k * d;
    if s == 0 {
        lemma2_to64();
        assert(w == n) by (nonlinear_arith)
            requires
                w == k * d,
                d == 1,
                n == d * q + r,
                0 <= r < d,
                k == q,
        ;
        assert(2 * BINADE * 0 == 0) by (nonlinear_arith);
    } else {
        let e = abs_nat(w - n);
        assert(2 * e <= d) by (nonlinear_arith)
            requires
                n == d * q + r,
                0 <= r < d,
                k == q && 2 * r <= d || k == q + 1 && 2 * r >= d,
                w == k * d,
                e == if w < n {
                    n - w
                } else {
                    w - n
                },
        ;
        assert(2 * BINADE * e <= n) by (nonlinear_arith)
            requires
                2 * e <= d,
                n >= BINADE * 1 * d,
        ;
    }
}

/// A sum that is finite is that of finite numbers, and off by at most one part in `2^53`.
pub proof fn lemma_finite_sum(a: Float64, b: Float64)
    requires
        a.sum(b).finite(),
    ensures
        a.finite(),
        b.finite(),
        2 * BINADE * abs_nat(a.sum(b).value() - (a.value() + b.value())) <= abs_nat(
            a.value() + b.value(),
        ),
{
    let v = a.value() + b.value();
    if v == 0 {
        lemma_value_zero(a.sum(b));
        assert(2 * BINADE * 0 == 0) by (nonlinear_arith);
    } else {
        lemma_rounding_error(v);
        assert(a.sum(b).value() == rounded(v));
    }
}

proof fn lemma_value_zero(a: Float64)
    requires
        a.zero(),
    ensures
        a.value() == 0,
{
}

/// A sum is the sum of the numbers, rounded.
pub proof fn lemma_sum_rounded(a: Float64, b: Float64, m: nat)
    requires
        a.finite(),
        b.finite(),
        m < INFINITE,
        abs_nat(a.value() + b.value()) <= magnitude_value(m),
    ensures
        a.sum(b).finite(),
        a.sum(b).value() == rounded(a.value() + b.value()),
{
    let v = a.value() + b.value();
    lemma_rounded_bound(v, m);
    if v == 0 {
        lemma_nearest_zero(1);
    }
}

/// A difference is the difference of the numbers, rounded.
pub proof fn lemma_difference_rounded(a: Float64, b: Float64, m: nat)
    requires
        a.finite(),
        b.finite(),
        m < INFINITE,
        abs_nat(a.value() - b.value()) <= magnitude_value(m),
    ensures
        a.difference(b).finite(),
        a.difference(b).value() == rounded(a.value() - b.value()),
{
    assert(b.negated().magnitude() == b.magnitude());
    assert(b.negated().value() == -b.value());
    lemma_sum_rounded(a, b.negated(), m);
}

} // verus!
