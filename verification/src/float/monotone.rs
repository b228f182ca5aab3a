//! Rounding keeps order.
use vstd::prelude::*;
use vstd::arithmetic::div_mod::{
    lemma_div_is_ordered, lemma_fundamental_div_mod, lemma_fundamental_div_mod_converse,
};
use vstd::arithmetic::power2::pow2;
use vstd::arithmetic::power2::{
    lemma2_to64, lemma2_to64_rest, lemma_pow2_adds, lemma_pow2_pos, lemma_pow2_strictly_increases,
    lemma_pow2_unfold,
};
use crate::float::arith::{abs_nat, nearest, of_nat, one_unit};
use crate::float::encoding::{
    lemma_magnitude_value_monotone, magnitude_value, Float64, BINADE, INFINITE,
};
use crate::float::order::ONE;
use crate::float::rounding::{
    lemma_rounded_significand, lemma_scale_bounds, nearest_even, nearest_magnitude, scale,
};

verus! {

/// The exponent that the significand of a magnitude is scaled by.
spec fn shift_of(m: nat) -> nat {
    if m / BINADE as nat == 0 {
        0
    } else {
        (m / BINADE as nat - 1) as nat
    }
}

/// The significand of a magnitude.
spec fn significand_of(m: nat) -> nat {
    if m / BINADE as nat == 0 {
        m % BINADE as nat
    } else {
        BINADE as nat + m % BINADE as nat
    }
}

proof fn lemma_parts(m: nat)
    ensures
        m == shift_of(m) * BINADE + significand_of(m),
        magnitude_value(m) == significand_of(m) * pow2(shift_of(m)),
        significand_of(m) < 2 * BINADE,
        shift_of(m) > 0 ==> significand_of(m) >= BINADE,
{
    lemma2_to64();
    if m / BINADE as nat == 0 {
        let f = m % BINADE as nat;
        assert(f * pow2(0) == f) by (nonlinear_arith)
            requires
                pow2(0) == 1,
        ;
    }
}

proof fn lemma_pow2_doubles(a: nat, b: nat)
    requires
        a < b,
    ensures
        2 * pow2(a) <= pow2(b),
{
    lemma_pow2_unfold(a + 1);
    if a + 1 < b {
        lemma_pow2_strictly_increases(a + 1, b);
    }
}

/// A quotient that is at least what a magnitude stands for is not rounded below that magnitude.
pub proof fn lemma_nearest_at_least(num: nat, den: nat, m: nat)
    requires
        den > 0,
        m <= INFINITE,
        magnitude_value(m) * den <= num,
    ensures
        nearest_magnitude(num, den) >= m,
{
    let s = scale(num, den);
    let d = den * pow2(s);
    let n = nearest_even(num, d);
    let k = shift_of(m);
    let sig = significand_of(m);
    lemma_parts(m);
    lemma_scale_bounds(num, den);
    lemma_rounded_significand(num, den);
    lemma_pow2_pos(s);
    lemma_pow2_pos(k);
    assert(d > 0) by (nonlinear_arith)
        requires
            den > 0,
            pow2(s) > 0,
            d == den * pow2(s),
    ;
    if s == k {
        let q = num / d;
        let r = num % d;
        lemma_fundamental_div_mod(num as int, d as int);
        assert(sig * d <= num) by (nonlinear_arith)
            requires
                (sig * pow2(k)) * den <= num,
                d == den * pow2(k),
        ;
        assert(q >= sig) by (nonlinear_arith)
            requires
                num == d * q + r,
                r < d,
                sig * d <= num,
                d > 0,
        ;
    } else if s > k {
        assert(s * BINADE + n >= m) by (nonlinear_arith)
            requires
                n >= BINADE,
                s >= k + 1,
                m == k * BINADE + sig,
                sig < 2 * BINADE,
        ;
    } else {
        lemma_pow2_doubles(s, k);
        assert(num >= 2 * BINADE * den * pow2(s)) by (nonlinear_arith)
            requires
                (sig * pow2(k)) * den <= num,
                sig >= BINADE,
                pow2(k) >= 2 * pow2(s),
                den > 0,
                pow2(s) > 0,
        ;
    }
}

/// A quotient that is at most what a magnitude stands for is not rounded above that magnitude.
pub proof fn lemma_nearest_at_most(num: nat, den: nat, m: nat)
    requires
        den > 0,
        num <= magnitude_value(m) * den,
    ensures
        nearest_magnitude(num, den) <= m,
{
    let s = scale(num, den);
    let d = den * pow2(s);
    let n = nearest_even(num, d);
    let k = shift_of(m);
    let sig = significand_of(m);
    lemma_parts(m);
    lemma_scale_bounds(num, den);
    lemma_rounded_significand(num, den);
    lemma_pow2_pos(s);
    lemma_pow2_pos(k);
    assert(d > 0) by (nonlinear_arith)
        requires
            den > 0,
            pow2(s) > 0,
            d == den * pow2(s),
    ;
    if s == k {
        let q = num / d;
        let r = num % d;
        lemma_fundamental_div_mod(num as int, d as int);
        assert(num <= sig * d) by (nonlinear_arith)
            requires
                num <= (sig * pow2(k)) * den,
                d == den * pow2(k),
        ;
        assert(q < sig || (q == sig && r == 0)) by (nonlinear_arith)
            requires
                num == d * q + r,
                num <= sig * d,
                d > 0,
                0 <= r,
                q >= 0,
        ;
    } else if s > k {
        lemma_pow2_doubles(k, s);
        assert(num > sig * pow2(k) * den) by (nonlinear_arith)
            requires
                num >= BINADE * den * pow2(s),
                pow2(s) >= 2 * pow2(k),
                sig < 2 * BINADE,
                den > 0,
                pow2(k) > 0,
                BINADE > 0,
        ;
    } else {
        assert(s * BINADE + n <= m) by (nonlinear_arith)
            requires
                n <= 2 * BINADE,
                s + 1 <= k,
                m == k * BINADE + sig,
                sig >= BINADE,
        ;
    }
}

/// Rounding keeps the order of quotients with the same denominator.
pub proof fn lemma_nearest_monotone(a: nat, b: nat, den: nat)
    requires
        den > 0,
        a <= b,
    ensures
        nearest_magnitude(a, den) <= nearest_magnitude(b, den),
{
    let s = scale(a, den);
    let t = scale(b, den);
    lemma_scale_bounds(a, den);
    lemma_scale_bounds(b, den);
    lemma_rounded_significand(a, den);
    lemma_rounded_significand(b, den);
    lemma_pow2_pos(s);
    lemma_pow2_pos(t);
    if s == t {
        let d = den * pow2(s);
        assert(d > 0) by (nonlinear_arith)
            requires
                den > 0,
                pow2(s) > 0,
                d == den * pow2(s),
        ;
        lemma_fundamental_div_mod(a as int, d as int);
        lemma_fundamental_div_mod(b as int, d as int);
        lemma_div_is_ordered(a as int, b as int, d as int);
        let q = a / d;
        if q == b / d {
            assert(a % d <= b % d);
        }
    } else if s > t {
        lemma_pow2_doubles(t, s);
        assert(a >= 2 * BINADE * den * pow2(t)) by (nonlinear_arith)
            requires
                a >= BINADE * den * pow2(s),
                pow2(s) >= 2 * pow2(t),
                den > 0,
        ;
    } else {
        let n = nearest_even(a, den * pow2(s));
        let o = nearest_even(b, den * pow2(t));
        assert(s * BINADE + n <= t * BINADE + o) by (nonlinear_arith)
            requires
                n <= 2 * BINADE,
                o >= BINADE,
                s + 1 <= t,
        ;
    }
}

/// What one stands for.
pub proof fn lemma_one()
    ensures
        magnitude_value(ONE as nat) == one_unit(),
        one_unit() > 0,
        (Float64 { bits: ONE }).value() == one_unit(),
        !(Float64 { bits: ONE }).nan(),
{
    lemma2_to64_rest();
    lemma_pow2_adds(52, 1022);
    lemma_pow2_pos(1074);
    assert(ONE as nat / BINADE as nat == 1023 && ONE as nat % BINADE as nat == 0);
}

/// What a rounded number that is not negative stands for.
pub proof fn lemma_nearest_value(num: nat, den: nat)
    requires
        den > 0,
    ensures
        nearest_magnitude(num, den) <= INFINITE,
        !nearest(false, num, den).nan(),
        !nearest(false, num, den).negative(),
        nearest(false, num, den).magnitude() == nearest_magnitude(num, den),
        nearest(false, num, den).value() == magnitude_value(nearest_magnitude(num, den)),
{
    let m = nearest_magnitude(num, den);
    assert(m <= INFINITE);
    assert(Float64::of(false, m).bits == m);
}

/// Positive integers are not rounded below one, nor to infinity.
pub proof fn lemma_of_nat(n: nat)
    requires
        0 < n <= u64::MAX,
    ensures
        of_nat(n).finite(),
        !of_nat(n).negative(),
        one_unit() <= of_nat(n).value() <= pow2(1138),
{
    lemma_one();
    let u = one_unit();
    assert(u * 1 <= n * u) by (nonlinear_arith)
        requires
            n >= 1,
            u >= 0,
    ;
    lemma_nearest_at_least(n * u, 1, ONE as nat);
    lemma_nearest_value(n * u, 1);
    let top: nat = 0x43f0_0000_0000_0000;
    lemma2_to64();
    lemma_pow2_adds(52, 1086);
    lemma_pow2_adds(64, 1074);
    lemma2_to64_rest();
    assert(top / BINADE as nat == 1087 && top % BINADE as nat == 0);
    assert(magnitude_value(top) == pow2(1138));
    assert(n * u <= pow2(64) * u) by (nonlinear_arith)
        requires
            n <= pow2(64),
            u >= 0,
    ;
    lemma_nearest_at_most(n * u, 1, top);
    if nearest_magnitude(n * u, 1) > ONE {
        lemma_magnitude_value_monotone(ONE as nat, nearest_magnitude(n * u, 1));
    }
    if nearest_magnitude(n * u, 1) < top {
        lemma_magnitude_value_monotone(nearest_magnitude(n * u, 1), top);
    }
}

/// Rounding keeps the order of integers.
pub proof fn lemma_of_nat_monotone(a: nat, b: nat)
    requires
        a <= b,
    ensures
        of_nat(a).value() <= of_nat(b).value(),
{
    let u = one_unit();
    lemma_pow2_pos(1074);
    assert(a * u <= b * u) by (nonlinear_arith)
        requires
            a <= b,
            u >= 0,
    ;
    lemma_nearest_monotone(a * u, b * u, 1);
    lemma_nearest_value(a * u, 1);
    lemma_nearest_value(b * u, 1);
    if nearest_magnitude(a * u, 1) < nearest_magnitude(b * u, 1) {
        lemma_magnitude_value_monotone(nearest_magnitude(a * u, 1), nearest_magnitude(b * u, 1));
    }
}

/// The quotient of a positive number by one that is not larger is at least one.
pub proof fn lemma_quotient_at_least_one(a: Float64, b: Float64)
    requires
        b.finite(),
        !a.nan(),
        0 < b.value() <= a.value(),
    ensures
        (Float64 { bits: ONE }).at_most(a.quotient(b)),
{
    lemma_one();
    let u = one_unit();
    lemma_sign(a);
    lemma_sign(b);
    if a.infinite() {
        assert(Float64::of(false, INFINITE as nat).bits == INFINITE);
        lemma_magnitude_value_monotone(ONE as nat, INFINITE as nat);
    } else {
        let num = abs_nat(a.value()) * u;
        let den = abs_nat(b.value());
        assert(u * den <= num) by (nonlinear_arith)
            requires
                num == abs_nat(a.value()) * u,
                den <= abs_nat(a.value()),
                u >= 0,
        ;
        lemma_nearest_at_least(num, den, ONE as nat);
        lemma_nearest_value(num, den);
        if nearest_magnitude(num, den) > ONE {
            lemma_magnitude_value_monotone(ONE as nat, nearest_magnitude(num, den));
        }
    }
}

/// The quotient of a number that is not negative by a positive one that is not smaller is at most
/// one, and not negative.
pub proof fn lemma_quotient_at_most_one(a: Float64, b: Float64)
    requires
        a.finite(),
        b.finite(),
        !a.negative(),
        a.value() <= b.value(),
        0 < b.value(),
    ensures
        a.quotient(b).at_most(Float64 { bits: ONE }),
        !a.quotient(b).negative(),
        a.quotient(b).finite(),
{
    lemma_one();
    let u = one_unit();
    lemma_sign(b);
    let num = abs_nat(a.value()) * u;
    let den = abs_nat(b.value());
    assert(num <= u * den) by (nonlinear_arith)
        requires
            num == abs_nat(a.value()) * u,
            abs_nat(a.value()) <= den,
            u >= 0,
    ;
    lemma_nearest_at_most(num, den, ONE as nat);
    lemma_nearest_value(num, den);
    if nearest_magnitude(num, den) < ONE {
        lemma_magnitude_value_monotone(nearest_magnitude(num, den), ONE as nat);
    }
}

/// A positive number by itself is one.
pub proof fn lemma_quotient_same(a: Float64)
    requires
        a.finite(),
        a.value() > 0,
    ensures
        a.quotient(a) == (Float64 { bits: ONE }),
{
    lemma_sign(a);
    lemma_one();
    let u = one_unit();
    let v = abs_nat(a.value());
    assert(u * v == v * u) by (nonlinear_arith);
    lemma_nearest_at_least(v * u, v, ONE as nat);
    lemma_nearest_at_most(v * u, v, ONE as nat);
}

/// A number above zero has no sign and is not zero.
pub proof fn lemma_sign(a: Float64)
    ensures
        a.value() > 0 ==> !a.negative() && !a.zero(),
        a.value() >= 0 && !a.zero() ==> !a.negative(),
        a.zero() ==> a.value() == 0,
{
    if a.magnitude() > 0 {
        lemma_magnitude_value_monotone(0, a.magnitude());
    }
}

/// Integers of up to 53 bits have an encoding.
pub proof fn lemma_integer_encoded(n: nat) -> (m: nat)
    requires
        1 <= n < 2 * BINADE,
    ensures
        0 < m < INFINITE,
        magnitude_value(m) == n * one_unit(),
        of_nat(n).magnitude() == m,
        of_nat(n).value() == n * one_unit(),
        of_nat(n).finite(),
{
    lemma2_to64();
    let t = lemma_leading_bit(n, 0);
    let k = (1074 - t) as nat;
    let sig = n * pow2(t);
    let m = k * BINADE as nat + sig;
    assert(m == (k + 1) * BINADE + (sig - BINADE)) by (nonlinear_arith)
        requires
            m == k * BINADE + sig,
    ;
    lemma_fundamental_div_mod_converse(
        m as int,
        BINADE as int,
        (k + 1) as int,
        sig - BINADE,
    );
    lemma_pow2_adds(t, k);
    assert(sig * pow2(k) == n * pow2(1074)) by (nonlinear_arith)
        requires
            sig == n * pow2(t),
            pow2(1074) == pow2(t) * pow2(k),
    ;
    assert(n * one_unit() * 1 == n * one_unit());
    lemma_nearest_at_least(n * one_unit(), 1, m);
    lemma_nearest_at_most(n * one_unit(), 1, m);
    lemma_nearest_value(n * one_unit(), 1);
    m
}

/// How far an integer has to be shifted to fill a significand.
proof fn lemma_leading_bit(n: nat, t: nat) -> (r: nat)
    requires
        n >= 1,
        t <= 52,
        n * pow2(t) < 2 * BINADE,
    ensures
        t <= r <= 52,
        BINADE <= n * pow2(r) < 2 * BINADE,
    decreases 52 - t,
{
    if n * pow2(t) >= BINADE {
        t
    } else {
        if t == 52 {
            lemma2_to64_rest();
            assert(n * pow2(52) >= pow2(52)) by (nonlinear_arith)
                requires
                    n >= 1,
            ;
        }
        lemma_pow2_unfold(t + 1);
        assert(n * pow2(t + 1) == 2 * (n * pow2(t))) by (nonlinear_arith)
            requires
                pow2(t + 1) == 2 * pow2(t),
        ;
        lemma_leading_bit(n, t + 1)
    }
}

} // verus!
