//! Measurements that add up to a span of time have a deviation that is one.
use vstd::prelude::*;
use vstd::arithmetic::div_mod::lemma_fundamental_div_mod;
use vstd::arithmetic::power2::{lemma2_to64, lemma2_to64_rest, lemma_pow2_adds};
use crate::benchmark::stats::{
    deviation_secs, divisor, lemma_no_span, lemma_single_deviation, mean_nanos, measurable,
    squared_deviations, total_nanos,
};
use crate::duration::{
    is_span, lemma_seconds, nearest_nanos, seconds, Duration, LIMIT, NANOS_PER_SEC,
};
use crate::float::arith::{abs_nat, lemma_nearest_zero, of_nat, one_unit};
use crate::float::encoding::{
    lemma_magnitude_value_monotone, magnitude_value, Float64, BINADE,
};
use crate::float::monotone::{
    lemma_integer_encoded, lemma_nearest_at_most, lemma_nearest_value, lemma_of_nat,
    lemma_of_nat_monotone, lemma_one, lemma_quotient_at_most_one, lemma_sign,
};
use crate::float::root::lemma_root_at_most;
use crate::float::rounding::nearest_magnitude;
use crate::float::sums::{
    lemma_difference_rounded, lemma_finite_sum, lemma_nearest_above, lemma_rounded_bound,
    lemma_rounded_encoded, lemma_rounded_monotone, lemma_rounding_error, lemma_sum_rounded, rounded,
};

verus! {

/// A bound on what is squared: `17 / 16` of `2^64`.
spec fn reach() -> nat {
    17 * 0x1000_0000_0000_0000 * one_unit()
}

/// The encodings of `2^132`, `2^130`, `15 * 2^124` and `31 * 2^59`.
proof fn lemma_bounds()
    ensures
        magnitude_value(0x4830_0000_0000_0000) == 0x1_0000_0000_0000_0000 * (
        0x10_0000_0000_0000_0000 * one_unit()),
        magnitude_value(0x4810_0000_0000_0000) == 0x1_0000_0000_0000_0000 * (
        0x4_0000_0000_0000_0000 * one_unit()),
        magnitude_value(0x47ee_0000_0000_0000) == 15 * 0x1000_0000_0000_0000 * (
        0x1_0000_0000_0000_0000 * one_unit()),
        magnitude_value(0x43ef_0000_0000_0000) == 31 * 0x800_0000_0000_0000 * one_unit(),
        one_unit() > 0,
{
    let u = one_unit();
    let b = BINADE as nat;
    lemma_one();
    lemma2_to64();
    lemma2_to64_rest();
    assert(0x4830_0000_0000_0000nat / b == 1155 && 0x4830_0000_0000_0000nat % b == 0);
    assert(0x4810_0000_0000_0000nat / b == 1153 && 0x4810_0000_0000_0000nat % b == 0);
    assert(0x47ee_0000_0000_0000nat / b == 1150 && 0x47ee_0000_0000_0000nat % b
        == 0xe_0000_0000_0000);
    assert(0x43ef_0000_0000_0000nat / b == 1086 && 0x43ef_0000_0000_0000nat % b
        == 0xf_0000_0000_0000);
    lemma_pow2_adds(80, 1074);
    lemma_pow2_adds(78, 1074);
    lemma_pow2_adds(75, 1074);
    lemma_pow2_adds(11, 1074);
    lemma_pow2_adds(64, 16);
    lemma_pow2_adds(64, 14);
    lemma_pow2_adds(64, 11);
    assert(0x10_0000_0000_0000 * (0x1_0000_0000_0000_0000_0000 * u) == 0x1_0000_0000_0000_0000 * (
    0x10_0000_0000_0000_0000 * u)) by (nonlinear_arith);
    assert(0x10_0000_0000_0000 * (0x4000_0000_0000_0000_0000 * u) == 0x1_0000_0000_0000_0000 * (
    0x4_0000_0000_0000_0000 * u)) by (nonlinear_arith);
    assert(0x1e_0000_0000_0000 * (0x800_0000_0000_0000_0000 * u) == 15 * 0x1000_0000_0000_0000 * (
    0x1_0000_0000_0000_0000 * u)) by (nonlinear_arith);
    assert(0x1f_0000_0000_0000 * (0x800 * u) == 31 * 0x800_0000_0000_0000 * u)
        by (nonlinear_arith);
}

/// An integer is not rounded up by more than one part in 64.
proof fn lemma_of_nat_above(n: nat)
    requires
        n <= u64::MAX,
    ensures
        of_nat(n).finite(),
        0 <= of_nat(n).value(),
        64 * of_nat(n).value() <= 65 * (n * one_unit()),
{
    let u = one_unit();
    lemma_one();
    if n > 0 {
        lemma_of_nat(n);
        lemma_nearest_value(n * u, 1);
        assert(n * u >= 0) by (nonlinear_arith)
            requires
                u > 0,
                n > 0,
        ;
        lemma_rounding_error((n * u) as int);
        assert(of_nat(n).value() == rounded((n * u) as int));
        let e = abs_nat(rounded((n * u) as int) - n * u);
        assert(64 * e <= n * u) by (nonlinear_arith)
            requires
                2 * BINADE * e <= n * u,
                BINADE == 0x10_0000_0000_0000,
                e >= 0,
        ;
    } else {
        assert(0 * u == 0) by (nonlinear_arith);
        lemma_nearest_zero(1);
        lemma_nearest_value(0, 1);
        lemma_sign(of_nat(0));
    }
}

/// The part of a second that nanoseconds come to is at most one.
proof fn lemma_part(fraction: nat)
    requires
        fraction < NANOS_PER_SEC,
    ensures
        ({
            let part = of_nat(fraction).quotient(of_nat(NANOS_PER_SEC as nat));
            part.finite() && 0 <= part.value() <= one_unit()
        }),
{
    lemma_of_nat_above(fraction);
    lemma_sign(of_nat(fraction));
    lemma_one();
    if fraction > 0 {
        lemma_of_nat(fraction);
    } else {
        assert(0 * one_unit() == 0) by (nonlinear_arith);
        lemma_nearest_zero(1);
    }
    lemma_of_nat(NANOS_PER_SEC as nat);
    lemma_of_nat_monotone(fraction, NANOS_PER_SEC as nat);
    lemma_quotient_at_most_one(of_nat(fraction), of_nat(NANOS_PER_SEC as nat));
}

/// Seconds are not much more than the nanoseconds that they are made of.
proof fn lemma_seconds_above(x: nat)
    requires
        x < LIMIT,
    ensures
        4096 * (NANOS_PER_SEC as nat * seconds(x).value()) <= (4225 * x + 4160
            * NANOS_PER_SEC as nat) * one_unit(),
{
    let u = one_unit();
    let g = NANOS_PER_SEC as nat;
    let whole = x / g;
    let a = of_nat(whole);
    let part = of_nat(x % g).quotient(of_nat(g));
    lemma_seconds(x);
    lemma_of_nat_above(whole);
    lemma_part(x % g);
    lemma_finite_sum(a, part);
    let v = seconds(x).value();
    let t = a.value() + part.value();
    let e = abs_nat(v - t);
    assert(64 * e <= t) by (nonlinear_arith)
        requires
            2 * BINADE * e <= t,
            BINADE == 0x10_0000_0000_0000,
            e >= 0,
    ;
    assert(64 * v <= 65 * t);
    assert(4096 * v <= 4225 * (whole * u) + 4160 * u);
    lemma_one();
    assert(4096 * (g * v) <= (4225 * x + 4160 * g) * u) by (nonlinear_arith)
        requires
            4096 * v <= 4225 * (whole * u) + 4160 * u,
            whole * g <= x,
            u > 0,
            g > 0,
    ;
}

/// The seconds of the first `k` measurements together.
spec fn seconds_sum(s: Seq<Duration>, k: nat) -> int
    decreases k,
{
    if k == 0 {
        0
    } else {
        seconds_sum(s, (k - 1) as nat) + seconds(s[k - 1]@).value()
    }
}

/// What the measurements take is at most what all of them take.
proof fn lemma_each_below_total(s: Seq<Duration>, k: nat)
    requires
        k <= s.len(),
    ensures
        total_nanos(s.take(k as int)) <= total_nanos(s),
        forall|i: int| 0 <= i < s.len() ==> (#[trigger] s[i])@ <= total_nanos(s),
    decreases s.len(),
{
    if s.len() > 0 {
        let rest = s.drop_last();
        if k < s.len() {
            lemma_each_below_total(rest, k);
            assert(rest.take(k as int) =~= s.take(k as int));
        } else {
            lemma_each_below_total(rest, 0);
            assert(s.take(k as int) =~= s);
        }
        assert forall|i: int| 0 <= i < s.len() implies (#[trigger] s[i])@ <= total_nanos(s) by {
            if i < s.len() - 1 {
                assert(rest[i] == s[i]);
            }
        }
    }
}

proof fn lemma_seconds_sum(s: Seq<Duration>, k: nat)
    requires
        k <= s.len(),
        total_nanos(s) < LIMIT,
    ensures
        4096 * (NANOS_PER_SEC as nat * seconds_sum(s, k)) <= (4225 * total_nanos(s.take(k as int))
            + 4160 * NANOS_PER_SEC as nat * k) * one_unit(),
        0 <= seconds_sum(s, k),
        forall|i: int|
            0 <= i < k ==> 0 <= seconds((#[trigger] s[i])@).value() <= seconds_sum(s, k),
    decreases k,
{
    let u = one_unit();
    let g = NANOS_PER_SEC as nat;
    if k == 0 {
        lemma_one();
        assert(s.take(0) =~= Seq::<Duration>::empty());
        assert(total_nanos(s.take(0)) == 0);
        assert(4096 * (g * 0) <= (4225 * 0 + 4160 * g * 0) * u) by (nonlinear_arith);
    } else {
        let j = (k - 1) as nat;
        lemma_seconds_sum(s, j);
        lemma_each_below_total(s, k);
        let x = s[j as int]@;
        lemma_seconds(x);
        lemma_seconds_above(x);
        assert(s.take(k as int).drop_last() =~= s.take(j as int));
        assert(s.take(k as int).last() == s[j as int]);
        let before = seconds_sum(s, j);
        let v = seconds(x).value();
        let t = total_nanos(s.take(j as int));
        assert(4096 * (g * (before + v)) <= (4225 * (t + x) + 4160 * g * k) * u)
            by (nonlinear_arith)
            requires
                4096 * (g * before) <= (4225 * t + 4160 * g * j) * u,
                4096 * (g * v) <= (4225 * x + 4160 * g) * u,
                k == j + 1,
        ;
    }
}

/// The seconds of all measurements together are within reach.
proof fn lemma_sum_within_reach(s: Seq<Duration>)
    requires
        s.len() < 0x1_0000_0000,
        total_nanos(s) < LIMIT,
    ensures
        seconds_sum(s, s.len()) <= reach(),
{
    let n = s.len();
    lemma_one();
    lemma_seconds_sum(s, n);
    assert(s.take(n as int) =~= s);
    lemma_reach(seconds_sum(s, n), total_nanos(s), n, one_unit());
}

/// The mean is a span of time, and as many times its seconds as there are measurements are within
/// reach.
proof fn lemma_mean_within_reach(q: nat, t: nat, n: nat)
    requires
        0 < n < 0x1_0000_0000,
        t < LIMIT,
        q == t / n,
    ensures
        q < LIMIT,
        0 <= n * seconds(q).value() <= reach(),
{
    let u = one_unit();
    let g = NANOS_PER_SEC as nat;
    lemma_one();
    lemma_fundamental_div_mod(t as int, n as int);
    let r = t % n;
    assert(q * n <= t) by (nonlinear_arith)
        requires
            t == n * q + r,
            r >= 0,
    ;
    assert(q <= t) by (nonlinear_arith)
        requires
            q * n <= t,
            n > 0,
            q >= 0,
    ;
    lemma_seconds(q);
    lemma_seconds_above(q);
    lemma_mean_times(seconds(q).value(), q, t, n, u);
    lemma_reach(n * seconds(q).value(), t, n, u);
}

proof fn lemma_mean_times(m: int, q: nat, t: nat, n: nat, u: nat)
    requires
        4096 * (NANOS_PER_SEC as nat * m) <= (4225 * q + 4160 * NANOS_PER_SEC as nat) * u,
        q * n <= t,
        m >= 0,
    ensures
        4096 * (NANOS_PER_SEC as nat * (n * m)) <= (4225 * t + 4160 * NANOS_PER_SEC as nat * n) * u,
        0 <= n * m,
{
    let g = NANOS_PER_SEC as nat;
    assert(4096 * (g * (n * m)) <= (4225 * t + 4160 * g * n) * u) by (nonlinear_arith)
        requires
            4096 * (g * m) <= (4225 * q + 4160 * g) * u,
            q * n <= t,
            n >= 0,
            u >= 0,
            g >= 0,
    ;
    assert(0 <= n * m) by (nonlinear_arith)
        requires
            n >= 0,
            m >= 0,
    ;
}

proof fn lemma_reach(v: int, t: nat, n: nat, u: nat)
    requires
        4096 * (NANOS_PER_SEC as nat * v) <= (4225 * t + 4160 * NANOS_PER_SEC as nat * n) * u,
        t < LIMIT,
        n < 0x1_0000_0000,
        u > 0,
    ensures
        v <= 17 * 0x1000_0000_0000_0000 * u,
{
    let g: int = 1_000_000_000;
    assert(4225 * t + 4160 * g * n <= 4096 * (g * (17 * 0x1000_0000_0000_0000)));
    let bound: int = 0x1_1000_0000_0000_0000;
    let c: int = 4225 * t + 4160 * g * n;
    assert(v <= bound * u) by (nonlinear_arith)
        requires
            4096 * (g * v) <= c * u,
            c <= 4096 * (g * bound),
            u > 0,
            g == 1_000_000_000,
    ;
}

/// The square of a difference of numbers that are not negative is not much more than the squares of
/// both together.
proof fn lemma_squared_difference(v: Float64, m: Float64)
    requires
        v.finite(),
        m.finite(),
        0 <= v.value() <= reach(),
        0 <= m.value() <= reach(),
    ensures
        ({
            let d = v.difference(m);
            let p = d.product(d);
            &&& p.finite()
            &&& 0 <= p.value()
            &&& 64 * (p.value() * one_unit()) <= 65 * (v.value() * v.value() + m.value()
                * m.value()) + 64 * one_unit()
        }),
{
    let u = one_unit();
    let top: nat = 0x4830_0000_0000_0000;
    let a = v.value();
    let b = m.value();
    let d = v.difference(m);
    lemma_bounds();
    assert(reach() <= 0x1_0000_0000_0000_0000 * (0x10_0000_0000_0000_0000 * u)) by (nonlinear_arith)
        requires
            reach() == 17 * 0x1000_0000_0000_0000 * u,
            u > 0,
    ;
    lemma_difference_rounded(v, m, top);
    lemma_rounded_encoded(v);
    lemma_rounded_encoded(m.negated());
    assert(m.negated().value() == -b);
    lemma_rounded_monotone(a - b, a);
    lemma_rounded_monotone(-b, a - b);
    let e = abs_nat(d.value());
    assert(e <= a || e <= b);
    assert(e * e <= a * a + b * b) by (nonlinear_arith)
        requires
            0 <= e,
            0 <= a,
            0 <= b,
            e <= a || e <= b,
    ;
    let r = reach();
    assert(e * e <= r * r) by (nonlinear_arith)
        requires
            0 <= e <= r,
    ;
    assert(r * r <= (0x1_0000_0000_0000_0000 * (0x10_0000_0000_0000_0000 * u)) * u)
        by (nonlinear_arith)
        requires
            r == 17 * 0x1000_0000_0000_0000 * u,
            u > 0,
    ;
    lemma_nearest_at_most(e * e, u, top);
    lemma_nearest_above(e * e, u);
    lemma_nearest_value(e * e, u);
}

/// What rounding adds, at most, to a sum of squares.
spec fn slip() -> nat {
    0x2000_0000_0000_0000_0000 * one_unit()
}

/// A sum of squares is not rounded up by much.
proof fn lemma_added_square(a: Float64, b: Float64)
    requires
        a.finite(),
        b.finite(),
        0 <= a.value(),
        0 <= b.value(),
        a.value() + b.value() <= 0x1_0000_0000_0000_0000 * (0x4_0000_0000_0000_0000 * one_unit()),
    ensures
        a.sum(b).finite(),
        0 <= a.sum(b).value() <= a.value() + b.value() + slip(),
{
    let u = one_unit();
    let v = a.value() + b.value();
    lemma_bounds();
    lemma_sum_rounded(a, b, 0x4810_0000_0000_0000);
    lemma_rounded_bound(v, 0x4810_0000_0000_0000);
    lemma_rounding_error(v);
    let e = abs_nat(rounded(v) - v);
    let w = slip();
    assert(e <= w) by (nonlinear_arith)
        requires
            2 * BINADE * e <= 0x1_0000_0000_0000_0000 * (0x4_0000_0000_0000_0000 * u),
            BINADE == 0x10_0000_0000_0000,
            w == 0x2000_0000_0000_0000_0000 * u,
            u > 0,
    ;
    lemma_rounded_encoded(Float64 { bits: 0 });
    lemma_sign(Float64 { bits: 0 });
    lemma_rounded_monotone(0, v);
}

proof fn lemma_seconds_sum_grows(s: Seq<Duration>, k: nat, n: nat)
    requires
        k <= n <= s.len(),
        total_nanos(s) < LIMIT,
    ensures
        0 <= seconds_sum(s, k) <= seconds_sum(s, n),
    decreases n - k,
{
    lemma_seconds_sum(s, k);
    if k < n {
        lemma_seconds_sum(s, k + 1);
        assert(0 <= seconds(s[k as int]@).value());
        lemma_seconds_sum_grows(s, k + 1, n);
    }
}

/// The seconds of a measurement, alone and together with those before it, are within reach.
proof fn lemma_one_measurement(s: Seq<Duration>, j: nat)
    requires
        j < s.len() < 0x1_0000_0000,
        total_nanos(s) < LIMIT,
    ensures
        seconds(s[j as int]@).finite(),
        0 <= seconds(s[j as int]@).value() <= reach(),
        0 <= seconds_sum(s, j) + seconds(s[j as int]@).value() <= reach(),
        seconds_sum(s, j + 1) == seconds_sum(s, j) + seconds(s[j as int]@).value(),
{
    let n = s.len();
    lemma_each_below_total(s, n);
    lemma_seconds(s[j as int]@);
    lemma_sum_within_reach(s);
    lemma_seconds_sum_grows(s, j, n);
    lemma_seconds_sum_grows(s, j + 1, n);
}

/// A bound on the sum of the first squares, times a unit and 64.
#[verifier::opaque]
spec fn squares_bound(sum: int, mean: int, k: nat) -> int {
    65 * (sum * reach() + k * (mean * mean)) + k * (64 * (one_unit() * (slip() + 1)))
}

/// The bound stays far below what can be encoded.
proof fn lemma_squares_room(sum: int, mean: int, k: nat, n: nat)
    requires
        0 <= sum <= reach(),
        0 <= mean,
        n * mean <= reach(),
        k <= n < 0x1_0000_0000,
        0 < n,
    ensures
        squares_bound(sum, mean, k) <= 64 * ((0x1_0000_0000_0000_0000 * (0x4_0000_0000_0000_0000
            * one_unit())) * one_unit()),
{
    reveal(squares_bound);
    let u = one_unit();
    let r = reach();
    let w = slip();
    lemma_one();
    assert(sum * r <= r * r) by (nonlinear_arith)
        requires
            0 <= sum <= r,
    ;
    assert(mean <= r) by (nonlinear_arith)
        requires
            n * mean <= r,
            n >= 1,
            mean >= 0,
    ;
    assert(k * (mean * mean) <= r * r) by (nonlinear_arith)
        requires
            0 <= k <= n,
            n * mean <= r,
            0 <= mean <= r,
    ;
    let uu = u * u;
    assert(r * r == 0x1_2100_0000_0000_0000_0000_0000_0000_0000 * uu) by (nonlinear_arith)
        requires
            r == 17 * 0x1000_0000_0000_0000 * u,
            uu == u * u,
    ;
    assert(u * (w + 1) <= 0x2001_0000_0000_0000_0000 * uu) by (nonlinear_arith)
        requires
            w == 0x2000_0000_0000_0000_0000 * u,
            uu == u * u,
            u > 0,
    ;
    let z = u * (w + 1);
    assert(k * (64 * z) <= 0x1_0000_0000 * (64 * (0x2001_0000_0000_0000_0000 * uu)))
        by (nonlinear_arith)
        requires
            0 <= k < 0x1_0000_0000,
            0 <= z <= 0x2001_0000_0000_0000_0000 * uu,
    ;
    assert((0x1_0000_0000_0000_0000 * (0x4_0000_0000_0000_0000 * u)) * u
        == 0x4_0000_0000_0000_0000_0000_0000_0000_0000 * uu) by (nonlinear_arith)
        requires
            uu == u * u,
    ;
    assert(uu > 0) by (nonlinear_arith)
        requires
            u > 0,
            uu == u * u,
    ;
}

/// The bound has room for one more square, and for rounding the sum with it.
proof fn lemma_squares_step(total: int, p: int, sum: int, v: int, m: int, j: nat)
    requires
        64 * (total * one_unit()) <= squares_bound(sum, m, j),
        64 * (p * one_unit()) <= 65 * (v * v + m * m) + 64 * one_unit(),
        0 <= v <= reach(),
    ensures
        64 * ((total + p + slip()) * one_unit()) <= squares_bound(sum + v, m, j + 1),
{
    reveal(squares_bound);
    let u = one_unit();
    let r = reach();
    let w = slip();
    let mm = m * m;
    let e = 64 * (u * (w + 1));
    assert(v * v <= v * r) by (nonlinear_arith)
        requires
            0 <= v <= r,
    ;
    assert((sum + v) * r == sum * r + v * r) by (nonlinear_arith);
    assert((j + 1) * mm == j * mm + mm) by (nonlinear_arith);
    assert((j + 1) * e == j * e + e) by (nonlinear_arith);
    assert((total + p + w) * u == total * u + p * u + w * u) by (nonlinear_arith);
    assert(u * (w + 1) == w * u + u) by (nonlinear_arith);
}

/// With the square of one more deviation, the sum is a number, and within the bound.
proof fn lemma_next_square(before: Float64, v: Float64, mean: Float64, sum: int, j: nat, n: nat)
    requires
        before.finite(),
        0 <= before.value(),
        v.finite(),
        0 <= v.value() <= reach(),
        mean.finite(),
        0 <= mean.value(),
        n * mean.value() <= reach(),
        j < n < 0x1_0000_0000,
        0 <= sum + v.value() <= reach(),
        64 * (before.value() * one_unit()) <= squares_bound(sum, mean.value(), j),
    ensures
        ({
            let d = v.difference(mean);
            let after = before.sum(d.product(d));
            &&& after.finite()
            &&& 0 <= after.value()
            &&& 64 * (after.value() * one_unit()) <= squares_bound(
                sum + v.value(),
                mean.value(),
                j + 1,
            )
        }),
{
    let u = one_unit();
    let m = mean.value();
    let d = v.difference(mean);
    let p = d.product(d);
    lemma_one();
    assert(m <= reach()) by (nonlinear_arith)
        requires
            n * m <= reach(),
            n >= 1,
            m >= 0,
    ;
    lemma_squared_difference(v, mean);
    lemma_squares_step(before.value(), p.value(), sum, v.value(), m, j);
    lemma_squares_room(sum + v.value(), m, j + 1, n);
    lemma_round_next(before, p, squares_bound(sum + v.value(), m, j + 1));
}

proof fn lemma_round_next(before: Float64, p: Float64, bound: int)
    requires
        before.finite(),
        0 <= before.value(),
        p.finite(),
        0 <= p.value(),
        64 * ((before.value() + p.value() + slip()) * one_unit()) <= bound,
        bound <= 64 * ((0x1_0000_0000_0000_0000 * (0x4_0000_0000_0000_0000 * one_unit()))
            * one_unit()),
    ensures
        before.sum(p).finite(),
        0 <= before.sum(p).value(),
        64 * (before.sum(p).value() * one_unit()) <= bound,
{
    let u = one_unit();
    let t = before.value() + p.value();
    let top = 0x1_0000_0000_0000_0000 * (0x4_0000_0000_0000_0000 * u);
    let w = slip();
    lemma_one();
    assert(t <= top) by (nonlinear_arith)
        requires
            64 * ((t + w) * u) <= 64 * (top * u),
            u > 0,
            w >= 0,
    ;
    lemma_added_square(before, p);
    let after = before.sum(p).value();
    assert(after * u <= (t + w) * u) by (nonlinear_arith)
        requires
            after <= t + w,
            u > 0,
    ;
}

proof fn lemma_no_squares(m: int)
    ensures
        (Float64 { bits: 0 }).finite(),
        (Float64 { bits: 0 }).value() == 0,
        64 * (0 * one_unit()) <= squares_bound(0, m, 0),
{
    let u = one_unit();
    reveal(squares_bound);
    lemma_sign(Float64 { bits: 0 });
    assert(64 * (0 * u) <= 65 * (0 * reach() + 0 * (m * m)) + 0 * (64 * (u * (slip() + 1))))
        by (nonlinear_arith);
}

/// The sum of the squares of deviations is a number, and within the bound.
proof fn lemma_squares(s: Seq<Duration>, mean: Float64, k: nat)
    requires
        0 < s.len() < 0x1_0000_0000,
        k <= s.len(),
        total_nanos(s) < LIMIT,
        mean.finite(),
        0 <= mean.value(),
        s.len() * mean.value() <= reach(),
    ensures
        squared_deviations(s, mean, k).finite(),
        0 <= squared_deviations(s, mean, k).value(),
        64 * (squared_deviations(s, mean, k).value() * one_unit()) <= squares_bound(
            seconds_sum(s, k),
            mean.value(),
            k,
        ),
    decreases k,
{
    if k == 0 {
        lemma_no_squares(mean.value());
    } else {
        let j = (k - 1) as nat;
        let before = squared_deviations(s, mean, j);
        let v = seconds(s[j as int]@);
        lemma_squares(s, mean, j);
        lemma_one_measurement(s, j);
        lemma_next_square(before, v, mean, seconds_sum(s, j), j, s.len());
        let d = v.difference(mean);
        assert(squared_deviations(s, mean, k) == before.sum(d.product(d)));
    }
}

/// The mean of the squares of two or more deviations is well below `2^128`.
proof fn lemma_mean_square(total: int, sum: int, m: int, n: nat)
    requires
        2 <= n < 0x1_0000_0000,
        0 <= sum <= reach(),
        0 <= m,
        n * m <= reach(),
        64 * (total * one_unit()) <= squares_bound(sum, m, n),
    ensures
        total <= (15 * 0x1000_0000_0000_0000 * (0x1_0000_0000_0000_0000 * one_unit())) * n,
{
    reveal(squares_bound);
    let u = one_unit();
    let r = reach();
    let w = slip();
    let uu = u * u;
    lemma_one();
    assert(sum * r <= r * r) by (nonlinear_arith)
        requires
            0 <= sum <= r,
    ;
    let nm = n * m;
    assert(n * (n * (m * m)) == nm * nm) by (nonlinear_arith)
        requires
            nm == n * m,
    ;
    assert(nm * nm <= r * r) by (nonlinear_arith)
        requires
            0 <= nm <= r,
    ;
    assert(nm >= 0) by (nonlinear_arith)
        requires
            nm == n * m,
            m >= 0,
    ;
    let rr = 0x1_2100_0000_0000_0000_0000_0000_0000_0000 * uu;
    assert(r * r == rr) by (nonlinear_arith)
        requires
            r == 17 * 0x1000_0000_0000_0000 * u,
            uu == u * u,
            rr == 0x1_2100_0000_0000_0000_0000_0000_0000_0000 * uu,
    ;
    let z = u * (w + 1);
    let zz = 0x2001_0000_0000_0000_0000 * uu;
    assert(z <= zz) by (nonlinear_arith)
        requires
            z == u * (w + 1),
            w == 0x2000_0000_0000_0000_0000 * u,
            uu == u * u,
            u > 0,
            zz == 0x2001_0000_0000_0000_0000 * uu,
    ;
    let a = sum * r;
    let b = n * (m * m);
    let x = total * u;
    // Both sides times the number of measurements.
    assert(n * (64 * x) <= 65 * (n * a + n * b) + n * (n * (64 * z))) by (nonlinear_arith)
        requires
            64 * x <= 65 * (a + b) + n * (64 * z),
            n >= 0,
    ;
    assert(n * a <= n * rr) by (nonlinear_arith)
        requires
            a <= rr,
            n >= 0,
    ;
    let nn = n * n;
    assert(n * (n * (64 * z)) == 64 * (nn * z)) by (nonlinear_arith)
        requires
            nn == n * n,
    ;
    assert(nn * z <= nn * zz) by (nonlinear_arith)
        requires
            z <= zz,
            nn >= 0,
    ;
    assert(nn >= 0) by (nonlinear_arith)
        requires
            nn == n * n,
    ;
    assert(4 * (n + 1) <= 3 * nn) by (nonlinear_arith)
        requires
            nn == n * n,
            n >= 2,
    ;
    assert(4 * (n * rr + rr) <= 3 * (nn * rr)) by (nonlinear_arith)
        requires
            4 * (n + 1) <= 3 * nn,
            rr >= 0,
    ;
    assert(rr >= 0 && uu > 0) by (nonlinear_arith)
        requires
            u > 0,
            uu == u * u,
            rr == 0x1_2100_0000_0000_0000_0000_0000_0000_0000 * uu,
    ;
    let c: int = 0xf000_0000_0000_0000_0000_0000_0000_0000;
    let y = c * uu;
    assert(4 * (n * (64 * x)) <= 195 * (nn * rr) + 256 * (nn * zz));
    assert(195 * (nn * rr) + 256 * (nn * zz) <= 256 * (nn * y)) by (nonlinear_arith)
        requires
            195 * rr + 256 * zz <= 256 * y,
            nn >= 0,
    ;
    assert(n * (64 * x) == 64 * (n * x)) by (nonlinear_arith);
    assert(n * x <= nn * y);
    let top = (15 * 0x1000_0000_0000_0000 * (0x1_0000_0000_0000_0000 * u)) * n;
    assert(total <= top) by (nonlinear_arith)
        requires
            n * x <= nn * y,
            x == total * u,
            nn == n * n,
            y == 0xf000_0000_0000_0000_0000_0000_0000_0000 * (u * u),
            top == (15 * 0x1000_0000_0000_0000 * (0x1_0000_0000_0000_0000 * u)) * n,
            n > 0,
            u > 0,
    ;
}

/// The quotient of the sum of squares by their number is well below `2^128`.
proof fn lemma_variance(total: Float64, n: nat)
    requires
        total.finite(),
        0 <= total.value(),
        0 < n < 0x1_0000_0000,
        total.value() <= magnitude_value(0x47ee_0000_0000_0000) * n,
    ensures
        total.quotient(of_nat(n)).finite(),
        0 <= total.quotient(of_nat(n)).value() <= magnitude_value(0x47ee_0000_0000_0000),
{
    let u = one_unit();
    let m: nat = 0x47ee_0000_0000_0000;
    lemma_one();
    lemma_of_nat(n);
    let _ = lemma_integer_encoded(n);
    lemma_sign(of_nat(n));
    lemma_sign(total);
    let num = abs_nat(total.value()) * u;
    let den = n * u;
    assert(den > 0 && num <= magnitude_value(m) * den) by (nonlinear_arith)
        requires
            n > 0,
            u > 0,
            den == n * u,
            num == abs_nat(total.value()) * u,
            abs_nat(total.value()) <= magnitude_value(m) * n,
    ;
    lemma_nearest_at_most(num, den, m);
    if nearest_magnitude(num, den) < m {
        lemma_magnitude_value_monotone(nearest_magnitude(num, den), m);
    }
    if total.zero() {
        assert(0 * u == 0) by (nonlinear_arith);
        lemma_nearest_zero(den);
    }
}

/// A number of seconds that is well below `2^64` is a span of time.
proof fn lemma_short_span(secs: Float64)
    requires
        secs.finite(),
        0 <= secs.value() <= magnitude_value(0x43ef_0000_0000_0000),
    ensures
        is_span(secs),
{
    let u = one_unit();
    let g = NANOS_PER_SEC as nat;
    let k: nat = 31 * 0x800_0000_0000_0000 * 1_000_000_000;
    let num = abs_nat(secs.value()) * g;
    lemma_bounds();
    assert(num <= k * u) by (nonlinear_arith)
        requires
            num == abs_nat(secs.value()) * g,
            abs_nat(secs.value()) <= 31 * 0x800_0000_0000_0000 * u,
            g == 1_000_000_000,
            k == 31 * 0x800_0000_0000_0000 * 1_000_000_000,
            u > 0,
    ;
    lemma_fundamental_div_mod(num as int, u as int);
    let q = num / u;
    let r = num % u;
    assert(q <= k) by (nonlinear_arith)
        requires
            num == u * q + r,
            0 <= r,
            num <= k * u,
            u > 0,
    ;
    assert(nearest_nanos(secs) <= k + 1);
}

/// The root of the mean of squares is a span of time.
proof fn lemma_root_is_span(total: Float64, n: nat)
    requires
        total.finite(),
        0 <= total.value(),
        0 < n < 0x1_0000_0000,
        total.value() <= magnitude_value(0x47ee_0000_0000_0000) * n,
    ensures
        is_span(total.quotient(of_nat(n)).root()),
{
    let u = one_unit();
    let variance = total.quotient(of_nat(n));
    lemma_variance(total, n);
    lemma_bounds();
    let a = magnitude_value(0x47ee_0000_0000_0000);
    let b = magnitude_value(0x43ef_0000_0000_0000);
    let v = abs_nat(variance.value());
    assert(v * u <= b * b) by (nonlinear_arith)
        requires
            0 <= v <= a,
            a == 15 * 0x1000_0000_0000_0000 * (0x1_0000_0000_0000_0000 * u),
            b == 31 * 0x800_0000_0000_0000 * u,
            u > 0,
    ;
    lemma_root_at_most(variance, 0x43ef_0000_0000_0000);
    lemma_short_span(variance.root());
}

/// The deviation of measurements that together are a span of time is one too.
proof fn lemma_deviation_is_span(s: Seq<Duration>)
    requires
        1 < s.len() < 0x1_0000_0000,
        total_nanos(s) < LIMIT,
    ensures
        is_span(deviation_secs(s)),
{
    let n = s.len();
    let q = mean_nanos(s);
    let mean = seconds(q);
    assert(divisor(s) == n);
    lemma_mean_within_reach(q, total_nanos(s), n);
    lemma_seconds(q);
    lemma_squares(s, mean, n);
    lemma_sum_within_reach(s);
    lemma_seconds_sum_grows(s, n, n);
    let squares = squared_deviations(s, mean, n);
    lemma_mean_square(squares.value(), seconds_sum(s, n), mean.value(), n);
    lemma_bounds();
    lemma_root_is_span(squares, n);
}

/// Fewer than `2^32` measurements that together are a span of time have a mean and a deviation that
/// are spans of time.
pub proof fn lemma_measurable(s: Seq<Duration>)
    requires
        s.len() < 0x1_0000_0000,
        total_nanos(s) < LIMIT,
    ensures
        measurable(s),
{
    if s.len() > 1 {
        lemma_deviation_is_span(s);
    } else if s.len() == 1 {
        assert(s =~= seq![s[0]]);
        assert(s.drop_last() =~= Seq::<Duration>::empty());
        assert(total_nanos(s.drop_last()) == 0);
        lemma_single_deviation(s[0]);
        lemma_no_span();
    }
}

} // verus!
