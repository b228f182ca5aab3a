//! Spans of time in seconds.
use vstd::prelude::*;
use vstd::arithmetic::div_mod::{lemma_fundamental_div_mod, lemma_fundamental_div_mod_converse};
use vstd::arithmetic::power2::{
    lemma2_to64_rest, lemma_pow2_adds, lemma_pow2_pos, lemma_pow2_strictly_increases,
    lemma_pow2_unfold, pow2,
};
use crate::duration::{nearest_nanos, seconds, Duration, LIMIT, NANOS_PER_SEC};
use crate::float::arith::{
    abs_nat, lemma_magnitude_value_zero, lemma_nearest_zero, of_nat, one_unit,
};
use crate::float::encoding::{lemma_magnitude_value_monotone, magnitude_value, Float64, BINADE};
use crate::float::monotone::{
    lemma_integer_encoded, lemma_nearest_at_least, lemma_nearest_monotone, lemma_nearest_value,
    lemma_of_nat, lemma_of_nat_monotone, lemma_one, lemma_quotient_at_most_one, lemma_sign,
};
use crate::float::rounding::{lemma_nearest_even_exact, nearest_magnitude};
use crate::float::same::lemma_zero_quotient;
use crate::float::sums::{
    lemma_rounded_encoded, lemma_rounded_monotone, lemma_sum_rounded, rounded,
};

verus! {

/// The part of a second that nanoseconds are.
pub open spec fn fraction(nanos: nat) -> Float64 {
    of_nat(nanos).quotient(of_nat(NANOS_PER_SEC as nat))
}

proof fn lemma_of_zero()
    ensures
        of_nat(0).finite(),
        !of_nat(0).negative(),
        of_nat(0).value() == 0,
{
    assert(0 * one_unit() == 0) by (nonlinear_arith);
    lemma_nearest_zero(1);
    lemma_magnitude_value_zero(0);
    lemma_sign(of_nat(0));
}

/// Nanoseconds below a second are more than no time, and at most a second.
proof fn lemma_fraction(nanos: nat)
    requires
        nanos < NANOS_PER_SEC,
    ensures
        fraction(nanos).finite(),
        !fraction(nanos).negative(),
        0 <= fraction(nanos).value() <= one_unit(),
        nanos == 0 <==> fraction(nanos).value() == 0,
{
    let f = of_nat(nanos);
    let s = of_nat(NANOS_PER_SEC as nat);
    let u = one_unit();
    lemma_one();
    lemma_of_zero();
    lemma_of_nat(NANOS_PER_SEC as nat);
    lemma_sign(s);
    if nanos > 0 {
        lemma_of_nat(nanos);
    }
    lemma_of_nat_monotone(nanos, NANOS_PER_SEC as nat);
    lemma_quotient_at_most_one(f, s);
    let num = abs_nat(f.value()) * u;
    let den = abs_nat(s.value());
    lemma_nearest_value(num, den);
    if nanos == 0 {
        assert(0 * u == 0) by (nonlinear_arith);
        lemma_nearest_zero(den);
        lemma_magnitude_value_zero(0);
    } else {
        let m = lemma_integer_encoded(NANOS_PER_SEC as nat);
        assert(NANOS_PER_SEC <= u) by {
            lemma2_to64_rest();
            lemma_pow2_strictly_increases(63, 1074);
        }
        assert(NANOS_PER_SEC * u <= u * u) by (nonlinear_arith)
            requires
                NANOS_PER_SEC <= u,
        ;
        assert(u * u <= num) by (nonlinear_arith)
            requires
                u <= abs_nat(f.value()),
                num == abs_nat(f.value()) * u,
        ;
        assert(magnitude_value(1) == 1) by {
            lemma_pow2_pos(0);
        }
        assert(magnitude_value(1) * den <= num) by (nonlinear_arith)
            requires
                magnitude_value(1) == 1,
                den <= num,
        ;
        lemma_nearest_at_least(num, den, 1);
        lemma_magnitude_value_zero(nearest_magnitude(num, den));
    }
}

/// A span in seconds is the sum of its whole seconds and of what is left, rounded.
proof fn lemma_parts(nanos: nat)
    requires
        nanos < LIMIT,
    ensures
        seconds(nanos).value() == rounded(
            of_nat(nanos / NANOS_PER_SEC as nat).value() + fraction(
                nanos % NANOS_PER_SEC as nat,
            ).value(),
        ),
{
    let whole = of_nat(nanos / NANOS_PER_SEC as nat);
    let part = fraction(nanos % NANOS_PER_SEC as nat);
    lemma_fraction(nanos % NANOS_PER_SEC as nat);
    lemma_of_zero();
    if nanos / NANOS_PER_SEC as nat > 0 {
        lemma_of_nat(nanos / NANOS_PER_SEC as nat);
    }
    let top: nat = 0x4400_0000_0000_0000;
    assert(top / BINADE as nat == 1088 && top % BINADE as nat == 0);
    lemma2_to64_rest();
    lemma_pow2_adds(52, 1087);
    lemma_pow2_unfold(1139);
    lemma_pow2_pos(1138);
    lemma_pow2_strictly_increases(1074, 1138);
    assert(magnitude_value(top) == pow2(1139));
    lemma_sum_rounded(whole, part, top);
}

/// Any time at all is more than no seconds.
pub proof fn lemma_some_seconds(nanos: nat)
    requires
        0 < nanos < LIMIT,
    ensures
        seconds(nanos).value() > 0,
{
    let w = nanos / NANOS_PER_SEC as nat;
    let f = nanos % NANOS_PER_SEC as nat;
    lemma_parts(nanos);
    lemma_fraction(f);
    lemma_of_zero();
    if w > 0 {
        lemma_of_nat(w);
    }
    lemma_one();
    let v = of_nat(w).value() + fraction(f).value();
    assert(v > 0);
    assert(magnitude_value(1) == 1) by {
        lemma_pow2_pos(0);
    }
    lemma_nearest_at_least(v as nat, 1, 1);
    lemma_magnitude_value_zero(nearest_magnitude(v as nat, 1));
}

/// Whole seconds are counted exactly, up to `2^53` of them, and turned back into the same span.
pub proof fn lemma_whole_seconds(n: nat)
    requires
        n < 2 * BINADE,
    ensures
        seconds(n * NANOS_PER_SEC as nat) == of_nat(n),
        seconds(n * NANOS_PER_SEC as nat).value() == n * one_unit(),
        nearest_nanos(seconds(n * NANOS_PER_SEC as nat)) == n * NANOS_PER_SEC,
{
    let nanos = n * NANOS_PER_SEC as nat;
    let u = one_unit();
    lemma_fundamental_div_mod_converse(nanos as int, NANOS_PER_SEC as int, n as int, 0);
    lemma_parts(nanos);
    lemma_fraction(0);
    lemma_of_zero();
    if n > 0 {
        let m = lemma_integer_encoded(n);
    } else {
        assert(0 * u == 0) by (nonlinear_arith);
    }
    lemma_rounded_encoded(of_nat(n));
    lemma_one();
    lemma_of_nat(NANOS_PER_SEC as nat);
    assert(0nat * u == 0) by (nonlinear_arith);
    lemma_nearest_zero(1);
    lemma_zero_quotient(of_nat(NANOS_PER_SEC as nat));
    let s = NANOS_PER_SEC as nat;
    assert(0 <= n * u) by (nonlinear_arith);
    assert((n * u) * s == (n * s) * u) by (nonlinear_arith);
    lemma_nearest_even_exact(n * s, u);
}

/// A longer span has at least as many seconds, where whole seconds are counted exactly.
pub proof fn lemma_seconds_monotone(a: nat, b: nat)
    requires
        a <= b < 2 * BINADE * NANOS_PER_SEC,
    ensures
        seconds(a).value() <= seconds(b).value(),
{
    let s = NANOS_PER_SEC as nat;
    let u = one_unit();
    let wa = a / s;
    let wb = b / s;
    let fa = a % s;
    let fb = b % s;
    lemma_fundamental_div_mod(a as int, s as int);
    lemma_fundamental_div_mod(b as int, s as int);
    assert(wa <= wb && wb < 2 * BINADE) by (nonlinear_arith)
        requires
            a == s * wa + fa,
            b == s * wb + fb,
            0 <= fa < s,
            0 <= fb < s,
            a <= b,
            b < 2 * BINADE * s,
            s == NANOS_PER_SEC,
    ;
    lemma_parts(a);
    lemma_parts(b);
    lemma_fraction(fa);
    lemma_fraction(fb);
    lemma_of_zero();
    lemma_one();
    if wa > 0 {
        let m = lemma_integer_encoded(wa);
    } else {
        assert(0 * u == 0) by (nonlinear_arith);
    }
    if wb > 0 {
        let m = lemma_integer_encoded(wb);
    } else {
        assert(0 * u == 0) by (nonlinear_arith);
    }
    let va = of_nat(wa).value() + fraction(fa).value();
    let vb = of_nat(wb).value() + fraction(fb).value();
    if wa == wb {
        assert(fa <= fb);
        lemma_fraction_monotone(fa, fb);
    } else {
        assert(wb * u >= wa * u + u) by (nonlinear_arith)
            requires
                wb >= wa + 1,
                u >= 0,
        ;
    }
    lemma_rounded_monotone(va, vb);
}

proof fn lemma_fraction_monotone(a: nat, b: nat)
    requires
        a <= b < NANOS_PER_SEC,
    ensures
        fraction(a).value() <= fraction(b).value(),
{
    let s = of_nat(NANOS_PER_SEC as nat);
    let u = one_unit();
    lemma_one();
    lemma_of_zero();
    lemma_of_nat(NANOS_PER_SEC as nat);
    lemma_sign(s);
    if a > 0 {
        lemma_of_nat(a);
    }
    if b > 0 {
        lemma_of_nat(b);
    }
    lemma_of_nat_monotone(a, b);
    let x = abs_nat(of_nat(a).value()) * u;
    let y = abs_nat(of_nat(b).value()) * u;
    let den = abs_nat(s.value());
    assert(x <= y) by (nonlinear_arith)
        requires
            x == abs_nat(of_nat(a).value()) * u,
            y == abs_nat(of_nat(b).value()) * u,
            abs_nat(of_nat(a).value()) <= abs_nat(of_nat(b).value()),
    ;
    lemma_nearest_monotone(x, y, den);
    lemma_nearest_value(x, den);
    lemma_nearest_value(y, den);
    if nearest_magnitude(x, den) < nearest_magnitude(y, den) {
        lemma_magnitude_value_monotone(nearest_magnitude(x, den), nearest_magnitude(y, den));
    }
}

/// A span of milliseconds has that many milliseconds, and a span of seconds that many seconds and
/// no nanoseconds beyond them.
pub proof fn lemma_units(
    count: u64,
    millis: Duration,
    secs: Duration,
    as_millis: u128,
    as_secs: u64,
    rest: u32,
)
    requires
        call_ensures(Duration::from_millis, (count,), millis),
        call_ensures(Duration::as_millis, (&millis,), as_millis),
        call_ensures(Duration::from_secs, (count,), secs),
        call_ensures(Duration::as_secs, (&secs,), as_secs),
        call_ensures(Duration::subsec_nanos, (&secs,), rest),
    ensures
        as_millis == count,
        as_secs == count,
        rest == 0,
        secs@ == 1000 * millis@,
{
    lemma_fundamental_div_mod_converse(
        millis@ as int,
        1_000_000,
        count as int,
        0,
    );
    lemma_fundamental_div_mod_converse(
        secs@ as int,
        NANOS_PER_SEC as int,
        count as int,
        0,
    );
}

} // verus!
