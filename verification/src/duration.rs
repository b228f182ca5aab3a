//! Spans of time.
use vstd::prelude::*;
use vstd::arithmetic::div_mod::{lemma_fundamental_div_mod, lemma_fundamental_div_mod_converse};
use vstd::arithmetic::power2::pow2;
use vstd::arithmetic::power2::{
    lemma2_to64_rest, lemma_pow2_adds, lemma_pow2_pos, lemma_pow2_strictly_increases,
    lemma_pow2_unfold,
};
use crate::float::arith::{
    abs_nat, lemma_magnitude_value_zero, lemma_nearest_zero, of_nat, one_unit, split,
};
use crate::float::encoding::{
    lemma_magnitude_value_monotone, magnitude_value, Float64, BINADE, INFINITE,
};
use crate::float::monotone::{
    lemma_nearest_at_most, lemma_nearest_value, lemma_of_nat, lemma_of_nat_monotone, lemma_one,
    lemma_quotient_at_most_one,
};
use crate::float::rounding::{
    lemma_nearest_even_exact, lemma_nearest_even_scaled, nearest_even, nearest_magnitude,
    power_of_two,
};
use crate::float::text::nearest_shifted;

verus! {

/// Nanoseconds in a second.
pub const NANOS_PER_SEC: u128 = 1_000_000_000;

/// Nanoseconds that a span can have, at most: what `u64::MAX` seconds and all nanoseconds below
/// the next one come to, and one more.
pub const LIMIT: u128 = 18_446_744_073_709_551_616_000_000_000;

/// A span of time, in nanoseconds.
#[derive(Clone, Copy, Debug, PartialEq, Eq, PartialOrd, Ord, Hash, Structural)]
pub struct Duration {
    nanos: u128,
}

impl View for Duration {
    type V = nat;

    closed spec fn view(&self) -> nat {
        self.nanos as nat
    }
}

/// `nanos` nanoseconds in seconds.
pub open spec fn seconds(nanos: nat) -> Float64 {
    of_nat(nanos / NANOS_PER_SEC as nat).sum(
        of_nat(nanos % NANOS_PER_SEC as nat).quotient(of_nat(NANOS_PER_SEC as nat)),
    )
}

/// The nanoseconds nearest to `secs` seconds.
pub open spec fn nearest_nanos(secs: Float64) -> nat {
    nearest_even(abs_nat(secs.value()) * NANOS_PER_SEC as nat, one_unit())
}

/// Whether `secs` seconds are a span of time.
pub open spec fn is_span(secs: Float64) -> bool {
    secs.finite() && secs.value() >= 0 && nearest_nanos(secs) < LIMIT
}

/// A span in seconds is a number that is not negative, and at most `2^65`.
pub proof fn lemma_seconds(nanos: nat)
    requires
        nanos < LIMIT,
    ensures
        seconds(nanos).finite(),
        !seconds(nanos).negative(),
        0 <= seconds(nanos).value() <= pow2(1139),
{
    let whole = of_nat(nanos / NANOS_PER_SEC as nat);
    let fraction = nanos % NANOS_PER_SEC as nat;
    let part = of_nat(fraction).quotient(of_nat(NANOS_PER_SEC as nat));
    assert(0 * one_unit() == 0) by (nonlinear_arith);
    lemma_nearest_zero(1);
    lemma_magnitude_value_zero(0);
    lemma_one();
    lemma_pow2_pos(1138);
    lemma_pow2_pos(1139);
    if nanos / NANOS_PER_SEC as nat > 0 {
        lemma_of_nat(nanos / NANOS_PER_SEC as nat);
    }
    if fraction > 0 {
        lemma_of_nat(fraction);
    }
    lemma_of_nat(NANOS_PER_SEC as nat);
    lemma_of_nat_monotone(fraction, NANOS_PER_SEC as nat);
    lemma_quotient_at_most_one(of_nat(fraction), of_nat(NANOS_PER_SEC as nat));
    let v = whole.value() + part.value();
    if v != 0 {
        let top: nat = 0x4400_0000_0000_0000;
        assert(top / BINADE as nat == 1088 && top % BINADE as nat == 0);
        lemma2_to64_rest();
        lemma_pow2_adds(52, 1087);
        lemma_pow2_unfold(1139);
        lemma_pow2_strictly_increases(1074, 1138);
        lemma_nearest_at_most(v as nat, 1, top);
        lemma_nearest_value(v as nat, 1);
        assert(magnitude_value(top) == pow2(1139));
        if nearest_magnitude(v as nat, 1) < top {
            lemma_magnitude_value_monotone(nearest_magnitude(v as nat, 1), top);
        }
    }
}

impl Duration {
    #[verifier::type_invariant]
    spec fn in_range(self) -> bool {
        self.nanos < LIMIT
    }

    /// Two spans with as many nanoseconds are the same span.
    pub proof fn lemma_same(a: Duration, b: Duration)
        ensures
            a@ == b@ <==> a == b,
    {
    }

    /// `secs` seconds and `nanos` nanoseconds.
    pub fn new(secs: u64, nanos: u32) -> (r: Duration)
        requires
            secs * NANOS_PER_SEC + nanos < LIMIT,
        ensures
            r@ == secs * NANOS_PER_SEC + nanos,
    {
        Duration { nanos: secs as u128 * NANOS_PER_SEC + nanos as u128 }
    }

    /// `secs` seconds.
    pub fn from_secs(secs: u64) -> (r: Duration)
        ensures
            r@ == secs * NANOS_PER_SEC,
    {
        Duration { nanos: secs as u128 * NANOS_PER_SEC }
    }

    /// `millis` milliseconds.
    pub fn from_millis(millis: u64) -> (r: Duration)
        ensures
            r@ == millis * 1_000_000,
    {
        Duration { nanos: millis as u128 * 1_000_000 }
    }

    /// The span in nanoseconds.
    pub fn as_nanos(&self) -> (r: u128)
        ensures
            r == self@,
            r < LIMIT,
    {
        proof {
            use_type_invariant(self);
        }
        self.nanos
    }

    /// The whole milliseconds of the span.
    pub fn as_millis(&self) -> (r: u128)
        ensures
            r == self@ / 1_000_000,
    {
        self.nanos / 1_000_000
    }

    /// The whole seconds of the span.
    pub fn as_secs(&self) -> (r: u64)
        ensures
            r == self@ / NANOS_PER_SEC as nat,
    {
        proof {
            use_type_invariant(self);
        }
        (self.nanos / NANOS_PER_SEC) as u64
    }

    /// The nanoseconds of the span beyond its whole seconds.
    pub fn subsec_nanos(&self) -> (r: u32)
        ensures
            r == self@ % NANOS_PER_SEC as nat,
    {
        (self.nanos % NANOS_PER_SEC) as u32
    }

    /// The span in seconds.
    pub fn as_secs_f64(&self) -> (r: Float64)
        ensures
            r == seconds(self@),
    {
        let whole: Float64 = Float64::from_u64(self.as_secs());
        let part: Float64 = Float64::from_u64(self.subsec_nanos() as u64);
        whole.plus(part.over(Float64::from_u64(1_000_000_000)))
    }

    /// Whether this span is shorter than `other`.
    pub fn shorter(&self, other: &Duration) -> (r: bool)
        ensures
            r == (self@ < other@),
    {
        self.nanos < other.nanos
    }

    /// Whether this span is as long as `other`.
    pub fn same(&self, other: &Duration) -> (r: bool)
        ensures
            r == (self@ == other@),
            r == (*self == *other),
    {
        self.nanos == other.nanos
    }

    /// The two spans together, where that is a span.
    pub fn checked_add(&self, other: Duration) -> (r: Option<Duration>)
        ensures
            match r {
                Some(d) => d@ == self@ + other@ && self@ + other@ < LIMIT,
                None => self@ + other@ >= LIMIT,
            },
    {
        proof {
            use_type_invariant(self);
            use_type_invariant(&other);
        }
        let n: u128 = self.nanos + other.nanos;
        if n < LIMIT {
            Some(Duration { nanos: n })
        } else {
            None
        }
    }

    /// The two spans together.
    pub fn plus(&self, other: Duration) -> (r: Duration)
        requires
            self@ + other@ < LIMIT,
        ensures
            r@ == self@ + other@,
    {
        Duration { nanos: self.nanos + other.nanos }
    }

    /// The whole nanoseconds of the `n`th part of the span.
    pub fn part(&self, n: u32) -> (r: Duration)
        requires
            n > 0,
        ensures
            r@ == self@ / n as nat,
    {
        proof {
            use_type_invariant(self);
            let q = self.nanos as nat / n as nat;
            lemma_fundamental_div_mod(self.nanos as int, n as int);
            assert(q <= self.nanos) by (nonlinear_arith)
                requires
                    self.nanos == n * q + self.nanos as int % n as int,
                    self.nanos as int % n as int >= 0,
                    n >= 1,
                    q >= 0,
            ;
        }
        Duration { nanos: self.nanos / (n as u128) }
    }

    /// `secs` seconds to the nearest nanosecond, where that is a span of time.
    pub fn try_from_secs_f64(secs: Float64) -> (r: Option<Duration>)
        ensures
            match r {
                Some(d) => is_span(secs) && d@ == nearest_nanos(secs),
                None => !is_span(secs),
            },
    {
        let a: u64 = secs.mag();
        let ghost v = magnitude_value(a as nat);
        proof {
            lemma_pow2_pos(1074);
            lemma_magnitude_value_zero(a as nat);
        }
        if a >= INFINITE {
            return None;
        }
        assert(abs_nat(secs.value()) == v);
        if a == 0 {
            proof {
                assert(v * NANOS_PER_SEC == 0) by (nonlinear_arith)
                    requires
                        v == 0,
                ;
                lemma_fundamental_div_mod_converse(0, one_unit() as int, 0, 0);
            }
            return Some(Duration { nanos: 0 });
        }
        if secs.is_negative() {
            return None;
        }
        let (s, e): (u64, i32) = split(a);
        if e < 1074 {
            let n: u128 = s as u128 * NANOS_PER_SEC;
            let r: u128 = nearest_shifted(n, (1074 - e) as u32);
            proof {
                let f = (1074 - e) as nat;
                let pe = pow2(e as nat);
                lemma_pow2_pos(e as nat);
                lemma_pow2_pos(f);
                lemma_pow2_adds(f, e as nat);
                assert(v * NANOS_PER_SEC == n * pe) by (nonlinear_arith)
                    requires
                        v == s * pe,
                        n == s * NANOS_PER_SEC,
                ;
                lemma_nearest_even_scaled(n as nat, pow2(f), pe);
            }
            Some(Duration { nanos: r })
        } else {
            let k: i32 = e - 1074;
            let ghost pk = pow2(k as nat);
            proof {
                lemma_pow2_adds(k as nat, 1074);
                assert(v * NANOS_PER_SEC == (s * pk * NANOS_PER_SEC) * one_unit())
                    by (nonlinear_arith)
                    requires
                        v == s * pow2(e as nat),
                        pow2(e as nat) == pk * one_unit(),
                ;
                assert(s * pk * NANOS_PER_SEC >= 0) by (nonlinear_arith)
                    requires
                        s >= 0,
                        pk >= 0,
                        NANOS_PER_SEC == 1_000_000_000,
                ;
                lemma_nearest_even_exact((s * pk * NANOS_PER_SEC) as nat, one_unit());
                lemma2_to64_rest();
                if k > 64 {
                    lemma_pow2_strictly_increases(64, k as nat);
                } else if k < 64 {
                    lemma_pow2_strictly_increases(k as nat, 64);
                }
            }
            if k >= 64 {
                proof {
                    assert(s * pk * NANOS_PER_SEC >= 0x1_0000_0000_0000_0000 * NANOS_PER_SEC)
                        by (nonlinear_arith)
                        requires
                            s >= 1,
                            pk >= 0x1_0000_0000_0000_0000,
                            NANOS_PER_SEC == 1_000_000_000,
                    ;
                }
                return None;
            }
            let p: u128 = power_of_two(k as u32);
            proof {
                assert(s * p <= 0x20_0000_0000_0000 * 0x1_0000_0000_0000_0000) by (nonlinear_arith)
                    requires
                        0 < s < 0x20_0000_0000_0000,
                        0 <= p <= 0x1_0000_0000_0000_0000,
                ;
            }
            let whole: u128 = s as u128 * p;
            if whole <= u64::MAX as u128 {
                Some(Duration { nanos: whole * NANOS_PER_SEC })
            } else {
                None
            }
        }
    }
}

} // verus!
