//! Comparison, and conversion to integers.
use vstd::prelude::*;
use vstd::arithmetic::div_mod::{lemma_fundamental_div_mod, lemma_fundamental_div_mod_converse};
use vstd::arithmetic::power2::pow2;
use vstd::arithmetic::power2::{
    lemma2_to64_rest, lemma_pow2_adds, lemma_pow2_pos, lemma_pow2_strictly_increases,
};
use crate::float::arith::{
    abs_nat, lemma_magnitude_value_zero, one_unit, shift_down, split,
};
use crate::float::encoding::{
    Float64, lemma_magnitude_value_monotone, magnitude_value, BINADE, INFINITE, NOT_A_NUMBER,
};
use crate::float::monotone::lemma_one;
use crate::float::rounding::{lemma_scaled_div, power_of_two};

verus! {

/// Encoding of one.
pub const ONE: u64 = 0x3ff0_0000_0000_0000;

/// The largest finite number.
pub const MAX: u64 = 0x7fef_ffff_ffff_ffff;

impl Float64 {
    /// Whether `self < other`.
    pub open spec fn below(self, other: Float64) -> bool {
        !self.nan() && !other.nan() && self.value() < other.value()
    }

    /// Whether `self <= other`.
    pub open spec fn at_most(self, other: Float64) -> bool {
        !self.nan() && !other.nan() && self.value() <= other.value()
    }

    /// Whether `self` and `other` are the same number; both zeros are.
    pub open spec fn same_number(self, other: Float64) -> bool {
        !self.nan() && !other.nan() && self.value() == other.value()
    }

    /// The larger of two numbers, or the one that is a number.
    pub open spec fn larger(self, other: Float64) -> Float64 {
        if self.nan() || self.below(other) {
            other
        } else {
            self
        }
    }

    /// The smaller of two numbers, or the one that is a number.
    pub open spec fn smaller(self, other: Float64) -> Float64 {
        if self.nan() || other.below(self) {
            other
        } else {
            self
        }
    }

    /// The number without its sign.
    pub open spec fn absolute(self) -> Float64 {
        Float64::of(false, self.magnitude())
    }

    /// One with the sign of the number.
    pub open spec fn sign(self) -> Float64 {
        if self.nan() {
            Float64 { bits: NOT_A_NUMBER }
        } else {
            Float64::of(self.negative(), ONE as nat)
        }
    }

    /// The number without its fraction, brought into the range of `usize`; zero where this is not
    /// a number.
    pub open spec fn truncated(self) -> nat {
        if self.nan() || self.negative() {
            0
        } else {
            let n = abs_nat(self.value()) / one_unit();
            if n > usize::MAX {
                usize::MAX as nat
            } else {
                n
            }
        }
    }

    /// Whether `self < other`.
    pub fn lt(self, other: Float64) -> (r: bool)
        ensures
            r == self.below(other),
    {
        let a: u64 = self.mag();
        let b: u64 = other.mag();
        if a > INFINITE || b > INFINITE {
            return false;
        }
        proof {
            lemma_magnitude_value_zero(a as nat);
            lemma_magnitude_value_zero(b as nat);
            if a < b {
                lemma_magnitude_value_monotone(a as nat, b as nat);
            }
            if b < a {
                lemma_magnitude_value_monotone(b as nat, a as nat);
            }
        }
        if self.is_negative() {
            if other.is_negative() {
                b < a
            } else {
                a > 0 || b > 0
            }
        } else {
            !other.is_negative() && a < b
        }
    }

    /// Whether `self <= other`.
    pub fn le(self, other: Float64) -> (r: bool)
        ensures
            r == self.at_most(other),
    {
        !self.is_nan() && !other.is_nan() && !other.lt(self)
    }

    /// Whether `self` and `other` are the same number.
    pub fn num_eq(self, other: Float64) -> (r: bool)
        ensures
            r == self.same_number(other),
    {
        self.le(other) && other.le(self)
    }

    /// The larger of two numbers.
    pub fn max(self, other: Float64) -> (r: Float64)
        ensures
            r == self.larger(other),
    {
        if self.is_nan() || self.lt(other) {
            other
        } else {
            self
        }
    }

    /// The smaller of two numbers.
    pub fn min(self, other: Float64) -> (r: Float64)
        ensures
            r == self.smaller(other),
    {
        if self.is_nan() || other.lt(self) {
            other
        } else {
            self
        }
    }

    /// The number without its sign.
    pub fn abs(self) -> (r: Float64)
        ensures
            r == self.absolute(),
    {
        Float64::with_sign(false, self.mag())
    }

    /// One with the sign of the number.
    pub fn signum(self) -> (r: Float64)
        ensures
            r == self.sign(),
    {
        if self.is_nan() {
            Float64 { bits: NOT_A_NUMBER }
        } else {
            Float64::with_sign(self.is_negative(), ONE)
        }
    }

    /// The number without its fraction.
    pub fn to_usize(self) -> (r: usize)
        ensures
            r == self.truncated(),
    {
        let a: u64 = self.mag();
        if a > INFINITE || self.is_negative() {
            return 0;
        }
        let ghost v = magnitude_value(a as nat);
        assert(abs_nat(self.value()) == v);
        proof {
            lemma_pow2_pos(1074);
        }
        if a == INFINITE {
            proof {
                lemma_infinite_quotient();
            }
            return usize::MAX;
        }
        if a == 0 {
            proof {
                lemma_magnitude_value_zero(0);
                lemma_fundamental_div_mod_converse(0, one_unit() as int, 0, 0);
            }
            return 0;
        }
        let (s, e): (u64, i32) = split(a);
        if e < 1074 {
            let t: i32 = 1074 - e;
            let (low, _lost): (u64, bool) = shift_down(s, t);
            proof {
                lemma_pow2_pos(e as nat);
                lemma_pow2_pos(t as nat);
                lemma_pow2_adds(t as nat, e as nat);
                lemma_scaled_div(s as nat, pow2(t as nat), pow2(e as nat));
            }
            if low as u128 > usize::MAX as u128 {
                usize::MAX
            } else {
                low as usize
            }
        } else {
            let t: i32 = e - 1074;
            let ghost n = v / one_unit();
            proof {
                lemma_pow2_adds(t as nat, 1074);
                let pt = pow2(t as nat);
                assert(v == (s * pt) * one_unit()) by (nonlinear_arith)
                    requires
                        v == s * pow2(e as nat),
                        pow2(e as nat) == pt * one_unit(),
                ;
                assert((s * pt) * one_unit() == one_unit() * (s * pt) + 0) by (nonlinear_arith);
                lemma_fundamental_div_mod_converse(
                    v as int,
                    one_unit() as int,
                    s * pt,
                    0,
                );
            }
            if t > 64 {
                proof {
                    lemma2_to64_rest();
                    lemma_pow2_strictly_increases(64, t as nat);
                    let pt = pow2(t as nat);
                    assert(s * pt >= pt) by (nonlinear_arith)
                        requires
                            s >= 1,
                            pt >= 0,
                    ;
                }
                return usize::MAX;
            }
            let p: u128 = power_of_two(t as u32);
            proof {
                lemma2_to64_rest();
                if t < 64 {
                    lemma_pow2_strictly_increases(t as nat, 64);
                }
                assert(s * p <= 0x20_0000_0000_0000 * 0x1_0000_0000_0000_0000) by (nonlinear_arith)
                    requires
                        0 < s < 0x20_0000_0000_0000,
                        0 <= p <= 0x1_0000_0000_0000_0000,
                ;
            }
            let m: u128 = s as u128 * p;
            if m > usize::MAX as u128 {
                usize::MAX
            } else {
                m as usize
            }
        }
    }
}

proof fn lemma_infinite_quotient()
    ensures
        magnitude_value(INFINITE as nat) / one_unit() >= 0x1_0000_0000_0000_0000,
{
    let v = magnitude_value(INFINITE as nat);
    let u = one_unit();
    lemma_pow2_pos(1074);
    lemma_pow2_adds(972, 1074);
    lemma2_to64_rest();
    lemma_pow2_strictly_increases(64, 972);
    let p = pow2(972);
    assert(v == (BINADE * p) * u) by (nonlinear_arith)
        requires
            v == BINADE * pow2(2046),
            pow2(2046) == p * u,
    ;
    assert(u * (BINADE * p) == (BINADE * p) * u) by (nonlinear_arith);
    lemma_fundamental_div_mod_converse(v as int, u as int, BINADE * p, 0);
    assert(BINADE * p >= p) by (nonlinear_arith)
        requires
            BINADE == 0x10_0000_0000_0000,
            p >= 0,
    ;
}

/// The larger of two numbers is one of them and none is larger, the smaller is one of them and none
/// is smaller. What is not a number counts as neither where the other is one.
pub proof fn lemma_extremes(a: Float64, b: Float64)
    ensures
        a.larger(b) == a || a.larger(b) == b,
        a.smaller(b) == a || a.smaller(b) == b,
        !a.nan() ==> a.at_most(a.larger(b)) && a.smaller(b).at_most(a),
        !b.nan() ==> b.at_most(a.larger(b)) && a.smaller(b).at_most(b),
{
}

/// The absolute value is the distance from zero, and the sign of a number is one or minus one.
pub proof fn lemma_distance_and_sign(a: Float64)
    requires
        !a.nan(),
    ensures
        a.absolute().value() == abs_nat(a.value()),
        a.value() > 0 ==> a.sign().value() == one_unit(),
        a.value() < 0 ==> a.sign().value() == -one_unit(),
{
    lemma_one();
}

/// What is left of a number that is not negative when its fraction is cut off: the largest integer
/// that is not above it, where that can be counted.
pub proof fn lemma_truncated(a: Float64)
    requires
        !a.nan(),
        !a.negative(),
    ensures
        a.truncated() * one_unit() <= a.value(),
        a.truncated() < usize::MAX ==> a.value() < (a.truncated() + 1) * one_unit(),
{
    lemma_one();
    let v = abs_nat(a.value());
    let u = one_unit();
    let q = v / u;
    lemma_fundamental_div_mod(v as int, u as int);
    let t = a.truncated();
    assert(t * u <= q * u) by (nonlinear_arith)
        requires
            t <= q,
    ;
    assert(u * q == q * u && (q + 1) * u == q * u + u) by (nonlinear_arith);
}

} // verus!
