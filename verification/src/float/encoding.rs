//! The encoding of double precision numbers, and what an encoding stands for.
use vstd::prelude::*;
use vstd::arithmetic::power2::pow2;
use vstd::arithmetic::power2::{lemma_pow2_pos, lemma_pow2_unfold};

verus! {

/// Weight of the sign bit.
pub const SIGN: u64 = 0x8000_0000_0000_0000;

/// Number of significands that share an exponent.
pub const BINADE: u64 = 0x0010_0000_0000_0000;

/// Magnitude of infinity.
pub const INFINITE: u64 = 0x7ff0_0000_0000_0000;

/// Magnitude of the one encoding used here for a result that is not a number.
pub const NOT_A_NUMBER: u64 = 0x7ff8_0000_0000_0000;

/// A double precision number, given by its encoding.
#[derive(Clone, Copy, Debug, PartialEq, Eq, Structural)]
pub struct Float64 {
    /// The encoding: one sign bit, eleven exponent bits, fifty-two significand bits.
    pub bits: u64,
}

/// What the magnitude `m` (an encoding without its sign bit) stands for, in units of `2^-1074`.
///
/// Infinity stands for the power of two that follows the largest finite number.
pub open spec fn magnitude_value(m: nat) -> nat {
    let exponent = m / BINADE as nat;
    let fraction = m % BINADE as nat;
    if exponent == 0 {
        fraction
    } else {
        (BINADE as nat + fraction) * pow2((exponent - 1) as nat)
    }
}

impl Float64 {
    /// The number with encoding `bits`.
    pub fn from_bits(bits: u64) -> (r: Float64)
        ensures
            r.bits == bits,
    {
        Float64 { bits }
    }

    /// The encoding of the number.
    pub fn to_bits(self) -> (r: u64)
        ensures
            r == self.bits,
    {
        self.bits
    }

    /// Whether the sign bit is set.
    pub open spec fn negative(self) -> bool {
        self.bits >= SIGN
    }

    /// The encoding without its sign bit.
    pub open spec fn magnitude(self) -> nat {
        (self.bits % SIGN) as nat
    }

    /// Whether this is not a number.
    pub open spec fn nan(self) -> bool {
        self.magnitude() > INFINITE
    }

    /// Whether this is a finite number.
    pub open spec fn finite(self) -> bool {
        self.magnitude() < INFINITE
    }

    /// Whether this is positive or negative zero.
    pub open spec fn zero(self) -> bool {
        self.magnitude() == 0
    }

    /// The number in units of `2^-1074`.
    pub open spec fn value(self) -> int {
        let v = magnitude_value(self.magnitude()) as int;
        if self.negative() {
            -v
        } else {
            v
        }
    }

    /// The number with the given sign and magnitude.
    pub open spec fn of(negative: bool, magnitude: nat) -> Float64 {
        Float64 {
            bits: if negative {
                (SIGN + magnitude) as u64
            } else {
                magnitude as u64
            },
        }
    }

    /// Executable form of [`Float64::negative`].
    pub fn is_negative(self) -> (r: bool)
        ensures
            r == self.negative(),
    {
        self.bits >= SIGN
    }

    /// Executable form of [`Float64::magnitude`].
    pub fn mag(self) -> (r: u64)
        ensures
            r == self.magnitude(),
            r < SIGN,
    {
        self.bits % SIGN
    }

    /// Whether this is not a number.
    pub fn is_nan(self) -> (r: bool)
        ensures
            r == self.nan(),
    {
        self.mag() > INFINITE
    }

    /// Whether this is neither infinite nor not a number.
    pub fn is_finite(self) -> (r: bool)
        ensures
            r == self.finite(),
    {
        self.mag() < INFINITE
    }

    /// The number with the given sign bit and magnitude.
    pub fn with_sign(negative: bool, magnitude: u64) -> (r: Float64)
        requires
            magnitude < SIGN,
        ensures
            r == Float64::of(negative, magnitude as nat),
            r.negative() == negative,
            r.magnitude() == magnitude,
    {
        if negative {
            Float64 { bits: SIGN + magnitude }
        } else {
            Float64 { bits: magnitude }
        }
    }
}

/// Magnitudes are ordered as what they stand for.
pub proof fn lemma_magnitude_value_step(m: nat)
    ensures
        magnitude_value(m) < magnitude_value(m + 1),
{
    let b = BINADE as nat;
    let e = m / b;
    let f = m % b;
    assert(m == e * b + f && f < b);
    if f + 1 < b {
        assert((m + 1) / b == e && (m + 1) % b == f + 1);
        if e > 0 {
            let p = pow2((e - 1) as nat);
            lemma_pow2_pos((e - 1) as nat);
            assert((b + f) * p < (b + (f + 1)) * p) by (nonlinear_arith)
                requires
                    p > 0,
            ;
        }
    } else {
        assert((m + 1) / b == e + 1 && (m + 1) % b == 0);
        let p = pow2(e);
        if e == 0 {
            lemma_pow2_pos(0);
            assert(b * p >= b) by (nonlinear_arith)
                requires
                    p >= 1,
            ;
        } else {
            lemma_pow2_unfold(e);
            let h = pow2((e - 1) as nat);
            lemma_pow2_pos((e - 1) as nat);
            assert((b + f) * h < b * p) by (nonlinear_arith)
                requires
                    p == 2 * h,
                    h > 0,
                    f < b,
            ;
        }
    }
}

/// Magnitudes are ordered as what they stand for.
pub proof fn lemma_magnitude_value_monotone(m: nat, n: nat)
    requires
        m < n,
    ensures
        magnitude_value(m) < magnitude_value(n),
    decreases n - m,
{
    if m + 1 == n {
        lemma_magnitude_value_step(m);
    } else {
        lemma_magnitude_value_monotone(m, (n - 1) as nat);
        lemma_magnitude_value_step((n - 1) as nat);
    }
}

} // verus!
