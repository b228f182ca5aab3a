//! Arithmetic: exact results, rounded once.
use vstd::prelude::*;
use vstd::arithmetic::div_mod::{lemma_fundamental_div_mod, lemma_fundamental_div_mod_converse};
use vstd::arithmetic::power2::pow2;
use vstd::arithmetic::power2::{
    lemma2_to64, lemma2_to64_rest, lemma_pow2_adds, lemma_pow2_pos, lemma_pow2_strictly_increases,
    lemma_pow2_unfold,
};
use crate::float::encoding::{Float64, magnitude_value, BINADE, INFINITE, NOT_A_NUMBER};
use crate::float::rounding::{
    brackets, lemma_scaled_div, nearest_magnitude, power_of_two, round_parts,
};

verus! {

/// The number of units of `2^-1074` in one.
pub open spec fn one_unit() -> nat {
    pow2(1074)
}

/// The number with the given sign whose magnitude is nearest to `num / den` units of `2^-1074`.
pub open spec fn nearest(negative: bool, num: nat, den: nat) -> Float64 {
    Float64::of(negative, nearest_magnitude(num, den))
}

/// A result that is not a number.
pub open spec fn not_a_number() -> Float64 {
    Float64 { bits: NOT_A_NUMBER }
}

/// The double precision number nearest to `n`.
pub open spec fn of_nat(n: nat) -> Float64 {
    nearest(false, n * one_unit(), 1)
}

/// The distance of an integer from zero.
pub open spec fn abs_nat(v: int) -> nat {
    if v < 0 {
        (-v) as nat
    } else {
        v as nat
    }
}

impl Float64 {
    /// Whether this is positive or negative infinity.
    pub open spec fn infinite(self) -> bool {
        self.magnitude() == INFINITE
    }

    /// The number with the opposite sign.
    pub open spec fn negated(self) -> Float64 {
        Float64::of(!self.negative(), self.magnitude())
    }

    /// `self + other`, rounded.
    pub open spec fn sum(self, other: Float64) -> Float64 {
        if self.nan() || other.nan() {
            not_a_number()
        } else if self.infinite() && other.infinite() {
            if self.negative() == other.negative() {
                self
            } else {
                not_a_number()
            }
        } else if self.infinite() {
            self
        } else if other.infinite() {
            other
        } else {
            let v = self.value() + other.value();
            if v == 0 {
                Float64::of(self.negative() && other.negative(), 0)
            } else {
                nearest(v < 0, abs_nat(v), 1)
            }
        }
    }

    /// `self - other`, rounded.
    pub open spec fn difference(self, other: Float64) -> Float64 {
        self.sum(other.negated())
    }

    /// `self * other`, rounded.
    pub open spec fn product(self, other: Float64) -> Float64 {
        let negative = self.negative() != other.negative();
        if self.nan() || other.nan() {
            not_a_number()
        } else if self.infinite() || other.infinite() {
            if self.zero() || other.zero() {
                not_a_number()
            } else {
                Float64::of(negative, INFINITE as nat)
            }
        } else {
            nearest(negative, abs_nat(self.value()) * abs_nat(other.value()), one_unit())
        }
    }

    /// `self / other`, rounded.
    pub open spec fn quotient(self, other: Float64) -> Float64 {
        let negative = self.negative() != other.negative();
        if self.nan() || other.nan() {
            not_a_number()
        } else if self.infinite() {
            if other.infinite() {
                not_a_number()
            } else {
                Float64::of(negative, INFINITE as nat)
            }
        } else if other.infinite() {
            Float64::of(negative, 0)
        } else if other.zero() {
            if self.zero() {
                not_a_number()
            } else {
                Float64::of(negative, INFINITE as nat)
            }
        } else {
            nearest(negative, abs_nat(self.value()) * one_unit(), abs_nat(other.value()))
        }
    }
}

/// A finite magnitude stands for zero only if it is zero.
pub proof fn lemma_magnitude_value_zero(m: nat)
    ensures
        magnitude_value(m) == 0 <==> m == 0,
{
    if m > 0 {
        crate::float::encoding::lemma_magnitude_value_monotone(0, m);
    }
}

/// The significand and the exponent of a positive finite magnitude.
pub(crate) fn split(m: u64) -> (r: (u64, i32))
    requires
        0 < m < INFINITE,
    ensures
        0 < r.0 < 0x20_0000_0000_0000,
        0 <= r.1 <= 2045,
        r.1 == if m < BINADE {
            0
        } else {
            m / BINADE - 1
        },
        magnitude_value(m as nat) == r.0 * pow2(r.1 as nat),
{
    let exponent: u64 = m / BINADE;
    let fraction: u64 = m % BINADE;
    if exponent == 0 {
        proof {
            lemma2_to64();
        }
        (fraction, 0)
    } else {
        (BINADE + fraction, (exponent - 1) as i32)
    }
}

/// How an exact quotient `a / b` brackets `num / den` when both are the same number up to a power
/// of two.
proof fn lemma_brackets_common(a: nat, b: nat, k: nat, e: int, num: nat, den: nat)
    requires
        b > 0,
        k > 0,
        e >= 0 ==> num == a * k && den * pow2(e as nat) == b * k,
        e < 0 ==> num * pow2((-e) as nat) == a * k && den == b * k,
    ensures
        brackets(a / b, e, a % b != 0, num, den),
{
    lemma_scaled_div(a, b, k);
    let r = a % b;
    assert((r * k != 0) == (r != 0)) by (nonlinear_arith)
        requires
            k > 0,
    ;
}

impl Float64 {
    /// The nearest number to `n`.
    pub fn from_u64(n: u64) -> (r: Float64)
        ensures
            r == of_nat(n as nat),
    {
        let ghost num = (n as nat) * one_unit();
        if n == 0 {
            proof {
                lemma_nearest_zero(1);
            }
            return Float64 { bits: 0 };
        }
        proof {
            lemma_pow2_pos(1074);
            assert(num == (n as nat) * pow2(1074));
            lemma_brackets_common(n as nat, 1, pow2(1074), 1074, num, 1);
        }
        let m: u64 = round_parts(n as u128, 1074, false, Ghost(num), Ghost(1));
        Float64::with_sign(false, m)
    }

    /// The number with the opposite sign.
    pub fn neg(self) -> (r: Float64)
        ensures
            r == self.negated(),
            r.magnitude() == self.magnitude(),
            r.negative() == !self.negative(),
    {
        Float64::with_sign(!self.is_negative(), self.mag())
    }

    /// The product of two numbers.
    pub fn times(self, other: Float64) -> (r: Float64)
        ensures
            r == self.product(other),
    {
        let negative: bool = self.is_negative() != other.is_negative();
        let a: u64 = self.mag();
        let b: u64 = other.mag();
        if a > INFINITE || b > INFINITE {
            return Float64 { bits: NOT_A_NUMBER };
        }
        if a == INFINITE || b == INFINITE {
            if a == 0 || b == 0 {
                return Float64 { bits: NOT_A_NUMBER };
            }
            return Float64::with_sign(negative, INFINITE);
        }
        let ghost va = magnitude_value(a as nat);
        let ghost vb = magnitude_value(b as nat);
        assert(abs_nat(self.value()) == va && abs_nat(other.value()) == vb);
        proof {
            lemma_pow2_pos(1074);
            lemma_magnitude_value_zero(a as nat);
            lemma_magnitude_value_zero(b as nat);
        }
        if a == 0 || b == 0 {
            proof {
                assert(va * vb == 0) by (nonlinear_arith)
                    requires
                        va == 0 || vb == 0,
                ;
                lemma_nearest_zero(one_unit());
            }
            return Float64::with_sign(negative, 0);
        }
        let (sa, ea): (u64, i32) = split(a);
        let (sb, eb): (u64, i32) = split(b);
        let e: i32 = ea + eb - 1074;
        let m: u128 = {
            assert(0 < sa * sb < 0x400_0000_0000_0000_0000_0000_0000) by (nonlinear_arith)
                requires
                    0 < sa < 0x20_0000_0000_0000,
                    0 < sb < 0x20_0000_0000_0000,
            ;
            sa as u128 * sb as u128
        };
        let ghost num = va * vb;
        let ghost den = one_unit();
        proof {
            let pa = pow2(ea as nat);
            let pb = pow2(eb as nat);
            let pab = pow2((ea + eb) as nat);
            lemma_pow2_adds(ea as nat, eb as nat);
            lemma_pow2_pos((ea + eb) as nat);
            assert(num == m * pab) by (nonlinear_arith)
                requires
                    num == (sa * pa) * (sb * pb),
                    m == sa * sb,
                    pab == pa * pb,
            ;
            if e >= 0 {
                lemma_pow2_adds(1074, e as nat);
                lemma_brackets_common(m as nat, 1, pab, e as int, num, den);
            } else {
                lemma_pow2_adds((ea + eb) as nat, (-e) as nat);
                let pe = pow2((-e) as nat);
                assert(num * pe == m * den) by (nonlinear_arith)
                    requires
                        num == m * pab,
                        den == pab * pe,
                ;
                lemma_brackets_common(m as nat, 1, den, e as int, num, den);
            }
        }
        let r: u64 = round_parts(m, e, false, Ghost(num), Ghost(den));
        Float64::with_sign(negative, r)
    }
}

/// A significand shifted up until its leading bit is in place, and by how much.
pub(crate) fn normalize(significand: u64) -> (r: (u64, i32))
    requires
        0 < significand < 0x20_0000_0000_0000,
    ensures
        0x10_0000_0000_0000 <= r.0 < 0x20_0000_0000_0000,
        0 <= r.1 <= 53,
        r.0 == significand * pow2(r.1 as nat),
{
    let mut m: u64 = significand;
    let mut n: i32 = 0;
    proof {
        lemma2_to64();
        assert(significand * pow2(0) == significand);
    }
    while m < 0x10_0000_0000_0000
        invariant
            0 < m < 0x20_0000_0000_0000,
            0 <= n <= 53,
            m == significand * pow2(n as nat),
            m >= pow2(n as nat),
        decreases 0x20_0000_0000_0000 - m,
    {
        proof {
            let p = pow2(n as nat);
            lemma_pow2_unfold((n + 1) as nat);
            assert(significand * (2 * p) == 2 * m) by (nonlinear_arith)
                requires
                    m == significand * p,
            ;
            lemma2_to64_rest();
            if n >= 53 {
                assert(false);
            }
        }
        m = m * 2;
        n = n + 1;
    }
    (m, n)
}

impl Float64 {
    /// The quotient of two numbers.
    pub fn over(self, other: Float64) -> (r: Float64)
        ensures
            r == self.quotient(other),
    {
        let negative: bool = self.is_negative() != other.is_negative();
        let a: u64 = self.mag();
        let b: u64 = other.mag();
        if a > INFINITE || b > INFINITE {
            return Float64 { bits: NOT_A_NUMBER };
        }
        if a == INFINITE {
            if b == INFINITE {
                return Float64 { bits: NOT_A_NUMBER };
            }
            return Float64::with_sign(negative, INFINITE);
        }
        if b == INFINITE {
            return Float64::with_sign(negative, 0);
        }
        if b == 0 {
            if a == 0 {
                return Float64 { bits: NOT_A_NUMBER };
            }
            return Float64::with_sign(negative, INFINITE);
        }
        let ghost va = magnitude_value(a as nat);
        let ghost vb = magnitude_value(b as nat);
        assert(abs_nat(self.value()) == va && abs_nat(other.value()) == vb);
        let ghost num = va * one_unit();
        let ghost den = vb;
        proof {
            lemma_pow2_pos(1074);
            lemma_magnitude_value_zero(a as nat);
            lemma_magnitude_value_zero(b as nat);
        }
        if a == 0 {
            proof {
                assert(num == 0) by (nonlinear_arith)
                    requires
                        va == 0,
                        num == va * one_unit(),
                ;
                lemma_nearest_zero(den);
            }
            return Float64::with_sign(negative, 0);
        }
        let (sa, ea): (u64, i32) = split(a);
        let (sb, eb): (u64, i32) = split(b);
        let (na, n): (u64, i32) = normalize(sa);
        let e: i32 = ea - eb + 1074 - n - 62;
        assert(0x10_0000_0000_0000 * 0x4000_0000_0000_0000 <= na * 0x4000_0000_0000_0000
            < 0x20_0000_0000_0000 * 0x4000_0000_0000_0000) by (nonlinear_arith)
            requires
                0x10_0000_0000_0000 <= na < 0x20_0000_0000_0000,
        ;
        let top: u128 = na as u128 * 0x4000_0000_0000_0000u128;
        let m: u128 = top / (sb as u128);
        let inexact: bool = top % (sb as u128) != 0;
        proof {
            let t = top as nat;
            let d = sb as nat;
            lemma_fundamental_div_mod(t as int, d as int);
            let rr = t % d;
            assert(m >= 0x40_0000_0000_0000) by (nonlinear_arith)
                requires
                    t == d * m + rr,
                    rr < d,
                    d < 0x20_0000_0000_0000,
                    t >= 0x10_0000_0000_0000 * 0x4000_0000_0000_0000,
            ;
            assert(m <= t) by (nonlinear_arith)
                requires
                    t == d * m + rr,
                    rr >= 0,
                    d >= 1,
            ;
            assert(0x20_0000_0000_0000 * 0x4000_0000_0000_0000
                < 0x100_0000_0000_0000_0000_0000_0000_0000) by (nonlinear_arith);
            lemma_quotient_brackets(
                sa as nat,
                ea as nat,
                sb as nat,
                eb as nat,
                n as nat,
                t,
                e as int,
                num,
                den,
            );
        }
        let r: u64 = round_parts(m, e, inexact, Ghost(num), Ghost(den));
        Float64::with_sign(negative, r)
    }
}

proof fn lemma_quotient_brackets(
    sa: nat,
    ea: nat,
    sb: nat,
    eb: nat,
    n: nat,
    top: nat,
    e: int,
    num: nat,
    den: nat,
)
    requires
        sb > 0,
        num == (sa * pow2(ea)) * pow2(1074),
        den == sb * pow2(eb),
        top == (sa * pow2(n)) * 0x4000_0000_0000_0000,
        e == ea - eb + 1074 - n - 62,
    ensures
        brackets(top / sb, e, top % sb != 0, num, den),
{
    let pa = pow2(ea);
    let pb = pow2(eb);
    let pn = pow2(n);
    let p62 = pow2(62);
    lemma2_to64_rest();
    lemma_pow2_adds(ea, 1074);
    lemma_pow2_adds(n, 62);
    let x = pow2(ea + 1074);
    let y = pow2(n + 62);
    lemma_pow2_pos(eb);
    assert(num == sa * x) by (nonlinear_arith)
        requires
            num == (sa * pa) * pow2(1074),
            x == pa * pow2(1074),
    ;
    assert(top == sa * y) by (nonlinear_arith)
        requires
            top == (sa * pn) * p62,
            y == pn * p62,
    ;
    if e >= 0 {
        let pe = pow2(e as nat);
        lemma_pow2_adds(eb, e as nat);
        lemma_pow2_pos(eb + e as nat);
        let k = pow2(eb + e as nat);
        lemma_pow2_adds(n + 62, eb + e as nat);
        assert(num == top * k) by (nonlinear_arith)
            requires
                num == sa * x,
                top == sa * y,
                x == y * k,
        ;
        assert(den * pe == sb * k) by (nonlinear_arith)
            requires
                den == sb * pb,
                k == pb * pe,
        ;
        lemma_brackets_common(top, sb, k, e, num, den);
    } else {
        let pe = pow2((-e) as nat);
        lemma_pow2_adds(ea + 1074, (-e) as nat);
        lemma_pow2_adds(n + 62, eb);
        assert(num * pe == top * pb) by (nonlinear_arith)
            requires
                num == sa * x,
                top == sa * y,
                x * pe == y * pb,
        ;
        lemma_brackets_common(top, sb, pb, e, num, den);
    }
}

/// A number that has an encoding rounds to itself.
pub proof fn lemma_nearest_encoded(m: nat)
    requires
        m < INFINITE,
    ensures
        nearest_magnitude(magnitude_value(m), 1) == m,
{
    let v = magnitude_value(m);
    let e = m / BINADE as nat;
    let f = m % BINADE as nat;
    lemma2_to64();
    if e == 0 {
        assert(crate::float::rounding::scale(v, 1) == 0);
        crate::float::rounding::lemma_nearest_even_exact(v, 1);
    } else {
        let s = (e - 1) as nat;
        let p = pow2(s);
        lemma_pow2_pos(s);
        assert(BINADE * 1 * p <= v < 2 * BINADE * 1 * p) by (nonlinear_arith)
            requires
                v == (BINADE + f) * p,
                0 <= f < BINADE,
                p > 0,
        ;
        crate::float::rounding::lemma_scale_is(v, 1, s);
        crate::float::rounding::lemma_nearest_even_exact(BINADE as nat + f, p);
        assert(1 * p == p);
    }
}

/// `significand * 2^-shift`, and whether that loses anything.
pub(crate) fn shift_down(significand: u64, shift: i32) -> (r: (u64, bool))
    requires
        significand < 0x20_0000_0000_0000,
        0 < shift,
    ensures
        r.0 as nat == significand as nat / pow2(shift as nat),
        r.1 == (significand as nat % pow2(shift as nat) != 0),
        r.0 < 0x20_0000_0000_0000,
{
    if shift >= 53 {
        proof {
            lemma2_to64_rest();
            if shift > 53 {
                lemma_pow2_strictly_increases(53, shift as nat);
            }
            lemma_fundamental_div_mod_converse(
                significand as int,
                pow2(shift as nat) as int,
                0,
                significand as int,
            );
        }
        (0, significand != 0)
    } else {
        let p: u128 = power_of_two(shift as u32);
        proof {
            lemma_pow2_pos(shift as nat);
            lemma_fundamental_div_mod(significand as int, p as int);
            assert(significand as int / p as int <= significand) by (nonlinear_arith)
                requires
                    significand as int == p as int * (significand as int / p as int)
                        + significand as int % p as int,
                    significand as int % p as int >= 0,
                    p >= 1,
            ;
        }
        let q: u128 = significand as u128 / p;
        let r: u128 = significand as u128 % p;
        (q as u64, r != 0)
    }
}

/// The magnitude nearest to the sum of two magnitudes, the larger one first.
#[verifier::rlimit(30)]
fn add_magnitudes(a: u64, b: u64) -> (r: u64)
    requires
        0 < b <= a < INFINITE,
    ensures
        r == nearest_magnitude(magnitude_value(a as nat) + magnitude_value(b as nat), 1),
        r <= INFINITE,
{
    let (sa, ea): (u64, i32) = split(a);
    let (sb, eb): (u64, i32) = split(b);
    let ghost num = magnitude_value(a as nat) + magnitude_value(b as nat);
    let d: i32 = ea - eb;
    let ghost pa = pow2(ea as nat);
    let ghost pb = pow2(eb as nat);
    proof {
        lemma_pow2_pos(eb as nat);
        lemma_pow2_adds(eb as nat, d as nat);
    }
    if d <= 64 {
        let p: u128 = power_of_two(d as u32);
        proof {
            lemma_power_at_most_64(d as nat);
            assert(0 < sa * p <= 0x20_0000_0000_0000 * 0x1_0000_0000_0000_0000) by (nonlinear_arith)
                requires
                    0 < sa < 0x20_0000_0000_0000,
                    0 < p <= 0x1_0000_0000_0000_0000,
            ;
            assert(num == (sa * p + sb) * pb) by (nonlinear_arith)
                requires
                    num == sa * pa + sb * pb,
                    pa == pb * p,
            ;
            lemma_brackets_common((sa * p + sb) as nat, 1, pb, eb as int, num, 1);
        }
        let m: u128 = sa as u128 * p + sb as u128;
        round_parts(m, eb, false, Ghost(num), Ghost(1))
    } else {
        let t: i32 = d - 64;
        let (low, inexact): (u64, bool) = shift_down(sb, t);
        let e: i32 = ea - 64;
        proof {
            let pt = pow2(t as nat);
            let pe = pow2(e as nat);
            lemma2_to64_rest();
            lemma_pow2_pos(t as nat);
            lemma_pow2_pos(e as nat);
            lemma_pow2_adds(64, e as nat);
            lemma_pow2_adds(eb as nat, t as nat);
            lemma_fundamental_div_mod(sb as int, pt as int);
            let f = sb as nat % pt;
            let m = (sa * 0x1_0000_0000_0000_0000 + low) as nat;
            assert(num == pe * m + f * pb) by (nonlinear_arith)
                requires
                    num == sa * pa + sb * pb,
                    pa == 0x1_0000_0000_0000_0000 * pe,
                    pe == pb * pt,
                    sb == pt * low + f,
                    m == sa * 0x1_0000_0000_0000_0000 + low,
            ;
            assert(0 <= f * pb < pe) by (nonlinear_arith)
                requires
                    pe == pb * pt,
                    0 <= f < pt,
                    pb > 0,
            ;
            assert((f * pb != 0) == (f != 0)) by (nonlinear_arith)
                requires
                    pb > 0,
            ;
            lemma_fundamental_div_mod_converse(num as int, pe as int, m as int, (f * pb) as int);
            assert(1 * pe == pe);
        }
        let m: u128 = sa as u128 * 0x1_0000_0000_0000_0000u128 + low as u128;
        round_parts(m, e, inexact, Ghost(num), Ghost(1))
    }
}

/// The magnitude nearest to the difference of two magnitudes, the larger one first.
#[verifier::rlimit(30)]
fn sub_magnitudes(a: u64, b: u64) -> (r: u64)
    requires
        0 < b < a < INFINITE,
    ensures
        magnitude_value(b as nat) < magnitude_value(a as nat),
        r == nearest_magnitude(
            (magnitude_value(a as nat) - magnitude_value(b as nat)) as nat,
            1,
        ),
        r <= INFINITE,
{
    proof {
        crate::float::encoding::lemma_magnitude_value_monotone(b as nat, a as nat);
    }
    let (sa, ea): (u64, i32) = split(a);
    let (sb, eb): (u64, i32) = split(b);
    let ghost num = (magnitude_value(a as nat) - magnitude_value(b as nat)) as nat;
    let d: i32 = ea - eb;
    let ghost pa = pow2(ea as nat);
    let ghost pb = pow2(eb as nat);
    proof {
        lemma_pow2_pos(eb as nat);
        lemma_pow2_adds(eb as nat, d as nat);
    }
    if d <= 64 {
        let p: u128 = power_of_two(d as u32);
        proof {
            lemma_power_at_most_64(d as nat);
            assert(0 < sa * p <= 0x20_0000_0000_0000 * 0x1_0000_0000_0000_0000) by (nonlinear_arith)
                requires
                    0 < sa < 0x20_0000_0000_0000,
                    0 < p <= 0x1_0000_0000_0000_0000,
            ;
            assert(num == (sa * p - sb) * pb) by (nonlinear_arith)
                requires
                    num == sa * pa - sb * pb,
                    pa == pb * p,
            ;
            assert(sa * p - sb > 0) by (nonlinear_arith)
                requires
                    num == (sa * p - sb) * pb,
                    num > 0,
                    pb > 0,
            ;
            lemma_brackets_common((sa * p - sb) as nat, 1, pb, eb as int, num, 1);
        }
        let m: u128 = sa as u128 * p - sb as u128;
        round_parts(m, eb, false, Ghost(num), Ghost(1))
    } else {
        let t: i32 = d - 64;
        let (low, inexact): (u64, bool) = shift_down(sb, t);
        let e: i32 = ea - 64;
        let drop: u64 = if inexact {
            low + 1
        } else {
            low
        };
        proof {
            let pt = pow2(t as nat);
            let pe = pow2(e as nat);
            lemma2_to64_rest();
            lemma_pow2_pos(t as nat);
            lemma_pow2_pos(e as nat);
            lemma_pow2_adds(64, e as nat);
            lemma_pow2_adds(eb as nat, t as nat);
            lemma_fundamental_div_mod(sb as int, pt as int);
            let f = sb as nat % pt;
            let m = (sa * 0x1_0000_0000_0000_0000 - drop) as nat;
            let g: nat = if f == 0 {
                0
            } else {
                (pt - f) as nat
            };
            assert(pt * drop == sb + g) by (nonlinear_arith)
                requires
                    sb == pt * low + f,
                    f == 0 ==> drop == low && g == 0,
                    f != 0 ==> drop == low + 1 && g == pt - f,
            ;
            assert(num == pe * m + g * pb) by (nonlinear_arith)
                requires
                    num == sa * pa - sb * pb,
                    pa == 0x1_0000_0000_0000_0000 * pe,
                    pe == pb * pt,
                    pt * drop == sb + g,
                    m == sa * 0x1_0000_0000_0000_0000 - drop,
            ;
            assert(0 <= g * pb < pe) by (nonlinear_arith)
                requires
                    pe == pb * pt,
                    0 <= g < pt,
                    pb > 0,
            ;
            assert((g * pb != 0) == (g != 0)) by (nonlinear_arith)
                requires
                    pb > 0,
            ;
            lemma_fundamental_div_mod_converse(num as int, pe as int, m as int, (g * pb) as int);
            assert(1 * pe == pe);
        }
        let m: u128 = sa as u128 * 0x1_0000_0000_0000_0000u128 - drop as u128;
        round_parts(m, e, inexact, Ghost(num), Ghost(1))
    }
}

proof fn lemma_power_at_most_64(d: nat)
    requires
        d <= 64,
    ensures
        0 < pow2(d) <= 0x1_0000_0000_0000_0000,
{
    lemma2_to64_rest();
    lemma_pow2_pos(d);
    if d < 64 {
        lemma_pow2_strictly_increases(d, 64);
    }
}

impl Float64 {
    /// The sum of two numbers.
    pub fn plus(self, other: Float64) -> (r: Float64)
        ensures
            r == self.sum(other),
    {
        let a: u64 = self.mag();
        let b: u64 = other.mag();
        if a > INFINITE || b > INFINITE {
            return Float64 { bits: NOT_A_NUMBER };
        }
        if a == INFINITE {
            if b == INFINITE && self.is_negative() != other.is_negative() {
                return Float64 { bits: NOT_A_NUMBER };
            }
            return self;
        }
        if b == INFINITE {
            return other;
        }
        proof {
            lemma_magnitude_value_zero(a as nat);
            lemma_magnitude_value_zero(b as nat);
            lemma_nearest_encoded(a as nat);
            lemma_nearest_encoded(b as nat);
        }
        if a == 0 && b == 0 {
            return Float64::with_sign(self.is_negative() && other.is_negative(), 0);
        }
        if b == 0 {
            return self;
        }
        if a == 0 {
            return other;
        }
        if self.is_negative() == other.is_negative() {
            let m: u64 = if a >= b {
                add_magnitudes(a, b)
            } else {
                add_magnitudes(b, a)
            };
            Float64::with_sign(self.is_negative(), m)
        } else if a == b {
            Float64::with_sign(false, 0)
        } else if a > b {
            let m: u64 = sub_magnitudes(a, b);
            Float64::with_sign(self.is_negative(), m)
        } else {
            let m: u64 = sub_magnitudes(b, a);
            Float64::with_sign(other.is_negative(), m)
        }
    }

    /// The difference of two numbers.
    pub fn minus(self, other: Float64) -> (r: Float64)
        ensures
            r == self.difference(other),
    {
        self.plus(other.neg())
    }
}

/// Nothing rounds to zero.
pub proof fn lemma_nearest_zero(den: nat)
    requires
        den > 0,
    ensures
        nearest_magnitude(0, den) == 0,
{
    lemma2_to64();
    assert(2 * BINADE * den > 0) by (nonlinear_arith)
        requires
            den > 0,
            BINADE == 0x10_0000_0000_0000,
    ;
    assert(crate::float::rounding::scale(0, den) == 0);
    lemma_fundamental_div_mod_converse(0, den as int, 0, 0);
}

} // verus!
