//! Square roots.
use vstd::prelude::*;
use vstd::arithmetic::div_mod::lemma_fundamental_div_mod_converse;
use vstd::arithmetic::power2::pow2;
use vstd::arithmetic::power2::{
    lemma2_to64, lemma2_to64_rest, lemma_pow2_adds, lemma_pow2_pos, lemma_pow2_unfold,
};
use crate::float::arith::{abs_nat, normalize, not_a_number, one_unit, split};
use crate::float::encoding::{
    lemma_magnitude_value_monotone, magnitude_value, Float64, INFINITE, NOT_A_NUMBER,
};
use crate::float::monotone::{lemma_nearest_at_least, lemma_nearest_at_most, lemma_sign};
use crate::float::rounding::{brackets, nearest_magnitude, power_of_two, round_parts};

verus! {

/// Whether `r` is the square root of `x`, rounded down.
pub open spec fn is_floor_root(x: nat, r: nat) -> bool {
    r * r <= x < (r + 1) * (r + 1)
}

/// The square root of `x`, rounded down.
pub open spec fn floor_root(x: nat) -> nat {
    choose|r: nat| is_floor_root(x, r)
}

/// The magnitude nearest to the square root of `v` units of `2^-1074`.
///
/// The root is taken to 64 binary places below a unit. Where that is not exact, the root lies
/// strictly between two such multiples, and so does the midpoint that is rounded in its place; no
/// tie lies between them.
pub open spec fn nearest_root(v: nat) -> nat {
    let x = v * pow2(1202);
    let r = floor_root(x);
    if r * r == x {
        nearest_magnitude(r, pow2(64))
    } else {
        nearest_magnitude((2 * r + 1) as nat, pow2(65))
    }
}

impl Float64 {
    /// The square root, rounded.
    pub open spec fn root(self) -> Float64 {
        if self.nan() {
            not_a_number()
        } else if self.zero() {
            self
        } else if self.negative() {
            not_a_number()
        } else if self.infinite() {
            self
        } else {
            Float64::of(false, nearest_root(abs_nat(self.value())))
        }
    }

    /// The square root of the number.
    pub fn sqrt(self) -> (r: Float64)
        ensures
            r == self.root(),
    {
        let a: u64 = self.mag();
        if a > INFINITE {
            return Float64 { bits: NOT_A_NUMBER };
        }
        if a == 0 {
            return self;
        }
        if self.is_negative() {
            return Float64 { bits: NOT_A_NUMBER };
        }
        if a == INFINITE {
            return self;
        }
        let ghost v = magnitude_value(a as nat);
        assert(abs_nat(self.value()) == v);
        let (sa, ea): (u64, i32) = split(a);
        let (na, n): (u64, i32) = normalize(sa);
        let c: i32 = ea + 1202 - n;
        let k: i32 = if c % 2 == 0 {
            72
        } else {
            73
        };
        let j: i32 = (c - k) / 2;
        let p: u128 = power_of_two(k as u32);
        proof {
            lemma2_to64();
            lemma2_to64_rest();
            lemma_pow2_adds(64, 8);
            lemma_pow2_unfold(73);
            assert(0x10_0000_0000_0000 * 0x100_0000_0000_0000_0000 <= na * p
                <= 0x20_0000_0000_0000 * 0x200_0000_0000_0000_0000) by (nonlinear_arith)
                requires
                    0x10_0000_0000_0000 <= na < 0x20_0000_0000_0000,
                    0x100_0000_0000_0000_0000 <= p <= 0x200_0000_0000_0000_0000,
            ;
            assert(na * p < 0x20_0000_0000_0000 * 0x200_0000_0000_0000_0000) by (nonlinear_arith)
                requires
                    0x10_0000_0000_0000 <= na < 0x20_0000_0000_0000,
                    0x100_0000_0000_0000_0000 <= p <= 0x200_0000_0000_0000_0000,
            ;
        }
        let wide: u128 = na as u128 * p;
        let r: u128 = integer_root(wide);
        let inexact: bool = r * r != wide;
        let e: i32 = j - 64;
        let ghost x = v * pow2(1202);
        let ghost rr = floor_root(x);
        let ghost num: nat = if rr * rr == x {
            rr
        } else {
            (2 * rr + 1) as nat
        };
        let ghost den: nat = if rr * rr == x {
            pow2(64)
        } else {
            pow2(65)
        };
        proof {
            lemma_root_operand(
                v,
                sa as nat,
                ea as nat,
                n as nat,
                k as nat,
                j as nat,
                wide as nat,
            );
            lemma_root_brackets(wide as nat, r as nat, j as nat, x);
            assert(r >= 0x4000_0000_0000_0000) by (nonlinear_arith)
                requires
                    wide < (r + 1) * (r + 1),
                    wide >= 0x10_0000_0000_0000 * 0x100_0000_0000_0000_0000,
                    r >= 0,
            ;
            lemma_pow2_pos(64);
            lemma_pow2_pos(65);
        }
        let m: u64 = round_parts(r, e, inexact, Ghost(num), Ghost(den));
        Float64::with_sign(false, m)
    }
}

/// The square root of a machine integer, rounded down.
fn integer_root(x: u128) -> (r: u128)
    requires
        x < 0x4000_0000_0000_0000_0000_0000_0000_0000,
    ensures
        is_floor_root(x as nat, r as nat),
        r < 0x8000_0000_0000_0000,
{
    let mut r: u128 = 0;
    let mut step: u128 = 0x8000_0000_0000_0000;
    assert(0x8000_0000_0000_0000 * 0x8000_0000_0000_0000
        == 0x4000_0000_0000_0000_0000_0000_0000_0000) by (nonlinear_arith);
    let ghost mut g: nat = 63;
    proof {
        lemma2_to64_rest();
    }
    while step > 1
        invariant
            step == pow2(g),
            r * r <= x < (r + step) * (r + step),
            r + step <= 0x8000_0000_0000_0000,
            x < 0x4000_0000_0000_0000_0000_0000_0000_0000,
        decreases step,
    {
        proof {
            if g == 0 {
                lemma2_to64();
            }
            lemma_pow2_unfold(g);
            g = (g - 1) as nat;
        }
        step = step / 2;
        let c: u128 = r + step;
        proof {
            assert(c * c <= 0x8000_0000_0000_0000 * 0x8000_0000_0000_0000) by (nonlinear_arith)
                requires
                    0 <= c <= 0x8000_0000_0000_0000,
            ;
            assert(0x8000_0000_0000_0000 * 0x8000_0000_0000_0000
                == 0x4000_0000_0000_0000_0000_0000_0000_0000) by (nonlinear_arith);
        }
        if c * c <= x {
            r = c;
        }
    }
    proof {
        lemma_pow2_pos(g);
    }
    r
}

/// There is only one rounded root.
proof fn lemma_floor_root_unique(x: nat, r: nat)
    requires
        is_floor_root(x, r),
    ensures
        floor_root(x) == r,
{
    let s = floor_root(x);
    assert(is_floor_root(x, s));
    assert(s == r) by (nonlinear_arith)
        requires
            s * s <= x,
            x < (s + 1) * (s + 1),
            r * r <= x,
            x < (r + 1) * (r + 1),
            s >= 0,
            r >= 0,
    ;
}

/// Every number has a rounded root.
proof fn lemma_floor_root_exists(x: nat)
    ensures
        is_floor_root(x, floor_root(x)),
    decreases x,
{
    if x == 0 {
        assert(0nat * 0nat <= 0 < (0nat + 1) * (0nat + 1)) by (nonlinear_arith);
        assert(is_floor_root(0, 0));
    } else {
        lemma_floor_root_exists((x - 1) as nat);
        let r = floor_root((x - 1) as nat);
        if x < (r + 1) * (r + 1) {
            assert(is_floor_root(x, r));
        } else {
            assert((r + 1) * (r + 1) < (r + 2) * (r + 2)) by (nonlinear_arith);
            assert(is_floor_root(x, r + 1));
        }
    }
}

/// The root of an even power of two times `a` is divisible by that power's root.
proof fn lemma_root_divides(r: nat, a: nat, j: nat) -> (q: nat)
    requires
        r * r == a * (pow2(j) * pow2(j)),
    ensures
        r == q * pow2(j),
        q * q == a,
    decreases j,
{
    if j == 0 {
        lemma2_to64();
        let p = pow2(0);
        assert(a * (p * p) == a && r * p == r) by (nonlinear_arith)
            requires
                p == 1,
        ;
        r
    } else {
        lemma_pow2_unfold(j);
        let h = pow2((j - 1) as nat);
        let p = pow2(j);
        assert(r * r == 4 * (a * (h * h))) by (nonlinear_arith)
            requires
                r * r == a * (p * p),
                p == 2 * h,
        ;
        let s = r / 2;
        let b = r % 2;
        assert(r * r == 4 * (s * s + s * b) + b * b) by (nonlinear_arith)
            requires
                r == 2 * s + b,
        ;
        if b == 1 {
            assert(b * b == 1);
            assert(false);
        }
        assert(b * b == 0);
        assert(s * b == 0);
        let q = lemma_root_divides(s, a, (j - 1) as nat);
        assert(r == q * p) by (nonlinear_arith)
            requires
                r == 2 * s,
                s == q * h,
                p == 2 * h,
        ;
        q
    }
}

proof fn lemma_root_operand(v: nat, sa: nat, ea: nat, n: nat, k: nat, j: nat, wide: nat)
    requires
        v == sa * pow2(ea),
        wide == (sa * pow2(n)) * pow2(k),
        ea + 1202 == n + k + 2 * j,
    ensures
        v * pow2(1202) == wide * (pow2(j) * pow2(j)),
{
    lemma_pow2_adds(ea, 1202);
    lemma_pow2_adds(j, j);
    lemma_pow2_adds(n, k);
    lemma_pow2_adds(n + k, j + j);
    let a = pow2(ea);
    let b = pow2(1202);
    let pn = pow2(n);
    let pk = pow2(k);
    let pj = pow2(j);
    assert((sa * a) * b == ((sa * pn) * pk) * (pj * pj)) by (nonlinear_arith)
        requires
            a * b == (pn * pk) * (pj * pj),
    ;
}

proof fn lemma_root_brackets(wide: nat, r: nat, j: nat, x: nat)
    requires
        is_floor_root(wide, r),
        x == wide * (pow2(j) * pow2(j)),
        j >= 64,
    ensures
        ({
            let rr = floor_root(x);
            let num: nat = if rr * rr == x {
                rr
            } else {
                (2 * rr + 1) as nat
            };
            let den: nat = if rr * rr == x {
                pow2(64)
            } else {
                pow2(65)
            };
            brackets(r, j - 64, r * r != wide, num, den)
        }),
{
    let p = pow2(j);
    lemma_pow2_pos(j);
    let rr = floor_root(x);
    lemma_floor_root_exists(x);
    if r * r == wide {
        let q = r * p;
        assert(q * q == x) by (nonlinear_arith)
            requires
                x == wide * (p * p),
                r * r == wide,
                q == r * p,
        ;
        assert(x < (q + 1) * (q + 1)) by (nonlinear_arith)
            requires
                q * q == x,
                q >= 0,
        ;
        lemma_floor_root_unique(x, q);
        lemma_pow2_adds(64, (j - 64) as nat);
        lemma_fundamental_div_mod_converse(q as int, p as int, r as int, 0);
    } else {
        if rr * rr == x {
            let q = lemma_root_divides(rr, wide, j);
            assert(q == r) by (nonlinear_arith)
                requires
                    q * q == wide,
                    r * r <= wide,
                    wide < (r + 1) * (r + 1),
                    q >= 0,
                    r >= 0,
            ;
            assert(false);
        }
        let lo = r * p;
        let hi = (r + 1) * p;
        assert(lo * lo <= x) by (nonlinear_arith)
            requires
                x == wide * (p * p),
                r * r <= wide,
                lo == r * p,
        ;
        assert(x < hi * hi) by (nonlinear_arith)
            requires
                x == wide * (p * p),
                wide < (r + 1) * (r + 1),
                hi == (r + 1) * p,
                p > 0,
        ;
        assert(lo <= rr) by (nonlinear_arith)
            requires
                lo * lo <= x,
                x < (rr + 1) * (rr + 1),
                rr >= 0,
        ;
        assert(rr < hi) by (nonlinear_arith)
            requires
                rr * rr <= x,
                x < hi * hi,
                rr >= 0,
                hi >= 0,
        ;
        lemma_pow2_adds(65, (j - 64) as nat);
        lemma_pow2_unfold(j + 1);
        let d = pow2(j + 1);
        let rest = 2 * rr + 1 - 2 * lo;
        assert(2 * rr + 1 == d * r + rest) by (nonlinear_arith)
            requires
                d == 2 * p,
                lo == r * p,
                rest == 2 * rr + 1 - 2 * lo,
        ;
        assert(hi == lo + p) by (nonlinear_arith)
            requires
                lo == r * p,
                hi == (r + 1) * p,
        ;
        lemma_fundamental_div_mod_converse((2 * rr + 1) as int, d as int, r as int, rest as int);
    }
}

/// The root of what is at most the square of a number is not rounded beyond that number.
pub proof fn lemma_root_at_most(a: Float64, m: nat)
    requires
        a.finite(),
        a.value() >= 0,
        m < INFINITE,
        abs_nat(a.value()) * pow2(1074) <= magnitude_value(m) * magnitude_value(m),
    ensures
        a.root().finite(),
        0 <= a.root().value() <= magnitude_value(m),
{
    let v = abs_nat(a.value());
    lemma_sign(a);
    if !a.zero() {
        lemma_nearest_root_at_most(v, m);
        let n = nearest_root(v);
        if n < m {
            lemma_magnitude_value_monotone(n, m);
        }
    }
}

proof fn lemma_nearest_root_at_most(v: nat, m: nat)
    requires
        m < INFINITE,
        v * pow2(1074) <= magnitude_value(m) * magnitude_value(m),
    ensures
        nearest_root(v) <= m,
{
    let w = magnitude_value(m);
    let x = v * pow2(1202);
    let r = floor_root(x);
    let p = pow2(64);
    lemma_floor_root_exists(x);
    lemma_pow2_adds(1074, 128);
    lemma_pow2_adds(64, 64);
    lemma_pow2_adds(64, 1);
    lemma2_to64();
    lemma2_to64_rest();
    assert(x <= (w * p) * (w * p)) by (nonlinear_arith)
        requires
            x == v * pow2(1202),
            pow2(1202) == pow2(1074) * pow2(128),
            pow2(128) == p * p,
            v * pow2(1074) <= w * w,
            p > 0,
    ;
    assert(r <= w * p && (r * r < x ==> r < w * p)) by (nonlinear_arith)
        requires
            r * r <= x,
            x <= (w * p) * (w * p),
            r >= 0,
            w * p >= 0,
    ;
    if r * r == x {
        lemma_nearest_at_most(r, p, m);
    } else {
        assert(2 * r + 1 <= w * pow2(65)) by (nonlinear_arith)
            requires
                r + 1 <= w * p,
                pow2(65) == p * 2,
        ;
        lemma_nearest_at_most((2 * r + 1) as nat, pow2(65), m);
    }
}

/// The root of a number whose root has an encoding is that root: where the square of what `m`
/// stands for is the number, `m` is the magnitude of the root.
pub proof fn lemma_root_of_square(a: Float64, m: nat)
    requires
        a.finite(),
        a.value() > 0,
        m < INFINITE,
        magnitude_value(m) * magnitude_value(m) == a.value() * one_unit(),
    ensures
        a.root() == Float64::of(false, m),
{
    let v = abs_nat(a.value());
    let mv = magnitude_value(m);
    let p = pow2(64);
    let x = v * pow2(1202);
    let r = mv * p;
    lemma_sign(a);
    lemma_pow2_adds(1074, 128);
    lemma_pow2_adds(64, 64);
    lemma_pow2_pos(64);
    assert(r * r == (mv * mv) * (p * p)) by (nonlinear_arith)
        requires
            r == mv * p,
    ;
    let q = pow2(128);
    let u = one_unit();
    assert((v * u) * q == v * (u * q)) by (nonlinear_arith);
    assert(r * r == x);
    assert(r * r < (r + 1) * (r + 1)) by (nonlinear_arith);
    lemma_floor_root_unique(x, r);
    lemma_nearest_at_least(r, p, m);
    lemma_nearest_at_most(r, p, m);
}

} // verus!
