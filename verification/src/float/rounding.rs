//! Rounding of an exact quotient to the nearest magnitude.
use vstd::prelude::*;
use vstd::arithmetic::div_mod::{
    lemma_fundamental_div_mod, lemma_fundamental_div_mod_converse,
};
use vstd::arithmetic::power2::pow2;
use vstd::arithmetic::power2::{
    lemma2_to64, lemma2_to64_rest, lemma_pow2_adds, lemma_pow2_pos, lemma_pow2_strictly_increases,
    lemma_pow2_unfold,
};
use crate::float::encoding::{BINADE, INFINITE};

verus! {

/// The integer nearest to `num / den`, the even one of two that are equally near.
pub open spec fn nearest_even(num: nat, den: nat) -> nat {
    let q = num / den;
    let r = num % den;
    if 2 * r > den || (2 * r == den && q % 2 == 1) {
        q + 1
    } else {
        q
    }
}

/// The least `s` for which `num / den` is below `2^53 * 2^s`: a significand has 53 bits, so this
/// many bits of the integral part of `num / den` are rounded away.
pub open spec fn scale(num: nat, den: nat) -> nat
    decreases num / den,
    when den > 0
    via scale_decreases
{
    if num < 2 * BINADE * den {
        0
    } else {
        1 + scale(num, 2 * den)
    }
}

#[via_fn]
proof fn scale_decreases(num: nat, den: nat) {
    if num >= 2 * BINADE * den {
        let q = num / den;
        let h = num / (2 * den);
        lemma_fundamental_div_mod(num as int, den as int);
        lemma_fundamental_div_mod(num as int, 2 * den as int);
        assert(2 * BINADE * den >= den) by (nonlinear_arith)
            requires
                BINADE == 0x0010_0000_0000_0000,
        ;
        let r = num % den;
        assert(q >= 1) by (nonlinear_arith)
            requires
                num == den * q + r,
                r < den,
                num >= den,
                q >= 0,
        ;
        assert(h < q) by (nonlinear_arith)
            requires
                num == den * q + num % den,
                0 <= num % den < den,
                num == 2 * den * h + num % (2 * den),
                num % (2 * den) >= 0,
                q >= 1,
        ;
    }
}

/// The magnitude nearest to `num / den` units of `2^-1074`.
pub open spec fn nearest_magnitude(num: nat, den: nat) -> nat {
    let s = scale(num, den);
    let m = s * BINADE as nat + nearest_even(num, den * pow2(s));
    if m >= INFINITE {
        INFINITE as nat
    } else {
        m
    }
}

/// `num / den` lies between `m * 2^e` and the next multiple of `2^e`, on the former exactly when
/// `inexact` is false.
pub open spec fn brackets(m: nat, e: int, inexact: bool, num: nat, den: nat) -> bool {
    let n = if e >= 0 {
        num
    } else {
        num * pow2((-e) as nat)
    };
    let d = if e >= 0 {
        den * pow2(e as nat)
    } else {
        den
    };
    m == n / d && inexact == (n % d != 0)
}

/// Quotient and remainder do not change, and scale, when both operands are scaled.
pub proof fn lemma_scaled_div(a: nat, b: nat, k: nat)
    requires
        b > 0,
        k > 0,
    ensures
        b * k > 0,
        (a * k) / (b * k) == a / b,
        (a * k) % (b * k) == (a % b) * k,
{
    let q = (a / b) as int;
    let r = (a % b) as int;
    lemma_fundamental_div_mod(a as int, b as int);
    assert(b * k > 0) by (nonlinear_arith)
        requires
            b > 0,
            k > 0,
    ;
    assert(a * k == (b * k) * q + r * k) by (nonlinear_arith)
        requires
            a == b * q + r,
    ;
    assert(0 <= r * k < b * k) by (nonlinear_arith)
        requires
            0 <= r < b,
            k > 0,
    ;
    lemma_fundamental_div_mod_converse((a * k) as int, (b * k) as int, q, r * k);
}

/// Rounding a quotient does not depend on how it is written.
pub proof fn lemma_nearest_even_scaled(a: nat, b: nat, k: nat)
    requires
        b > 0,
        k > 0,
    ensures
        nearest_even(a * k, b * k) == nearest_even(a, b),
{
    lemma_scaled_div(a, b, k);
    let r = a % b;
    assert((2 * (r * k) > b * k) == (2 * r > b)) by (nonlinear_arith)
        requires
            k > 0,
    ;
    assert((2 * (r * k) == b * k) == (2 * r == b)) by (nonlinear_arith)
        requires
            k > 0,
    ;
}

/// An exact quotient rounds to itself.
pub proof fn lemma_nearest_even_exact(q: nat, den: nat)
    requires
        den > 0,
    ensures
        nearest_even(q * den, den) == q,
{
    lemma_fundamental_div_mod_converse((q * den) as int, den as int, q as int, 0);
}

/// Rounding `n / (d * t)` for an even `t` can be read off the quotient `m = n / d` and whether
/// that division leaves a remainder.
pub proof fn lemma_nearest_even_two_steps(n: nat, d: nat, t: nat)
    requires
        d > 0,
        t > 0,
        t % 2 == 0,
    ensures
        d * t > 0,
        ({
            let m = n / d;
            let q = m / t;
            let r = m % t;
            nearest_even(n, d * t) == if 2 * r > t || (2 * r == t && (n % d != 0 || q % 2 == 1)) {
                q + 1
            } else {
                q
            }
        }),
{
    let m = n / d;
    let f = n % d;
    let q = m / t;
    let r = m % t;
    lemma_fundamental_div_mod(n as int, d as int);
    lemma_fundamental_div_mod(m as int, t as int);
    assert(d * t > 0) by (nonlinear_arith)
        requires
            d > 0,
            t > 0,
    ;
    let rr = d * r + f;
    assert(n == (d * t) * q + rr) by (nonlinear_arith)
        requires
            n == d * m + f,
            m == t * q + r,
            rr == d * r + f,
    ;
    assert(0 <= rr < d * t) by (nonlinear_arith)
        requires
            0 <= f < d,
            0 <= r < t,
            rr == d * r + f,
    ;
    lemma_fundamental_div_mod_converse(n as int, (d * t) as int, q as int, rr as int);
    if 2 * r > t {
        assert(2 * rr > d * t) by (nonlinear_arith)
            requires
                2 * r > t,
                rr == d * r + f,
                d > 0,
                f >= 0,
        ;
    } else if 2 * r == t {
        assert(2 * rr == d * t + 2 * f) by (nonlinear_arith)
            requires
                2 * r == t,
                rr == d * r + f,
        ;
    } else {
        assert(2 * r <= t - 2);
        assert(2 * rr < d * t) by (nonlinear_arith)
            requires
                2 * r <= t - 2,
                rr == d * r + f,
                f < d,
                d > 0,
        ;
    }
}

/// What characterises [`scale`].
pub proof fn lemma_scale_is(num: nat, den: nat, s: nat)
    requires
        den > 0,
        num < 2 * BINADE * den * pow2(s),
        s > 0 ==> num >= BINADE * den * pow2(s),
    ensures
        scale(num, den) == s,
    decreases s,
{
    if s == 0 {
        lemma2_to64();
    } else {
        lemma_pow2_unfold(s);
        let p = pow2((s - 1) as nat);
        lemma_pow2_pos((s - 1) as nat);
        assert(BINADE * den * pow2(s) == 2 * BINADE * den * p) by (nonlinear_arith)
            requires
                pow2(s) == 2 * p,
        ;
        assert(2 * BINADE * den * p >= 2 * BINADE * den) by (nonlinear_arith)
            requires
                p >= 1,
        ;
        assert(2 * BINADE * (2 * den) * p == 2 * BINADE * den * pow2(s)) by (nonlinear_arith)
            requires
                pow2(s) == 2 * p,
        ;
        assert(BINADE * (2 * den) * p == BINADE * den * pow2(s)) by (nonlinear_arith)
            requires
                pow2(s) == 2 * p,
        ;
        lemma_scale_is(num, 2 * den, (s - 1) as nat);
    }
}

/// `2^k` as a machine integer.
pub fn power_of_two(k: u32) -> (r: u128)
    requires
        k < 128,
    ensures
        r == pow2(k as nat),
{
    let mut r: u128 = 1;
    let mut i: u32 = 0;
    proof {
        lemma2_to64();
    }
    while i < k
        invariant
            i <= k < 128,
            r == pow2(i as nat),
        decreases k - i,
    {
        proof {
            lemma_pow2_unfold((i + 1) as nat);
            lemma2_to64_rest();
            if i + 1 < 127 {
                lemma_pow2_strictly_increases((i + 1) as nat, 127);
            }
            lemma_pow2_adds(64, 63);
            assert(pow2(127) == 0x8000_0000_0000_0000_0000_0000_0000_0000) by {
                assert(0x1_0000_0000_0000_0000 * 0x8000_0000_0000_0000
                    == 0x8000_0000_0000_0000_0000_0000_0000_0000) by (nonlinear_arith);
            }
        }
        r = r * 2;
        i = i + 1;
    }
    r
}

/// The number of binary digits of `m`.
pub fn bit_length(m: u128) -> (l: u32)
    requires
        m > 0,
    ensures
        1 <= l <= 128,
        pow2((l - 1) as nat) <= m < pow2(l as nat),
{
    let mut l: u32 = 0;
    let mut rest: u128 = m;
    proof {
        lemma2_to64();
    }
    while rest > 0
        invariant
            l <= 128,
            rest * pow2(l as nat) <= m < (rest + 1) * pow2(l as nat),
            rest == 0 ==> l >= 1 && pow2((l - 1) as nat) <= m,
        decreases rest,
    {
        proof {
            let p = pow2(l as nat);
            lemma_pow2_pos(l as nat);
            lemma_pow2_unfold((l + 1) as nat);
            let h = (rest / 2) as nat;
            let b = (rest % 2) as nat;
            assert(h * (2 * p) <= m < (h + 1) * (2 * p)) by (nonlinear_arith)
                requires
                    rest == 2 * h + b,
                    b <= 1,
                    rest * p <= m < (rest + 1) * p,
            ;
            assert(p <= m) by (nonlinear_arith)
                requires
                    rest >= 1,
                    rest * p <= m,
            ;
            if l >= 128 {
                lemma_pow2_adds(64, 64);
                if l > 128 {
                    lemma_pow2_strictly_increases(128, l as nat);
                }
                assert(pow2(128) == 0x1_0000_0000_0000_0000_0000_0000_0000_0000) by {
                    lemma2_to64_rest();
                    assert(0x1_0000_0000_0000_0000 * 0x1_0000_0000_0000_0000
                        == 0x1_0000_0000_0000_0000_0000_0000_0000_0000) by (nonlinear_arith);
                }
            }
        }
        rest = rest / 2;
        l = l + 1;
    }
    assert(1 * pow2(l as nat) == pow2(l as nat));
    l
}

proof fn lemma_brackets_scale(
    m: nat,
    e: int,
    inexact: bool,
    num: nat,
    den: nat,
    l: nat,
    s: nat,
)
    requires
        den > 0,
        brackets(m, e, inexact, num, den),
        l >= 1,
        pow2((l - 1) as nat) <= m < pow2(l),
        s == if l + e > 53 {
            l + e - 53
        } else {
            0
        },
    ensures
        scale(num, den) == s,
{
    lemma2_to64_rest();
    lemma_pow2_adds(53, s);
    lemma_pow2_adds(52, s);
    let pl = pow2(l);
    let pl1 = pow2((l - 1) as nat);
    let hi = pow2((53 + s) as nat);
    let lo = pow2((52 + s) as nat);
    let ps = pow2(s);
    assert(2 * BINADE * den * ps == den * hi) by (nonlinear_arith)
        requires
            hi == 0x20_0000_0000_0000 * ps,
            BINADE == 0x10_0000_0000_0000,
    ;
    assert(BINADE * den * ps == den * lo) by (nonlinear_arith)
        requires
            lo == 0x10_0000_0000_0000 * ps,
            BINADE == 0x10_0000_0000_0000,
    ;
    if e >= 0 {
        let pe = pow2(e as nat);
        lemma_pow2_pos(e as nat);
        let d = den * pe;
        assert(d > 0) by (nonlinear_arith)
            requires
                den > 0,
                pe > 0,
                d == den * pe,
        ;
        let r = num % d;
        lemma_fundamental_div_mod(num as int, d as int);
        lemma_pow2_adds(e as nat, l);
        if e + l < 53 + s {
            lemma_pow2_strictly_increases((e + l) as nat, (53 + s) as nat);
        }
        assert(num < den * hi) by (nonlinear_arith)
            requires
                num == d * m + r,
                r < d,
                d == den * pe,
                m + 1 <= pl,
                pe * pl <= hi,
                den > 0,
                pe > 0,
        ;
        if s > 0 {
            lemma_pow2_adds(e as nat, (l - 1) as nat);
            assert(num >= den * lo) by (nonlinear_arith)
                requires
                    num == d * m + r,
                    r >= 0,
                    d == den * pe,
                    m >= pl1,
                    pe * pl1 == lo,
                    den > 0,
                    pe > 0,
            ;
        }
    } else {
        let k = (-e) as nat;
        let pk = pow2(k);
        lemma_pow2_pos(k);
        let n = num * pk;
        let r = n % den;
        lemma_fundamental_div_mod(n as int, den as int);
        lemma_pow2_adds((53 + s) as nat, k);
        if l < 53 + s + k {
            lemma_pow2_strictly_increases(l, (53 + s + k) as nat);
        }
        assert(num < den * hi) by (nonlinear_arith)
            requires
                num * pk == den * m + r,
                r < den,
                m + 1 <= pl,
                pl <= hi * pk,
                den > 0,
                pk > 0,
        ;
        if s > 0 {
            lemma_pow2_adds((52 + s) as nat, k);
            assert(num >= den * lo) by (nonlinear_arith)
                requires
                    num * pk == den * m + r,
                    r >= 0,
                    m >= pl1,
                    pl1 == lo * pk,
                    den > 0,
                    pk > 0,
            ;
        }
    }
    lemma_scale_is(num, den, s);
}

proof fn lemma_brackets_nearest(m: nat, e: int, inexact: bool, num: nat, den: nat, s: nat)
    requires
        den > 0,
        brackets(m, e, inexact, num, den),
        inexact ==> s > e,
    ensures
        s > e ==> ({
            let t = pow2((s - e) as nat);
            let q = m / t;
            let r = m % t;
            nearest_even(num, den * pow2(s)) == if 2 * r > t || (2 * r == t && (inexact || q % 2
                == 1)) {
                q + 1
            } else {
                q
            }
        }),
        s <= e ==> nearest_even(num, den * pow2(s)) == m * pow2((e - s) as nat),
{
    let ps = pow2(s);
    lemma_pow2_pos(s);
    if s > e {
        let t = pow2((s - e) as nat);
        lemma_pow2_pos((s - e) as nat);
        lemma_pow2_unfold((s - e) as nat);
        if e >= 0 {
            let pe = pow2(e as nat);
            lemma_pow2_pos(e as nat);
            lemma_pow2_adds(e as nat, (s - e) as nat);
            assert(den * pe > 0) by (nonlinear_arith)
                requires
                    den > 0,
                    pe > 0,
            ;
            lemma_nearest_even_two_steps(num, den * pe, t);
            assert((den * pe) * t == den * ps) by (nonlinear_arith)
                requires
                    pe * t == ps,
            ;
        } else {
            let k = (-e) as nat;
            let pk = pow2(k);
            lemma_pow2_pos(k);
            lemma_pow2_adds(s, k);
            lemma_nearest_even_two_steps(num * pk, den, t);
            assert(den * ps > 0) by (nonlinear_arith)
                requires
                    den > 0,
                    ps > 0,
            ;
            lemma_nearest_even_scaled(num, den * ps, pk);
            assert((den * ps) * pk == den * t) by (nonlinear_arith)
                requires
                    ps * pk == t,
            ;
        }
    } else {
        let pe = pow2(e as nat);
        let pd = pow2((e - s) as nat);
        lemma_pow2_pos(e as nat);
        lemma_pow2_adds((e - s) as nat, s);
        assert(den * pe > 0) by (nonlinear_arith)
            requires
                den > 0,
                pe > 0,
        ;
        lemma_fundamental_div_mod(num as int, (den * pe) as int);
        assert(num == (m * pd) * (den * ps)) by (nonlinear_arith)
            requires
                num == (den * pe) * m,
                pe == pd * ps,
        ;
        assert(den * ps > 0) by (nonlinear_arith)
            requires
                den > 0,
                ps > 0,
        ;
        lemma_nearest_even_exact(m * pd, den * ps);
    }
}

/// A rounded significand has at most 53 bits, or is the power of two that follows; it has 53 bits
/// wherever bits were rounded away.
pub proof fn lemma_rounded_significand(num: nat, den: nat)
    requires
        den > 0,
    ensures
        nearest_even(num, den * pow2(scale(num, den))) <= 2 * BINADE,
        scale(num, den) > 0 ==> nearest_even(num, den * pow2(scale(num, den))) >= BINADE,
{
    let s = scale(num, den);
    lemma_scale_bounds(num, den);
    let d = den * pow2(s);
    lemma_pow2_pos(s);
    assert(d > 0) by (nonlinear_arith)
        requires
            den > 0,
            pow2(s) > 0,
            d == den * pow2(s),
    ;
    let q = num / d;
    let r = num % d;
    lemma_fundamental_div_mod(num as int, d as int);
    assert(2 * BINADE * den * pow2(s) == 2 * BINADE * d) by (nonlinear_arith)
        requires
            d == den * pow2(s),
    ;
    assert(BINADE * den * pow2(s) == BINADE * d) by (nonlinear_arith)
        requires
            d == den * pow2(s),
    ;
    assert(q < 2 * BINADE) by (nonlinear_arith)
        requires
            num == d * q + r,
            r >= 0,
            d > 0,
            num < 2 * BINADE * d,
    ;
    if s > 0 {
        assert(q >= BINADE) by (nonlinear_arith)
            requires
                num == d * q + r,
                r < d,
                d > 0,
                num >= BINADE * d,
        ;
    }
}

/// The scale brings the quotient into the range of significands.
pub proof fn lemma_scale_bounds(num: nat, den: nat)
    requires
        den > 0,
    ensures
        num < 2 * BINADE * den * pow2(scale(num, den)),
        scale(num, den) > 0 ==> num >= BINADE * den * pow2(scale(num, den)),
    decreases scale(num, den),
{
    if num < 2 * BINADE * den {
        lemma2_to64();
    } else {
        lemma_scale_bounds(num, 2 * den);
        let s = scale(num, 2 * den);
        lemma_pow2_unfold((s + 1) as nat);
        let p = pow2(s);
        assert(2 * BINADE * (2 * den) * p == 2 * BINADE * den * pow2((s + 1) as nat))
            by (nonlinear_arith)
            requires
                pow2((s + 1) as nat) == 2 * p,
        ;
        assert(BINADE * (2 * den) * p == BINADE * den * pow2((s + 1) as nat)) by (nonlinear_arith)
            requires
                pow2((s + 1) as nat) == 2 * p,
        ;
        if s == 0 {
            lemma2_to64();
            assert(BINADE * den * 2 == 2 * BINADE * den) by (nonlinear_arith);
        }
    }
}

/// The magnitude nearest to `num / den`, which is known to `m * 2^e` and to whether anything is
/// lost there.
pub(crate) fn round_parts(
    m: u128,
    e: i32,
    inexact: bool,
    Ghost(num): Ghost<nat>,
    Ghost(den): Ghost<nat>,
) -> (r: u64)
    requires
        0 < m < 0x100_0000_0000_0000_0000_0000_0000_0000,
        -6000 <= e <= 6000,
        den > 0,
        brackets(m as nat, e as int, inexact, num, den),
        inexact ==> m >= 0x40_0000_0000_0000,
    ensures
        r == nearest_magnitude(num, den),
        r <= INFINITE,
{
    let l: u32 = bit_length(m);
    proof {
        assert(pow2(120) == 0x100_0000_0000_0000_0000_0000_0000_0000) by {
            lemma2_to64();
            lemma2_to64_rest();
            lemma_pow2_adds(64, 56);
            assert(0x1_0000_0000_0000_0000 * 0x100_0000_0000_0000
                == 0x100_0000_0000_0000_0000_0000_0000_0000) by (nonlinear_arith);
        }
        if l > 120 {
            if l - 1 > 120 {
                lemma_pow2_strictly_increases(120, (l - 1) as nat);
            }
        }
        lemma2_to64_rest();
        if inexact && l < 55 {
            if l < 54 {
                lemma_pow2_strictly_increases(l as nat, 54);
            }
        }
    }
    let top: i32 = l as i32 + e - 53;
    let s: i32 = if top > 0 {
        top
    } else {
        0
    };
    proof {
        lemma_brackets_scale(m as nat, e as int, inexact, num, den, l as nat, s as nat);
        lemma_rounded_significand(num, den);
        lemma_brackets_nearest(m as nat, e as int, inexact, num, den, s as nat);
    }
    if s >= 2046 {
        return INFINITE;
    }
    let q: u128 = if s <= e {
        let p: u128 = power_of_two((e - s) as u32);
        proof {
            lemma_pow2_adds(l as nat, (e - s) as nat);
            lemma_pow2_pos((e - s) as nat);
            if l + (e - s) < 53 {
                lemma_pow2_strictly_increases((l + (e - s)) as nat, 53);
            }
            let pl = pow2(l as nat);
            assert(m * p < 0x20_0000_0000_0000) by (nonlinear_arith)
                requires
                    m < pl,
                    pl * p <= 0x20_0000_0000_0000,
                    p > 0,
            ;
        }
        m * p
    } else if s - e > 120 {
        proof {
            let t = (s - e) as nat;
            lemma_pow2_unfold(t);
            if t - 1 > 120 {
                lemma_pow2_strictly_increases(120, (t - 1) as nat);
            }
            lemma_small_div(m as nat, pow2(t));
        }
        0
    } else {
        let p: u128 = power_of_two((s - e) as u32);
        proof {
            lemma_pow2_pos((s - e) as nat);
            if s - e < 120 {
                lemma_pow2_strictly_increases((s - e) as nat, 120);
            }
        }
        let q: u128 = m / p;
        let r: u128 = m % p;
        if 2 * r > p || (2 * r == p && (inexact || q % 2 == 1)) {
            q + 1
        } else {
            q
        }
    };
    let r: u64 = s as u64 * BINADE + q as u64;
    if r >= INFINITE {
        INFINITE
    } else {
        r
    }
}

proof fn lemma_small_div(a: nat, b: nat)
    requires
        a < b,
    ensures
        a / b == 0,
        a % b == a,
{
    lemma_fundamental_div_mod_converse(a as int, b as int, 0, a as int);
}

} // verus!
