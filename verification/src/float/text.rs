//! Text with a fixed number of decimal places.
use vstd::prelude::*;
use vstd::arithmetic::div_mod::{lemma_fundamental_div_mod, lemma_fundamental_div_mod_converse};
use vstd::arithmetic::power2::pow2;
use vstd::arithmetic::power2::{
    lemma2_to64, lemma2_to64_rest, lemma_pow2_adds, lemma_pow2_pos, lemma_pow2_strictly_increases,
    lemma_pow2_unfold,
};
use vstd::string::*;
use crate::float::arith::{abs_nat, lemma_magnitude_value_zero, one_unit, split};
use crate::float::encoding::{Float64, magnitude_value, INFINITE};
use crate::float::rounding::{
    lemma_nearest_even_exact, lemma_nearest_even_scaled, nearest_even, power_of_two,
};
use crate::text::{decimal, digit, digit_text, last_digits, push_decimal, push_last_digits};

verus! {

/// `10^k`.
pub open spec fn ten_to(k: nat) -> nat
    decreases k,
{
    if k == 0 {
        1
    } else {
        10 * ten_to((k - 1) as nat)
    }
}

impl Float64 {
    /// The number with `places` decimal places: the nearest such decimal number, the one with an
    /// even last digit of two that are equally near.
    pub open spec fn fixed(self, places: nat) -> Seq<char> {
        let sign = if self.negative() && !self.nan() {
            "-"@
        } else {
            Seq::empty()
        };
        if self.nan() {
            "NaN"@
        } else if self.infinite() {
            sign + "inf"@
        } else {
            let d = nearest_even(abs_nat(self.value()) * ten_to(places), one_unit());
            sign + decimal(d / ten_to(places)) + "."@ + last_digits(d, places)
        }
    }
}

/// The number that decimal digits, the least significant first, stand for.
pub open spec fn digits_value(s: Seq<u8>) -> nat
    decreases s.len(),
{
    if s.len() == 0 {
        0
    } else {
        s[0] as nat + 10 * digits_value(s.skip(1))
    }
}

/// Whether `s` holds decimal digits, the least significant first, without leading zeros.
pub open spec fn digits_ok(s: Seq<u8>) -> bool {
    &&& s.len() > 0
    &&& forall|i: int| 0 <= i < s.len() ==> #[trigger] s[i] < 10
    &&& s.len() > 1 ==> s[s.len() - 1] > 0
}

/// The numerals of the digits, the most significant first.
pub open spec fn digits_text(s: Seq<u8>) -> Seq<char>
    decreases s.len(),
{
    if s.len() == 0 {
        Seq::empty()
    } else {
        digits_text(s.skip(1)).push(digit(s[0] as nat))
    }
}

proof fn lemma_digits_positive(s: Seq<u8>)
    requires
        s.len() > 0,
        s[s.len() - 1] > 0,
    ensures
        digits_value(s) > 0,
    decreases s.len(),
{
    if s.len() > 1 {
        lemma_digits_positive(s.skip(1));
    }
}

proof fn lemma_digits_text(s: Seq<u8>)
    requires
        digits_ok(s),
    ensures
        digits_text(s) == decimal(digits_value(s)),
    decreases s.len(),
{
    let rest = s.skip(1);
    let v = digits_value(rest);
    if s.len() == 1 {
        assert(digits_value(rest) == 0);
        assert(digits_text(rest) =~= Seq::<char>::empty());
        assert(digits_text(s) =~= seq![digit(s[0] as nat)]);
    } else {
        assert(rest[rest.len() - 1] == s[s.len() - 1]);
        lemma_digits_text(rest);
        lemma_digits_positive(rest);
        lemma_fundamental_div_mod_converse(digits_value(s) as int, 10, v as int, s[0] as int);
    }
}

/// The digits of `n`.
fn to_digits(n: u64) -> (r: Vec<u8>)
    ensures
        digits_ok(r@),
        digits_value(r@) == n,
    decreases n,
{
    let mut r: Vec<u8> = Vec::new();
    if n < 10 {
        r.push(n as u8);
        assert(r@.skip(1).len() == 0);
        assert(digits_value(r@.skip(1)) == 0);
        return r;
    }
    let mut rest: Vec<u8> = to_digits(n / 10);
    r.push((n % 10) as u8);
    let ghost high = rest@;
    r.append(&mut rest);
    proof {
        assert(r@.skip(1) =~= high);
        if high.len() == 1 && high[0] == 0 {
            assert(digits_value(high.skip(1)) == 0);
        }
        assert forall|i: int| 0 <= i < r@.len() implies #[trigger] r@[i] < 10 by {
            if i > 0 {
                assert(r@[i] == high[i - 1]);
            }
        }
        assert(r@[r@.len() - 1] == high[high.len() - 1]);
    }
    r
}

proof fn lemma_digits_push(s: Seq<u8>, d: u8)
    ensures
        digits_value(s.push(d)) == digits_value(s) + d * ten_to(s.len()),
    decreases s.len(),
{
    if s.len() == 0 {
        assert(s.push(d).skip(1).len() == 0);
        assert(digits_value(s.push(d).skip(1)) == 0);
        let t = ten_to(0);
        assert(d * t == d) by (nonlinear_arith)
            requires
                t == 1,
        ;
    } else {
        assert(s.push(d).skip(1) =~= s.skip(1).push(d));
        lemma_digits_push(s.skip(1), d);
        let t = ten_to((s.len() - 1) as nat);
        assert(10 * (d * t) == d * (10 * t)) by (nonlinear_arith);
    }
}

/// Doubles the number that the digits stand for.
fn double_digits(s: &Vec<u8>) -> (r: Vec<u8>)
    requires
        digits_ok(s@),
        digits_value(s@) > 0,
    ensures
        digits_ok(r@),
        digits_value(r@) == 2 * digits_value(s@),
{
    let mut r: Vec<u8> = Vec::new();
    let mut carry: u8 = 0;
    let mut i: usize = 0;
    assert(s@.take(0) =~= Seq::<u8>::empty());
    while i < s.len()
        invariant
            i <= s.len(),
            digits_ok(s@),
            r@.len() == i,
            carry <= 1,
            forall|k: int| 0 <= k < r@.len() ==> #[trigger] r@[k] < 10,
            i > 0 && i == s.len() ==> carry > 0 || r@[i - 1] > 0 || s@[i - 1] == 0,
            digits_value(r@) + carry * ten_to(i as nat) == 2 * digits_value(s@.take(i as int)),
        decreases s.len() - i,
    {
        let d: u8 = 2 * s[i] + carry;
        let ghost before = r@;
        let ghost c = carry;
        let (low, high): (u8, u8) = if d >= 10 {
            (d - 10, 1)
        } else {
            (d, 0)
        };
        r.push(low);
        carry = high;
        proof {
            lemma_digits_push(before, low);
            assert(s@.take(i + 1) =~= s@.take(i as int).push(s@[i as int]));
            lemma_digits_push(s@.take(i as int), s@[i as int]);
            let t = ten_to(i as nat);
            assert(ten_to((i + 1) as nat) == 10 * t);
            let x = s@[i as int];
            assert(low * t + high * (10 * t) == 2 * (x * t) + c * t) by (nonlinear_arith)
                requires
                    low + 10 * high == 2 * x + c,
            ;
        }
        i = i + 1;
    }
    assert(s@.take(i as int) =~= s@);
    if carry > 0 {
        proof {
            lemma_digits_push(r@, carry);
        }
        r.push(carry);
    } else {
        proof {
            if s@.len() == 1 && s@[0] == 0 {
                assert(digits_value(s@.skip(1)) == 0);
            }
        }
    }
    r
}

/// Appends the digits, the most significant first.
fn push_digits(out: &mut String, s: &Vec<u8>)
    requires
        digits_ok(s@),
    ensures
        final(out)@ == old(out)@ + decimal(digits_value(s@)),
{
    let mut i: usize = s.len();
    assert(s@.skip(s@.len() as int).len() == 0);
    assert(digits_text(s@.skip(s@.len() as int)) =~= Seq::<char>::empty());
    assert(old(out)@ + Seq::<char>::empty() =~= old(out)@);
    while i > 0
        invariant
            i <= s.len(),
            digits_ok(s@),
            out@ == old(out)@ + digits_text(s@.skip(i as int)),
        decreases i,
    {
        i = i - 1;
        out.append(digit_text(s[i]));
        proof {
            assert(s@.skip(i as int).skip(1) =~= s@.skip(i + 1));
            assert(s@.skip(i as int)[0] == s@[i as int]);
            assert(old(out)@ + digits_text(s@.skip(i + 1)) + seq![digit(s@[i as int] as nat)]
                =~= old(out)@ + digits_text(s@.skip(i as int)));
        }
    }
    proof {
        assert(s@.skip(0) =~= s@);
        lemma_digits_text(s@);
    }
}

/// `10^k` as a machine integer.
fn power_of_ten(k: u32) -> (r: u128)
    requires
        k <= 9,
    ensures
        r == ten_to(k as nat),
        1 <= r <= 1_000_000_000,
{
    let mut r: u128 = 1;
    let mut i: u32 = 0;
    proof {
        reveal_with_fuel(ten_to, 10);
    }
    while i < k
        invariant
            i <= k <= 9,
            r == ten_to(i as nat),
            r >= 1,
            i == 0 ==> r == 1,
            i == 1 ==> r == 10,
            i == 2 ==> r == 100,
            i == 3 ==> r == 1_000,
            i == 4 ==> r == 10_000,
            i == 5 ==> r == 100_000,
            i == 6 ==> r == 1_000_000,
            i == 7 ==> r == 10_000_000,
            i == 8 ==> r == 100_000_000,
            i == 9 ==> r == 1_000_000_000,
        decreases k - i,
    {
        r = r * 10;
        i = i + 1;
    }
    r
}

/// The integer nearest to `n / 2^t`.
pub(crate) fn nearest_shifted(n: u128, t: u32) -> (r: u128)
    requires
        n < 0x100_0000_0000_0000_0000_0000_0000_0000,
        0 < t,
    ensures
        r == nearest_even(n as nat, pow2(t as nat)),
        r <= n,
{
    proof {
        lemma_pow2_unfold(t as nat);
        lemma_pow2_pos((t - 1) as nat);
    }
    if t > 120 {
        proof {
            lemma2_to64();
            lemma2_to64_rest();
            lemma_pow2_adds(64, 56);
            assert(0x1_0000_0000_0000_0000 * 0x100_0000_0000_0000
                == 0x100_0000_0000_0000_0000_0000_0000_0000) by (nonlinear_arith);
            if t - 1 > 120 {
                lemma_pow2_strictly_increases(120, (t - 1) as nat);
            }
            lemma_fundamental_div_mod_converse(n as int, pow2(t as nat) as int, 0, n as int);
        }
        return 0;
    }
    let p: u128 = power_of_two(t);
    proof {
        let q = n as nat / p as nat;
        lemma_fundamental_div_mod(n as int, p as int);
        assert(2 * q <= n) by (nonlinear_arith)
            requires
                n == p * q + n % p,
                n % p >= 0,
                p >= 2,
                q >= 0,
        ;
        lemma2_to64();
        lemma2_to64_rest();
        lemma_pow2_adds(64, 56);
        assert(0x1_0000_0000_0000_0000 * 0x100_0000_0000_0000
            == 0x100_0000_0000_0000_0000_0000_0000_0000) by (nonlinear_arith);
        if t < 120 {
            lemma_pow2_strictly_increases(t as nat, 120);
        }
    }
    let q: u128 = n / p;
    let r: u128 = n % p;
    if 2 * r > p || (2 * r == p && q % 2 == 1) {
        assert(n > 0);
        q + 1
    } else {
        q
    }
}

proof fn lemma_last_digits_of_multiple(n: nat, k: nat)
    ensures
        last_digits(n * ten_to(k), k) == last_digits(0, k),
    decreases k,
{
    if k > 0 {
        let t = ten_to((k - 1) as nat);
        let m = n * t;
        assert(n * ten_to(k) == 10 * m) by (nonlinear_arith)
            requires
                ten_to(k) == 10 * t,
                m == n * t,
        ;
        lemma_fundamental_div_mod_converse((10 * m) as int, 10, m as int, 0);
        lemma_last_digits_of_multiple(n, (k - 1) as nat);
    }
}

impl Float64 {
    /// Appends the number with `places` decimal places.
    pub fn push_fixed(self, out: &mut String, places: u32)
        requires
            0 < places <= 9,
        ensures
            final(out)@ == old(out)@ + self.fixed(places as nat),
    {
        let a: u64 = self.mag();
        let ghost start = out@;
        if a > INFINITE {
            out.append("NaN");
            return;
        }
        if self.is_negative() {
            out.append("-");
        }
        let ghost sign = if self.negative() {
            "-"@
        } else {
            Seq::empty()
        };
        assert(out@ =~= start + sign);
        if a == INFINITE {
            out.append("inf");
            assert(out@ =~= start + (sign + "inf"@));
            return;
        }
        let ghost v = magnitude_value(a as nat);
        assert(abs_nat(self.value()) == v);
        let t: u128 = power_of_ten(places);
        let ghost d = nearest_even(v * ten_to(places as nat), one_unit());
        proof {
            lemma_pow2_pos(1074);
        }
        if a == 0 {
            proof {
                lemma_magnitude_value_zero(0);
                assert(v * t == 0) by (nonlinear_arith)
                    requires
                        v == 0,
                ;
                lemma_fundamental_div_mod_converse(0, one_unit() as int, 0, 0);
                lemma_fundamental_div_mod_converse(0, t as int, 0, 0);
            }
            push_decimal(out, 0);
            out.append(".");
            push_last_digits(out, 0, places);
            assert(out@ =~= start + self.fixed(places as nat));
            return;
        }
        let (s, e): (u64, i32) = split(a);
        if e < 1074 {
            let n: u128 = {
                assert(0 < s * t <= 0x20_0000_0000_0000 * 1_000_000_000) by (nonlinear_arith)
                    requires
                        0 < s < 0x20_0000_0000_0000,
                        1 <= t <= 1_000_000_000,
                ;
                s as u128 * t
            };
            let r: u128 = nearest_shifted(n, (1074 - e) as u32);
            proof {
                let f = (1074 - e) as nat;
                let pe = pow2(e as nat);
                lemma_pow2_pos(e as nat);
                lemma_pow2_pos(f);
                lemma_pow2_adds(f, e as nat);
                assert(v * t == n * pe) by (nonlinear_arith)
                    requires
                        v == s * pe,
                        n == s * t,
                ;
                lemma_nearest_even_scaled(n as nat, pow2(f), pe);
            }
            push_decimal(out, r / t);
            out.append(".");
            push_last_digits(out, r, places);
            assert(out@ =~= start + self.fixed(places as nat));
        } else {
            let mut digits: Vec<u8> = to_digits(s);
            let mut i: i32 = 1074;
            proof {
                lemma2_to64();
                assert(s * pow2(0) == s);
            }
            while i < e
                invariant
                    1074 <= i <= e,
                    0 < s,
                    digits_ok(digits@),
                    digits_value(digits@) > 0,
                    digits_value(digits@) == s * pow2((i - 1074) as nat),
                decreases e - i,
            {
                let ghost p = pow2((i - 1074) as nat);
                digits = double_digits(&digits);
                i = i + 1;
                proof {
                    lemma_pow2_unfold((i - 1074) as nat);
                    assert(2 * (s * p) == s * (2 * p)) by (nonlinear_arith);
                }
            }
            let ghost n = digits_value(digits@);
            proof {
                let k = (e - 1074) as nat;
                let pk = pow2(k);
                lemma_pow2_adds(k, 1074);
                assert(v * t == (n * t) * one_unit()) by (nonlinear_arith)
                    requires
                        v == s * pow2(e as nat),
                        n == s * pk,
                        pow2(e as nat) == pk * one_unit(),
                ;
                lemma_nearest_even_exact(n * ten_to(places as nat), one_unit());
                assert(n * t == t * n) by (nonlinear_arith);
                lemma_fundamental_div_mod_converse((n * t) as int, t as int, n as int, 0);
                lemma_last_digits_of_multiple(n, places as nat);
            }
            push_digits(out, &digits);
            out.append(".");
            push_last_digits(out, 0, places);
            assert(out@ =~= start + self.fixed(places as nat));
        }
    }
}

} // verus!
