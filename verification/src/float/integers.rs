//! Arithmetic on integers of up to 53 bits is exact.
use vstd::prelude::*;
use crate::float::arith::{abs_nat, lemma_nearest_zero, of_nat, one_unit};
use crate::float::encoding::{Float64, BINADE};
use crate::float::monotone::{
    lemma_integer_encoded, lemma_nearest_at_least, lemma_nearest_at_most, lemma_one, lemma_sign,
};
use crate::float::root::lemma_root_of_square;

verus! {

/// What an integer is as a number.
pub proof fn lemma_integer(n: nat)
    requires
        n < 2 * BINADE,
    ensures
        of_nat(n).finite(),
        !of_nat(n).negative(),
        of_nat(n).value() == n * one_unit(),
        n == 0 <==> of_nat(n).zero(),
        n == 0 ==> of_nat(n) == (Float64 { bits: 0 }),
{
    lemma_one();
    lemma_sign(Float64 { bits: 0 });
    if n == 0 {
        assert(0 * one_unit() == 0) by (nonlinear_arith);
        lemma_nearest_zero(1);
    } else {
        let m = lemma_integer_encoded(n);
        assert(n * one_unit() > 0) by (nonlinear_arith)
            requires
                n > 0,
                one_unit() > 0,
        ;
        lemma_sign(of_nat(n));
    }
}

/// The sum of two integers.
pub proof fn lemma_integer_sum(a: nat, b: nat)
    requires
        a + b < 2 * BINADE,
    ensures
        of_nat(a).sum(of_nat(b)) == of_nat(a + b),
{
    let u = one_unit();
    lemma_one();
    lemma_integer(a);
    lemma_integer(b);
    lemma_integer(a + b);
    assert(a * u + b * u == (a + b) * u) by (nonlinear_arith);
    assert(a + b > 0 ==> (a + b) * u > 0) by (nonlinear_arith)
        requires
            u > 0,
    ;
    assert(0 * u == 0) by (nonlinear_arith);
}

/// The difference of two integers.
pub proof fn lemma_integer_difference(a: nat, b: nat)
    requires
        a < 2 * BINADE,
        b < 2 * BINADE,
    ensures
        a >= b ==> of_nat(a).difference(of_nat(b)) == of_nat((a - b) as nat),
        a < b ==> of_nat(a).difference(of_nat(b)) == of_nat((b - a) as nat).negated(),
{
    let u = one_unit();
    lemma_one();
    lemma_integer(a);
    lemma_integer(b);
    assert(of_nat(b).negated().value() == -of_nat(b).value());
    if a >= b {
        let c = (a - b) as nat;
        lemma_integer(c);
        assert(a * u - b * u == c * u) by (nonlinear_arith)
            requires
                c == a - b,
        ;
        assert(c > 0 ==> c * u > 0) by (nonlinear_arith)
            requires
                u > 0,
        ;
        assert(0 * u == 0) by (nonlinear_arith);
    } else {
        let c = (b - a) as nat;
        lemma_integer(c);
        assert(a * u - b * u == -(c * u)) by (nonlinear_arith)
            requires
                c == b - a,
        ;
        assert(c * u > 0) by (nonlinear_arith)
            requires
                c > 0,
                u > 0,
        ;
    }
}

/// The square of an integer.
pub proof fn lemma_integer_square(x: Float64, d: nat)
    requires
        x == of_nat(d) || x == of_nat(d).negated(),
        d < 2 * BINADE,
        d * d < 2 * BINADE,
    ensures
        x.product(x) == of_nat(d * d),
{
    let u = one_unit();
    let n = d * d;
    lemma_one();
    lemma_integer(d);
    lemma_integer(n);
    let v = abs_nat(x.value());
    assert(v == d * u);
    if d == 0 {
        assert(0 * u == 0 && 0nat * 0nat == 0) by (nonlinear_arith);
        lemma_nearest_zero(u);
    } else {
        assert(n > 0) by (nonlinear_arith)
            requires
                n == d * d,
                d > 0,
        ;
        let m = lemma_integer_encoded(n);
        assert(v * v == (n * u) * u) by (nonlinear_arith)
            requires
                v == d * u,
                n == d * d,
        ;
        lemma_nearest_at_least(v * v, u, m);
        lemma_nearest_at_most(v * v, u, m);
    }
}

/// The quotient of a multiple of an integer by that integer.
pub proof fn lemma_integer_quotient(k: nat, n: nat)
    requires
        0 < n < 2 * BINADE,
        k < 2 * BINADE,
        k * n < 2 * BINADE,
    ensures
        of_nat(k * n).quotient(of_nat(n)) == of_nat(k),
{
    let u = one_unit();
    let p = k * n;
    lemma_one();
    lemma_integer(k);
    lemma_integer(n);
    lemma_integer(p);
    let num = (p * u) * u;
    let den = n * u;
    assert(den > 0) by (nonlinear_arith)
        requires
            den == n * u,
            n > 0,
            u > 0,
    ;
    assert(p * u >= 0) by (nonlinear_arith);
    assert(abs_nat(of_nat(p).value()) == p * u);
    assert(abs_nat(of_nat(n).value()) == den);
    if k == 0 {
        assert(p == 0) by (nonlinear_arith)
            requires
                p == k * n,
                k == 0,
        ;
        assert(0 * u == 0) by (nonlinear_arith);
        assert(num == 0);
        lemma_nearest_zero(den);
    } else {
        let m = lemma_integer_encoded(k);
        assert((k * u) * den == num) by (nonlinear_arith)
            requires
                den == n * u,
                num == (p * u) * u,
                p == k * n,
        ;
        lemma_nearest_at_least(num, den, m);
        lemma_nearest_at_most(num, den, m);
    }
}

/// The root of the square of an integer.
pub proof fn lemma_integer_root(d: nat)
    requires
        d < 2 * BINADE,
        d * d < 2 * BINADE,
    ensures
        of_nat(d * d).root() == of_nat(d),
{
    let u = one_unit();
    let n = d * d;
    lemma_one();
    lemma_integer(d);
    lemma_integer(n);
    if d == 0 {
        assert(n == 0) by (nonlinear_arith)
            requires
                n == d * d,
                d == 0,
        ;
    } else {
        let m = lemma_integer_encoded(d);
        assert(n > 0) by (nonlinear_arith)
            requires
                n == d * d,
                d > 0,
        ;
        assert((d * u) * (d * u) == (n * u) * u) by (nonlinear_arith)
            requires
                n == d * d,
        ;
        assert(n * u > 0) by (nonlinear_arith)
            requires
                n > 0,
                u > 0,
        ;
        lemma_root_of_square(of_nat(n), m);
    }
}

} // verus!
