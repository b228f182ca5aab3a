//! What some encodings stand for.
use vstd::prelude::*;
use vstd::arithmetic::power2::pow2;
use vstd::arithmetic::power2::{lemma2_to64, lemma2_to64_rest, lemma_pow2_adds, lemma_pow2_unfold};
use crate::benchmark::measure::COST_LIMIT;
use crate::benchmark::quality::{FOUR, TEN, TWO};
use crate::benchmark::stats::{HALF, HUNDRED};
use crate::float::arith::one_unit;
use crate::float::encoding::{magnitude_value, Float64, BINADE};
use crate::float::order::ONE;

verus! {

/// The encoding of an exponent and a fraction, where the significand is `n` times what brings the
/// exponent up to that of one.
proof fn lemma_encoded(m: nat, e: nat, f: nat, k: nat, n: nat)
    requires
        m == e * BINADE + f,
        f < BINADE,
        1 <= e,
        e - 1 + k == 1074,
        BINADE + f == n * pow2(k),
    ensures
        magnitude_value(m) == n * one_unit(),
{
    let b = BINADE as nat;
    let d = (e - 1) as nat;
    assert(m == b * e + f) by (nonlinear_arith)
        requires
            m == e * b + f,
    ;
    vstd::arithmetic::div_mod::lemma_fundamental_div_mod_converse(
        m as int,
        b as int,
        e as int,
        f as int,
    );
    lemma_pow2_adds(k, d);
    let p = pow2(k);
    let q = pow2(d);
    assert((n * p) * q == n * (p * q)) by (nonlinear_arith);
}

/// The encodings of one, two, four, ten, a hundred and 25 million stand for these numbers, and
/// twice that of one half for one.
pub proof fn lemma_known_numbers()
    ensures
        (Float64 { bits: ONE }).finite() && (Float64 { bits: ONE }).value() == one_unit(),
        (Float64 { bits: TWO }).finite() && (Float64 { bits: TWO }).value() == 2 * one_unit(),
        (Float64 { bits: FOUR }).finite() && (Float64 { bits: FOUR }).value() == 4 * one_unit(),
        (Float64 { bits: TEN }).finite() && (Float64 { bits: TEN }).value() == 10 * one_unit(),
        (Float64 { bits: HUNDRED }).finite() && (Float64 { bits: HUNDRED }).value() == 100
            * one_unit(),
        (Float64 { bits: HALF }).finite() && 2 * (Float64 { bits: HALF }).value() == one_unit(),
        (Float64 { bits: COST_LIMIT }).finite() && (Float64 { bits: COST_LIMIT }).value()
            == 25_000_000 * one_unit(),
{
    lemma2_to64();
    lemma2_to64_rest();
    lemma_encoded(ONE as nat, 1023, 0, 52, 1);
    lemma_encoded(TWO as nat, 1024, 0, 51, 2);
    lemma_encoded(FOUR as nat, 1025, 0, 50, 4);
    lemma_encoded(TEN as nat, 1026, 0x4_0000_0000_0000, 49, 10);
    lemma_encoded(HUNDRED as nat, 1029, 0x9_0000_0000_0000, 46, 100);
    lemma_encoded(COST_LIMIT as nat, 0x417, 0x7_d784_0000_0000, 28, 25_000_000);
    let h = HALF as nat;
    assert(h / BINADE as nat == 1022 && h % BINADE as nat == 0);
    lemma_pow2_adds(52, 1021);
    lemma_pow2_unfold(1074);
}

} // verus!
