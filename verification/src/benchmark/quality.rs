//! How far estimated cardinalities are off.
use vstd::prelude::*;
use vstd::arithmetic::div_mod::lemma_fundamental_div_mod;
use vstd::arithmetic::power2::pow2;
use vstd::arithmetic::power2::{
    lemma2_to64_rest, lemma_pow2_adds, lemma_pow2_pos, lemma_pow2_unfold,
};
use crate::benchmark::types::MeasuredPlan;
use crate::common::measure::MeasureError;
use crate::counting::{lemma_those, those};
use crate::float::arith::{abs_nat, lemma_nearest_zero, of_nat, one_unit};
use crate::float::encoding::{lemma_magnitude_value_monotone, Float64, BINADE, INFINITE};
use crate::float::identity::{lemma_divided_by_one, lemma_nothing_more};
use crate::float::known::lemma_known_numbers;
use crate::float::monotone::{
    lemma_integer_encoded, lemma_nearest_at_least, lemma_nearest_value, lemma_of_nat, lemma_one,
    lemma_quotient_at_least_one, lemma_quotient_at_most_one, lemma_quotient_same, lemma_sign,
};
use crate::float::order::{MAX, ONE};
use crate::float::rounding::{
    lemma_rounded_significand, lemma_scale_bounds, nearest_even, nearest_magnitude, scale,
};
use crate::float::same::lemma_alike;
use crate::float::sums::lemma_rounded_encoded;

verus! {

/// Encoding of two.
pub const TWO: u64 = 0x4000_0000_0000_0000;

/// Encoding of four.
pub const FOUR: u64 = 0x4010_0000_0000_0000;

/// Encoding of ten.
pub const TEN: u64 = 0x4024_0000_0000_0000;

/// The Q-error of an estimated cardinality: how many times it is too large or too small. It is one
/// where both are zero, and the largest number where one is.
pub open spec fn q_error(estimated: Float64, actual: nat) -> Float64 {
    let nothing = estimated.same_number(Float64 { bits: 0 });
    if nothing && actual == 0 {
        Float64 { bits: ONE }
    } else if nothing || actual == 0 {
        Float64 { bits: MAX }
    } else {
        estimated.quotient(of_nat(actual)).larger(of_nat(actual).quotient(estimated))
    }
}

/// The Q-error of an estimated cardinality.
pub fn calculate_q_error(estimated: Float64, actual: usize) -> (r: Float64)
    ensures
        r == q_error(estimated, actual as nat),
{
    let nothing: bool = estimated.num_eq(Float64 { bits: 0 });
    if nothing && actual == 0 {
        return Float64 { bits: ONE };
    }
    if nothing || actual == 0 {
        return Float64 { bits: MAX };
    }
    let actual: Float64 = Float64::from_u64(actual as u64);
    estimated.over(actual).max(actual.over(estimated))
}

/// A Q-error is at least one, wherever the estimate is a number that is not negative.
pub proof fn lemma_q_error_at_least_one(estimated: Float64, actual: usize)
    requires
        !estimated.nan(),
        estimated.value() >= 0,
    ensures
        (Float64 { bits: ONE }).at_most(q_error(estimated, actual as nat)),
{
    let one = Float64 { bits: ONE };
    lemma_one();
    lemma_magnitude_value_monotone(ONE as nat, MAX as nat);
    if estimated.value() > 0 && actual > 0 {
        let a = of_nat(actual as nat);
        lemma_of_nat(actual as nat);
        lemma_sign(estimated);
        lemma_sign(a);
        if estimated.infinite() {
            lemma_magnitude_value_monotone(a.magnitude(), INFINITE as nat);
        }
        let high = estimated.quotient(a);
        let low = a.quotient(estimated);
        if a.value() <= estimated.value() {
            lemma_quotient_at_least_one(estimated, a);
        } else {
            lemma_quotient_at_least_one(a, estimated);
        }
        assert(one.at_most(high) || one.at_most(low));
    }
}

/// An exact estimate has a Q-error of one.
pub proof fn lemma_q_error_exact(actual: usize)
    ensures
        q_error(of_nat(actual as nat), actual as nat) == (Float64 { bits: ONE }),
{
    let a = of_nat(actual as nat);
    lemma_one();
    if actual > 0 {
        lemma_of_nat(actual as nat);
        lemma_quotient_same(a);
    } else {
        assert(0 * one_unit() == 0) by (nonlinear_arith);
        lemma_nearest_zero(1);
        lemma_nearest_value(0, 1);
        lemma_sign(a);
    }
}

/// What an integer of up to 53 bits, or the one that follows them, is encoded as.
proof fn lemma_integer_value(n: nat)
    requires
        0 < n <= 2 * BINADE,
    ensures
        of_nat(n).finite(),
        !of_nat(n).negative(),
        !of_nat(n).zero(),
        of_nat(n).value() == n * one_unit(),
{
    lemma_of_nat(n);
    lemma_one();
    lemma_sign(of_nat(n));
    if n < 2 * BINADE {
        let _ = lemma_integer_encoded(n);
    } else {
        let top = Float64 { bits: 0x4340_0000_0000_0000 };
        let m: nat = 0x4340_0000_0000_0000;
        assert(m / BINADE as nat == 1076 && m % BINADE as nat == 0);
        assert(top.magnitude() == m);
        lemma_pow2_unfold(1075);
        let p = pow2(1075);
        assert(top.value() == n * one_unit()) by (nonlinear_arith)
            requires
                top.value() == BINADE * p,
                p == 2 * one_unit(),
                n == 2 * BINADE,
        ;
        lemma_rounded_encoded(top);
        lemma_nearest_value(n * one_unit(), 1);
    }
}

/// A quotient of integers above one is not rounded to one.
proof fn lemma_share_above_one(a: nat, b: nat)
    requires
        0 < a < b <= 2 * BINADE,
    ensures
        of_nat(b).quotient(of_nat(a)) != (Float64 { bits: ONE }),
{
    let u = one_unit();
    lemma_one();
    lemma_integer_value(a);
    lemma_integer_value(b);
    let num = (b * u) * u;
    let den = a * u;
    assert(den > 0) by (nonlinear_arith)
        requires
            a > 0,
            u > 0,
            den == a * u,
    ;
    if nearest_magnitude(num, den) == ONE {
        let s = scale(num, den);
        let d = den * pow2(s);
        let k = nearest_even(num, d);
        lemma_pow2_pos(s);
        lemma_scale_bounds(num, den);
        lemma_rounded_significand(num, den);
        assert(d > 0) by (nonlinear_arith)
            requires
                den > 0,
                pow2(s) > 0,
                d == den * pow2(s),
        ;
        lemma_fundamental_div_mod(num as int, d as int);
        let q = num / d;
        let r = num % d;
        assert(2 * num <= 2 * k * d + d) by (nonlinear_arith)
            requires
                num == d * q + r,
                0 <= r < d,
                k == q && 2 * r <= d || k == q + 1,
        ;
        assert(s * BINADE + k == 1023 * BINADE);
        assert(s == 1022 && k == BINADE || s == 1021 && k == 2 * BINADE || s == 0) by (
            nonlinear_arith
        )
            requires
                s * BINADE + k == 1023 * BINADE,
                BINADE == 0x10_0000_0000_0000,
                0 <= k <= 2 * BINADE,
                s > 0 ==> k >= BINADE,
                s >= 0,
        ;
        lemma2_to64_rest();
        if s == 1022 {
            lemma_pow2_adds(52, 1022);
            let p = pow2(1022);
            assert(false) by (nonlinear_arith)
                requires
                    2 * num <= 2 * k * d + d,
                    k == BINADE,
                    num == (b * u) * u,
                    d == (a * u) * p,
                    u == BINADE * p,
                    p > 0,
                    BINADE > 0,
                    b >= a + 1,
                    a < 2 * BINADE,
            ;
        } else {
            lemma_pow2_adds(53, 1021);
            let p = pow2(1021);
            assert(false) by (nonlinear_arith)
                requires
                    num < 2 * BINADE * den * p,
                    num == (b * u) * u,
                    den == a * u,
                    u == 2 * BINADE * p,
                    p > 0,
                    b > a,
                    u > 0,
            ;
        }
    }
}

/// A Q-error of one says that an integral estimate of up to `2^53` is exact.
pub proof fn lemma_q_error_one(estimated: nat, actual: usize)
    requires
        estimated <= 2 * BINADE,
        actual <= 2 * BINADE,
        q_error(of_nat(estimated), actual as nat) == (Float64 { bits: ONE }),
    ensures
        estimated == actual,
{
    let a = actual as nat;
    lemma_one();
    if estimated == 0 {
        assert(0 * one_unit() == 0) by (nonlinear_arith);
        lemma_nearest_zero(1);
        lemma_sign(of_nat(0));
    } else {
        lemma_integer_value(estimated);
        assert(estimated * one_unit() > 0) by (nonlinear_arith)
            requires
                estimated > 0,
                one_unit() > 0,
        ;
        lemma_sign(Float64 { bits: 0 });
        if a > 0 && estimated != a {
            lemma_integer_value(a);
            lemma_apart(estimated, a);
        }
    }
}

/// Of two different integers, the larger divided by the smaller is above one.
proof fn lemma_apart(e: nat, a: nat)
    requires
        0 < e <= 2 * BINADE,
        0 < a <= 2 * BINADE,
        e != a,
    ensures
        of_nat(e).quotient(of_nat(a)).larger(of_nat(a).quotient(of_nat(e))) != (Float64 {
            bits: ONE,
        }),
{
    let one = Float64 { bits: ONE };
    let x = of_nat(e).quotient(of_nat(a));
    let y = of_nat(a).quotient(of_nat(e));
    lemma_one();
    lemma_integer_value(e);
    lemma_integer_value(a);
    assert(one_unit() * e > 0 && one_unit() * a > 0) by (nonlinear_arith)
        requires
            one_unit() > 0,
            e > 0,
            a > 0,
    ;
    if e > a {
        lemma_share_above_one(a, e);
        assert(a * one_unit() <= e * one_unit()) by (nonlinear_arith)
            requires
                a < e,
                one_unit() > 0,
        ;
        lemma_quotient_at_least_one(of_nat(e), of_nat(a));
        lemma_quotient_at_most_one(of_nat(a), of_nat(e));
    } else {
        lemma_share_above_one(e, a);
        assert(e * one_unit() <= a * one_unit()) by (nonlinear_arith)
            requires
                e < a,
                one_unit() > 0,
        ;
        lemma_quotient_at_least_one(of_nat(a), of_nat(e));
        lemma_quotient_at_most_one(of_nat(e), of_nat(a));
    }
    if x.larger(y) == one {
        if e > a {
            lemma_alike(x, one);
        } else {
            lemma_alike(y, one);
        }
    }
}

/// Whether the estimate at preorder index `i` counts: there is one, the subplan gave rows, and the
/// Q-error is finite.
pub open spec fn counts(
    cards: Seq<Result<usize, MeasureError>>,
    estimates: Seq<Float64>,
    i: int,
) -> bool {
    &&& i < estimates.len()
    &&& cards[i] matches Ok(actual) && actual != 0 && q_error(estimates[i], actual as nat).finite()
}

/// The Q-errors of the first `n` subplans that count, added up in order.
pub open spec fn q_sum(
    cards: Seq<Result<usize, MeasureError>>,
    estimates: Seq<Float64>,
    n: nat,
) -> Float64
    decreases n,
{
    if n == 0 {
        Float64 { bits: 0 }
    } else {
        let before = q_sum(cards, estimates, (n - 1) as nat);
        if counts(cards, estimates, n - 1) {
            before.sum(q_error(estimates[n - 1], cards[n - 1]->Ok_0 as nat))
        } else {
            before
        }
    }
}

/// How many of the first `n` subplans count.
pub open spec fn q_count(
    cards: Seq<Result<usize, MeasureError>>,
    estimates: Seq<Float64>,
    n: nat,
) -> nat
    decreases n,
{
    if n == 0 {
        0
    } else {
        q_count(cards, estimates, (n - 1) as nat) + if counts(cards, estimates, n - 1) {
            1nat
        } else {
            0nat
        }
    }
}

/// The mean Q-error of the subplans that count; the largest number where none does.
pub open spec fn avg_q_error(
    cards: Seq<Result<usize, MeasureError>>,
    estimates: Seq<Float64>,
) -> Float64 {
    let n = q_count(cards, estimates, cards.len());
    if n == 0 {
        Float64 { bits: MAX }
    } else {
        q_sum(cards, estimates, cards.len()).quotient(of_nat(n))
    }
}

/// The mean Q-error of a plan's cardinality estimates.
pub fn calculate_avg_q_error(plan: &MeasuredPlan) -> (r: Float64)
    ensures
        r == avg_q_error(plan.cardinalities@, plan.plan.est_cards@),
{
    let ghost cards = plan.cardinalities@;
    let ghost estimates = plan.plan.est_cards@;
    let mut total: Float64 = Float64 { bits: 0 };
    let mut valid: usize = 0;
    let mut i: usize = 0;
    while i < plan.cardinalities.len()
        invariant
            i <= plan.cardinalities.len(),
            cards == plan.cardinalities@,
            estimates == plan.plan.est_cards@,
            valid <= i,
            total == q_sum(cards, estimates, i as nat),
            valid == q_count(cards, estimates, i as nat),
        decreases plan.cardinalities.len() - i,
    {
        if i < plan.plan.est_cards.len() {
            match &plan.cardinalities[i] {
                Ok(actual) => {
                    if *actual != 0 {
                        let q: Float64 = calculate_q_error(plan.plan.est_cards[i], *actual);
                        if q.is_finite() {
                            total = total.plus(q);
                            valid = valid + 1;
                        }
                    }
                },
                Err(_) => {},
            }
        }
        i = i + 1;
    }
    if valid == 0 {
        return Float64 { bits: MAX };
    }
    total.over(Float64::from_u64(valid as u64))
}

proof fn lemma_q_sum_at_least(
    cards: Seq<Result<usize, MeasureError>>,
    estimates: Seq<Float64>,
    n: nat,
)
    requires
        n <= cards.len(),
        q_count(cards, estimates, n) < 2 * BINADE,
        forall|i: int|
            0 <= i < estimates.len() ==> !(#[trigger] estimates[i]).nan() && estimates[i].value()
                >= 0,
    ensures
        !q_sum(cards, estimates, n).nan(),
        !q_sum(cards, estimates, n).negative(),
        q_sum(cards, estimates, n).value() >= q_count(cards, estimates, n) * one_unit(),
    decreases n,
{
    lemma_one();
    let u = one_unit();
    if n == 0 {
        assert(0 * u == 0) by (nonlinear_arith);
    } else {
        let before = q_sum(cards, estimates, (n - 1) as nat);
        let k = q_count(cards, estimates, (n - 1) as nat);
        lemma_q_sum_at_least(cards, estimates, (n - 1) as nat);
        if counts(cards, estimates, n - 1) {
            let q = q_error(estimates[n - 1], cards[n - 1]->Ok_0 as nat);
            lemma_q_error_at_least_one(estimates[n - 1], cards[n - 1]->Ok_0);
            let m = lemma_integer_encoded(k + 1);
            assert((k + 1) * u == k * u + u) by (nonlinear_arith);
            lemma_sign(q);
            if before.infinite() {
                lemma_magnitude_value_monotone(m, INFINITE as nat);
            } else {
                let v = (before.value() + q.value()) as nat;
                assert(v > 0);
                lemma_nearest_at_least(v, 1, m);
                lemma_nearest_value(v, 1);
                if nearest_magnitude(v, 1) > m {
                    lemma_magnitude_value_monotone(m, nearest_magnitude(v, 1));
                }
            }
        }
    }
}

/// A mean Q-error is at least one, wherever the estimates are numbers that are not negative.
pub proof fn lemma_avg_q_error_at_least_one(
    cards: Seq<Result<usize, MeasureError>>,
    estimates: Seq<Float64>,
)
    requires
        cards.len() < 2 * BINADE,
        forall|i: int|
            0 <= i < estimates.len() ==> !(#[trigger] estimates[i]).nan() && estimates[i].value()
                >= 0,
    ensures
        (Float64 { bits: ONE }).at_most(avg_q_error(cards, estimates)),
{
    lemma_one();
    lemma_magnitude_value_monotone(ONE as nat, MAX as nat);
    lemma_q_count_bounded(cards, estimates, cards.len());
    let n = q_count(cards, estimates, cards.len());
    if n > 0 {
        lemma_q_sum_at_least(cards, estimates, cards.len());
        let _ = lemma_integer_encoded(n);
        assert(n * one_unit() > 0) by (nonlinear_arith)
            requires
                n > 0,
                one_unit() > 0,
        ;
        lemma_quotient_at_least_one(q_sum(cards, estimates, cards.len()), of_nat(n));
    }
}

proof fn lemma_q_count_bounded(
    cards: Seq<Result<usize, MeasureError>>,
    estimates: Seq<Float64>,
    n: nat,
)
    ensures
        q_count(cards, estimates, n) <= n,
    decreases n,
{
    if n > 0 {
        lemma_q_count_bounded(cards, estimates, (n - 1) as nat);
    }
}

/// How good cardinality estimates are.
#[derive(Clone, Copy, Debug, PartialEq, Eq, Structural)]
pub enum CardQuality {
    /// A Q-error of at most two.
    Excellent,
    /// A Q-error of at most four.
    Good,
    /// A Q-error of at most ten.
    Acceptable,
    /// A larger Q-error.
    Poor,
    /// No finite Q-error.
    Unknown,
}

/// How good an estimate with Q-error `q` is.
pub open spec fn quality(q: Float64) -> CardQuality {
    if !q.finite() {
        CardQuality::Unknown
    } else if q.at_most(Float64 { bits: TWO }) {
        CardQuality::Excellent
    } else if q.at_most(Float64 { bits: FOUR }) {
        CardQuality::Good
    } else if q.at_most(Float64 { bits: TEN }) {
        CardQuality::Acceptable
    } else {
        CardQuality::Poor
    }
}

impl CardQuality {
    /// How good an estimate with Q-error `q` is.
    pub fn from_q_err(q: Float64) -> (r: CardQuality)
        ensures
            r == quality(q),
    {
        if !q.is_finite() {
            CardQuality::Unknown
        } else if q.le(Float64 { bits: TWO }) {
            CardQuality::Excellent
        } else if q.le(Float64 { bits: FOUR }) {
            CardQuality::Good
        } else if q.le(Float64 { bits: TEN }) {
            CardQuality::Acceptable
        } else {
            CardQuality::Poor
        }
    }
}

/// The Q-error of an estimate above zero for a subplan with rows is the larger of how many times
/// the estimate is too large and how many times it is too small.
pub proof fn lemma_q_error_is_larger(estimated: Float64, actual: usize)
    requires
        estimated.finite(),
        estimated.value() > 0,
        actual > 0,
    ensures
        ({
            let over = estimated.quotient(of_nat(actual as nat));
            let under = of_nat(actual as nat).quotient(estimated);
            let q = q_error(estimated, actual as nat);
            &&& q == over || q == under
            &&& over.at_most(q) && under.at_most(q)
        }),
{
    let a = of_nat(actual as nat);
    lemma_one();
    lemma_of_nat(actual as nat);
    lemma_sign(estimated);
    lemma_sign(a);
    lemma_sign(Float64 { bits: 0 });
    lemma_nearest_value(abs_nat(estimated.value()) * one_unit(), abs_nat(a.value()));
    lemma_nearest_value(abs_nat(a.value()) * one_unit(), abs_nat(estimated.value()));
}

/// The Q-error is one where there is nothing to estimate and nothing is estimated, and the largest
/// number where there is nothing or nothing is estimated.
pub proof fn lemma_q_error_zero(estimated: Float64, actual: usize)
    requires
        !estimated.nan(),
    ensures
        estimated.value() == 0 && actual == 0 ==> q_error(estimated, actual as nat) == (Float64 {
            bits: ONE,
        }),
        (estimated.value() == 0) != (actual == 0) ==> q_error(estimated, actual as nat) == (
        Float64 { bits: MAX }),
{
    lemma_sign(Float64 { bits: 0 });
}

/// Estimates are excellent up to twice, good up to four times and acceptable up to ten times off,
/// and poor beyond; without a finite Q-error nothing is known.
pub proof fn lemma_quality(q: Float64)
    ensures
        quality(q) == CardQuality::Unknown <==> !q.finite(),
        quality(q) == CardQuality::Excellent <==> q.finite() && q.value() <= 2 * one_unit(),
        quality(q) == CardQuality::Good <==> q.finite() && 2 * one_unit() < q.value() <= 4
            * one_unit(),
        quality(q) == CardQuality::Acceptable <==> q.finite() && 4 * one_unit() < q.value() <= 10
            * one_unit(),
        quality(q) == CardQuality::Poor <==> q.finite() && q.value() > 10 * one_unit(),
{
    lemma_known_numbers();
    lemma_one();
}

/// One more subplan adds its Q-error to the sum and one to the count exactly if there is an
/// estimate for it, it gave rows, and the Q-error is finite.
pub proof fn lemma_q_step(cards: Seq<Result<usize, MeasureError>>, estimates: Seq<Float64>, n: nat)
    requires
        n < cards.len(),
    ensures
        n < estimates.len() && (cards[n as int] matches Ok(actual) && actual > 0 && q_error(
            estimates[n as int],
            actual as nat,
        ).finite()) ==> {
            &&& q_sum(cards, estimates, n + 1) == q_sum(cards, estimates, n).sum(
                q_error(estimates[n as int], cards[n as int]->Ok_0 as nat),
            )
            &&& q_count(cards, estimates, n + 1) == q_count(cards, estimates, n) + 1
        },
        !(n < estimates.len() && (cards[n as int] matches Ok(actual) && actual > 0 && q_error(
            estimates[n as int],
            actual as nat,
        ).finite())) ==> {
            &&& q_sum(cards, estimates, n + 1) == q_sum(cards, estimates, n)
            &&& q_count(cards, estimates, n + 1) == q_count(cards, estimates, n)
        },
{
}

/// As many subplans count as have an estimate, gave rows, and have a finite Q-error.
pub proof fn lemma_q_count(cards: Seq<Result<usize, MeasureError>>, estimates: Seq<Float64>, n: nat)
    requires
        n <= cards.len(),
    ensures
        q_count(cards, estimates, n) == those(
            |i: int|
                i < estimates.len() && cards[i] is Ok && cards[i]->Ok_0 > 0 && q_error(
                    estimates[i],
                    cards[i]->Ok_0 as nat,
                ).finite(),
            n,
        ).len(),
    decreases n,
{
    lemma_those(
        |i: int|
            i < estimates.len() && cards[i] is Ok && cards[i]->Ok_0 > 0 && q_error(
                estimates[i],
                cards[i]->Ok_0 as nat,
            ).finite(),
        n,
    );
    if n > 0 {
        lemma_q_count(cards, estimates, (n - 1) as nat);
    }
}

/// The mean Q-error of a single subplan that counts is its own. Where none counts, it is as large
/// as can be.
pub proof fn lemma_avg_q_error_single(estimate: Float64, actual: usize)
    requires
        actual > 0,
        estimate.finite(),
        estimate.value() > 0,
        q_error(estimate, actual as nat).finite(),
    ensures
        avg_q_error(seq![Ok::<usize, MeasureError>(actual)], seq![estimate]) == q_error(
            estimate,
            actual as nat,
        ),
        avg_q_error(Seq::empty(), seq![estimate]) == (Float64 { bits: MAX }),
        avg_q_error(seq![Err::<usize, MeasureError>(MeasureError::Died)], seq![estimate]) == (
        Float64 { bits: MAX }),
        avg_q_error(seq![Ok::<usize, MeasureError>(0)], seq![estimate]) == (Float64 { bits: MAX }),
{
    reveal_with_fuel(q_sum, 2);
    reveal_with_fuel(q_count, 2);
    let q = q_error(estimate, actual as nat);
    lemma_q_error_at_least_one(estimate, actual);
    lemma_one();
    lemma_sign(q);
    lemma_nothing_more(Float64 { bits: 0 }, q);
    lemma_divided_by_one(q);
}

} // verus!
