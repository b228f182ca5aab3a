//! What the score of plans depends on.
use vstd::prelude::*;
use crate::benchmark::accuracy::{
    accuracy_exponent, cheapest, dearest, is_accuracy, lemma_accuracy_range, lemma_full_accuracy,
    longest, pair_term, ran, ranges, rank_score, row_sum, rows_sum, shortest, squared_share, weight,
    Ranges,
};
use crate::benchmark::quality::TWO;
use crate::benchmark::stats::HUNDRED;
use crate::benchmark::types::MeasuredPlan;
use crate::duration::{lemma_seconds, seconds, LIMIT};
use crate::float::arith::{abs_nat, one_unit};
use crate::float::encoding::{lemma_magnitude_value_monotone, magnitude_value, Float64};
use crate::float::known::lemma_known_numbers;
use crate::float::monotone::{
    lemma_nearest_at_least, lemma_nearest_at_most, lemma_nearest_value, lemma_one,
    lemma_quotient_at_most_one, lemma_quotient_same, lemma_sign,
};
use crate::float::order::ONE;
use crate::float::rounding::nearest_magnitude;
use crate::float::same::lemma_alike;
use crate::float::sums::{lemma_difference_rounded, lemma_rounded_encoded, lemma_sum_rounded};

verus! {

/// The plans that are scored are those that ran, in their order, each by its mean runtime and by
/// the estimated cost of the whole plan.
pub proof fn lemma_ran(plans: Seq<MeasuredPlan>)
    ensures
        ran(plans) == plans.filter(|p: MeasuredPlan| p.runtime is Ok).map_values(
            |p: MeasuredPlan| (p.runtime->Ok_0.mean@, p.plan.est_costs@[0]),
        ),
    decreases plans.len(),
{
    reveal(Seq::filter);
    let f = |p: MeasuredPlan| p.runtime is Ok;
    let g = |p: MeasuredPlan| (p.runtime->Ok_0.mean@, p.plan.est_costs@[0]);
    let all = plans.filter(f);
    if plans.len() > 0 {
        lemma_ran(plans.drop_last());
        let before = plans.drop_last().filter(f);
        if plans.last().runtime is Ok {
            assert(all == before.push(plans.last()));
            assert(all.map_values(g) =~= before.map_values(g).push(g(plans.last())));
        }
    } else {
        assert(all.map_values(g) =~= Seq::<(nat, Float64)>::empty());
    }
}

/// The score depends on the runtimes only through their means: plans of which the same ones ran,
/// with the same means and estimated costs, have the same score, whatever their single runs took.
pub proof fn lemma_score_by_means(a: Seq<MeasuredPlan>, b: Seq<MeasuredPlan>)
    requires
        a.len() == b.len(),
        forall|i: int|
            0 <= i < a.len() ==> {
                &&& (#[trigger] a[i]).runtime is Ok == b[i].runtime is Ok
                &&& a[i].runtime is Ok ==> {
                    &&& a[i].runtime->Ok_0.mean@ == b[i].runtime->Ok_0.mean@
                    &&& a[i].plan.est_costs@[0] == b[i].plan.est_costs@[0]
                }
            },
    ensures
        ran(a) == ran(b),
        rank_score(ran(a)) == rank_score(ran(b)),
    decreases a.len(),
{
    if a.len() > 0 {
        assert forall|i: int| 0 <= i < a.drop_last().len() implies {
            &&& (#[trigger] a.drop_last()[i]).runtime is Ok == b.drop_last()[i].runtime is Ok
            &&& a.drop_last()[i].runtime is Ok ==> {
                &&& a.drop_last()[i].runtime->Ok_0.mean@ == b.drop_last()[i].runtime->Ok_0.mean@
                &&& a.drop_last()[i].plan.est_costs@[0] == b.drop_last()[i].plan.est_costs@[0]
            }
        } by {
            assert(a[i].runtime is Ok == b[i].runtime is Ok);
        }
        lemma_score_by_means(a.drop_last(), b.drop_last());
        assert(a[a.len() - 1].runtime is Ok == b[a.len() - 1].runtime is Ok);
    }
}

/// A single plan that ran is scored by its mean.
pub proof fn lemma_ran_single(p: MeasuredPlan)
    requires
        p.runtime is Ok,
    ensures
        ran(seq![p]) == seq![(p.runtime->Ok_0.mean@, p.plan.est_costs@[0])],
{
    assert(seq![p].drop_last() =~= Seq::<MeasuredPlan>::empty());
    assert(ran(seq![p].drop_last()) =~= Seq::<(nat, Float64)>::empty());
    assert(ran(seq![p]) =~= seq![(p.runtime->Ok_0.mean@, p.plan.est_costs@[0])]);
}

/// One times a number is the number.
proof fn lemma_one_times(x: Float64)
    requires
        x.finite(),
        !x.negative(),
    ensures
        (Float64 { bits: ONE }).product(x) == x,
        x.product(Float64 { bits: ONE }) == x,
{
    let u = one_unit();
    let v = magnitude_value(x.magnitude());
    lemma_one();
    assert(u * v == v * u) by (nonlinear_arith);
    lemma_nearest_at_least(v * u, u, x.magnitude());
    lemma_nearest_at_most(v * u, u, x.magnitude());
    assert(abs_nat(x.value()) == v);
}

/// One and one is two.
proof fn lemma_one_and_one()
    ensures
        (Float64 { bits: ONE }).sum(Float64 { bits: ONE }) == (Float64 { bits: TWO }),
{
    let one = Float64 { bits: ONE };
    let two = Float64 { bits: TWO };
    lemma_known_numbers();
    lemma_one();
    lemma_rounded_encoded(two);
    lemma_sum_rounded(one, one, two.magnitude());
    lemma_alike(one.sum(one), two);
}

/// The square of the whole of a range is one.
proof fn lemma_whole_share(from: Float64, to: Float64, range: Float64)
    requires
        range == to.difference(from),
        range.finite(),
        range.value() > 0,
    ensures
        squared_share(from, to, range) == (Float64 { bits: ONE }),
{
    let one = Float64 { bits: ONE };
    lemma_known_numbers();
    lemma_one();
    lemma_sign(range);
    lemma_sign(Float64 { bits: 0 });
    lemma_quotient_same(range);
    lemma_one_times(one);
}

/// The difference of two numbers that are not the same is not rounded to zero.
proof fn lemma_difference_above(a: Float64, b: Float64)
    requires
        a.finite(),
        b.finite(),
        a.value() < b.value(),
    ensures
        !b.difference(a).nan(),
        b.difference(a).value() > 0,
{
    let v = (b.value() - a.value()) as nat;
    assert(a.negated().value() == -a.value());
    assert(magnitude_value(1) == 1);
    assert(1 * 1 <= v);
    lemma_nearest_at_least(v, 1, 1);
    lemma_nearest_value(v, 1);
    if nearest_magnitude(v, 1) > 1 {
        lemma_magnitude_value_monotone(1, nearest_magnitude(v, 1));
    }
}

/// What a pair contributes, by its weights, shares and sign.
proof fn lemma_term_parts(
    p: (nat, Float64),
    q: (nat, Float64),
    c: Ranges,
    first: Float64,
    second: Float64,
    apart: Float64,
)
    requires
        weight(c.min_r, seconds(p.0)) == first,
        weight(c.min_r, seconds(q.0)) == second,
        squared_share(seconds(p.0), seconds(q.0), c.range_r).sum(
            squared_share(p.1, q.1, c.range_e),
        ) == apart,
    ensures
        pair_term(p, q, c) == first.product(second).product(apart.root()).product(
            q.1.difference(p.1).sign(),
        ),
{
    reveal(pair_term);
}

/// Weights are shares of the shortest runtime.
proof fn lemma_weights(x: Float64, y: Float64)
    requires
        x.finite(),
        y.finite(),
        0 < x.value() <= y.value(),
    ensures
        weight(x, x) == (Float64 { bits: ONE }),
        weight(x, y) == x.quotient(y),
        (Float64 { bits: ONE }).product(x.quotient(y)) == x.quotient(y),
{
    lemma_sign(Float64 { bits: 0 });
    lemma_sign(x);
    lemma_quotient_same(x);
    lemma_quotient_at_most_one(x, y);
    lemma_one_times(x.quotient(y));
}

/// The sign of a number above zero is one.
proof fn lemma_sign_above(a: Float64)
    requires
        !a.nan(),
        a.value() > 0,
    ensures
        a.sign() == (Float64 { bits: ONE }),
{
    lemma_sign(a);
}

/// Two plans that ran, of which the first took fewer seconds and costs less: their score is the
/// first one's share of the second one's seconds, times the root of two. Nothing else of the plans
/// matters.
pub proof fn lemma_two_plans_score(a: nat, b: nat, e: Float64, f: Float64)
    requires
        a < b < LIMIT,
        0 < seconds(a).value() < seconds(b).value(),
        e.finite(),
        f.finite(),
        e.below(f),
        f.difference(e).finite(),
    ensures
        rank_score(seq![(a, e), (b, f)]) == (Float64 { bits: 0 }).sum(
            seconds(a).quotient(seconds(b)).product((Float64 { bits: TWO }).root()).product(
                Float64 { bits: ONE },
            ),
        ),
{
    let p = seq![(a, e), (b, f)];
    let c = ranges(p);
    lemma_two_plans_ranges(a, b, e, f);
    lemma_two_plans_term((a, e), (b, f), c);
    lemma_two_plans_sum((a, e), (b, f));
}

proof fn lemma_two_plans_ranges(a: nat, b: nat, e: Float64, f: Float64)
    requires
        a < b < LIMIT,
        0 < seconds(a).value() < seconds(b).value(),
        e.finite(),
        f.finite(),
        e.below(f),
        f.difference(e).finite(),
    ensures
        ({
            let c = ranges(seq![(a, e), (b, f)]);
            &&& c.min_r == seconds(a)
            &&& c.range_r == seconds(b).difference(seconds(a))
            &&& c.range_e == f.difference(e)
            &&& c.range_r.finite() && c.range_r.value() > 0
            &&& c.range_e.finite() && c.range_e.value() > 0
        }),
{
    let p = seq![(a, e), (b, f)];
    lemma_seconds(a);
    lemma_seconds(b);
    reveal_with_fuel(shortest, 3);
    reveal_with_fuel(longest, 3);
    reveal_with_fuel(cheapest, 3);
    reveal_with_fuel(dearest, 3);
    lemma_difference_above(seconds(a), seconds(b));
    lemma_difference_above(e, f);
    lemma_rounded_encoded(seconds(b));
    lemma_difference_rounded(seconds(b), seconds(a), seconds(b).magnitude());
}

proof fn lemma_two_plans_sum(p: (nat, Float64), q: (nat, Float64))
    requires
        !p.1.same_number(q.1),
    ensures
        rank_score(seq![p, q]) == (Float64 { bits: 0 }).sum(
            pair_term(p, q, ranges(seq![p, q])),
        ),
{
    reveal(rank_score);
    reveal_with_fuel(rows_sum, 3);
    reveal_with_fuel(row_sum, 3);
}

proof fn lemma_two_plans_term(p: (nat, Float64), q: (nat, Float64), c: Ranges)
    requires
        c.min_r == seconds(p.0),
        c.range_r == seconds(q.0).difference(seconds(p.0)),
        c.range_e == q.1.difference(p.1),
        c.range_r.finite() && c.range_r.value() > 0,
        c.range_e.finite() && c.range_e.value() > 0,
        p.0 < LIMIT,
        q.0 < LIMIT,
        0 < seconds(p.0).value() < seconds(q.0).value(),
    ensures
        pair_term(p, q, c) == seconds(p.0).quotient(seconds(q.0)).product(
            (Float64 { bits: TWO }).root(),
        ).product(Float64 { bits: ONE }),
{
    let x = seconds(p.0);
    let y = seconds(q.0);
    let one = Float64 { bits: ONE };
    lemma_seconds(p.0);
    lemma_seconds(q.0);
    lemma_whole_share(x, y, c.range_r);
    lemma_whole_share(p.1, q.1, c.range_e);
    lemma_one_and_one();
    lemma_weights(x, y);
    lemma_sign_above(c.range_e);
    lemma_term_parts(p, q, c, one, x.quotient(y), Float64 { bits: TWO });
}

/// Whether `exp` is one at zero, and between zero and one below.
pub open spec fn falls_from_one<F: Fn(Float64) -> Float64>(exp: F) -> bool {
    forall|x: Float64, power: Float64| #[trigger]
        call_ensures(exp, (x,), power) && !x.nan() && x.value() <= 0 ==> {
            &&& !power.negative()
            &&& power.at_most(Float64 { bits: ONE })
            &&& x.value() == 0 ==> power == (Float64 { bits: ONE })
        }
}

/// An accuracy is one hundred times what `exp` gives for the distance of the score from zero, taken
/// negative. It lies between zero and one hundred, and a score of zero comes to one hundred.
pub proof fn lemma_accuracy<F: Fn(Float64) -> Float64>(exp: F, score: Float64, percent: Float64)
    requires
        falls_from_one(exp),
        is_accuracy(exp, score, percent),
        !score.nan(),
    ensures
        exists|x: Float64, power: Float64| #[trigger]
            call_ensures(exp, (x,), power) && x.value() == -abs_nat(score.value()) && percent == (
            Float64 { bits: HUNDRED }).product(power),
        (Float64 { bits: 0 }).at_most(percent),
        percent.at_most(Float64 { bits: HUNDRED }),
        score.value() == 0 ==> percent == (Float64 { bits: HUNDRED }),
{
    let x = accuracy_exponent(score);
    let power = choose|power: Float64| #[trigger]
        call_ensures(exp, (x,), power) && percent == (Float64 { bits: HUNDRED }).product(power);
    assert(score.absolute().value() == abs_nat(score.value()));
    assert(x.value() == -abs_nat(score.value()));
    assert(!x.nan());
    assert(call_ensures(exp, (x,), power));
    lemma_accuracy_range(power);
    lemma_full_accuracy();
}

} // verus!
