//! Whether estimated costs rank plans as their runtimes do.
use vstd::prelude::*;
use crate::benchmark::stats::HUNDRED;
use crate::benchmark::types::MeasuredPlan;
use crate::duration::{seconds, Duration};
use crate::float::arith::one_unit;
use crate::float::encoding::{
    lemma_magnitude_value_monotone, magnitude_value, Float64, INFINITE,
};
use crate::float::monotone::{
    lemma_nearest_at_least, lemma_nearest_at_most, lemma_nearest_value, lemma_one, lemma_sign,
};
use crate::float::order::ONE;
use crate::float::rounding::nearest_magnitude;

verus! {

/// The mean runtimes, in nanoseconds, and the estimated costs of the plans that ran.
pub open spec fn ran(plans: Seq<MeasuredPlan>) -> Seq<(nat, Float64)>
    decreases plans.len(),
{
    if plans.len() == 0 {
        Seq::empty()
    } else {
        let before = ran(plans.drop_last());
        match plans.last().runtime {
            Ok(stats) => before.push((stats.mean@, plans.last().plan.est_costs@[0])),
            Err(_) => before,
        }
    }
}

/// The shortest of the first `n` runtimes.
pub open spec fn shortest(p: Seq<(nat, Float64)>, n: nat) -> nat
    decreases n,
{
    if n <= 1 {
        p[0].0
    } else {
        let before = shortest(p, (n - 1) as nat);
        if p[n - 1].0 < before {
            p[n - 1].0
        } else {
            before
        }
    }
}

/// The longest of the first `n` runtimes, in seconds.
pub open spec fn longest(p: Seq<(nat, Float64)>, n: nat) -> Float64
    decreases n,
{
    if n <= 1 {
        seconds(p[0].0)
    } else {
        let before = longest(p, (n - 1) as nat);
        if seconds(p[n - 1].0).below(before) {
            before
        } else {
            seconds(p[n - 1].0)
        }
    }
}

/// The least of the first `n` costs, the first of those that are level.
pub open spec fn cheapest(p: Seq<(nat, Float64)>, n: nat) -> Float64
    decreases n,
{
    if n <= 1 {
        p[0].1
    } else {
        let before = cheapest(p, (n - 1) as nat);
        if p[n - 1].1.below(before) {
            p[n - 1].1
        } else {
            before
        }
    }
}

/// The greatest of the first `n` costs, the last of those that are level.
pub open spec fn dearest(p: Seq<(nat, Float64)>, n: nat) -> Float64
    decreases n,
{
    if n <= 1 {
        p[0].1
    } else {
        let before = dearest(p, (n - 1) as nat);
        if p[n - 1].1.below(before) {
            before
        } else {
            p[n - 1].1
        }
    }
}

/// What the runtimes and costs of the plans that ran range over.
pub struct Ranges {
    /// The shortest runtime, in seconds.
    pub min_r: Float64,
    /// From the shortest to the longest runtime, in seconds.
    pub range_r: Float64,
    /// From the least to the greatest cost.
    pub range_e: Float64,
}

/// What the runtimes and costs of the plans that ran range over.
pub open spec fn ranges(p: Seq<(nat, Float64)>) -> Ranges {
    let min_r = seconds(shortest(p, p.len()));
    Ranges {
        min_r,
        range_r: longest(p, p.len()).difference(min_r),
        range_e: dearest(p, p.len()).difference(cheapest(p, p.len())),
    }
}

/// The weight of a runtime: the shortest one divided by it.
pub open spec fn weight(min_r: Float64, r: Float64) -> Float64 {
    if (Float64 { bits: 0 }).below(r) {
        min_r.quotient(r)
    } else {
        Float64 { bits: 0 }
    }
}

/// The square of the distance from `from` to `to` as a part of `range`.
pub open spec fn squared_share(from: Float64, to: Float64, range: Float64) -> Float64 {
    if (Float64 { bits: 0 }).below(range) {
        let share = to.difference(from).quotient(range);
        share.product(share)
    } else {
        Float64 { bits: 0 }
    }
}

/// What two plans contribute to the score: the product of the weights of their runtimes and of
/// their distance, with the sign of the difference of their costs.
#[verifier::opaque]
pub open spec fn pair_term(a: (nat, Float64), b: (nat, Float64), c: Ranges) -> Float64 {
    let ra = seconds(a.0);
    let rb = seconds(b.0);
    let distance = squared_share(ra, rb, c.range_r).sum(
        squared_share(a.1, b.1, c.range_e),
    ).root();
    weight(c.min_r, ra).product(weight(c.min_r, rb)).product(distance).product(
        b.1.difference(a.1).sign(),
    )
}

/// `start` and what the pairs of plan `i` with the plans between it and plan `j` contribute. Pairs
/// with the same cost do not.
pub open spec fn row_sum(
    p: Seq<(nat, Float64)>,
    c: Ranges,
    start: Float64,
    i: int,
    j: int,
) -> Float64
    decreases j - i,
{
    if j <= i + 1 {
        start
    } else {
        let before = row_sum(p, c, start, i, j - 1);
        if p[i].1.same_number(p[j - 1].1) {
            before
        } else {
            before.sum(pair_term(p[i], p[j - 1], c))
        }
    }
}

/// What the pairs of the first `i` plans with those after them contribute.
pub open spec fn rows_sum(p: Seq<(nat, Float64)>, c: Ranges, i: int) -> Float64
    decreases i,
{
    if i <= 0 {
        Float64 { bits: 0 }
    } else {
        row_sum(p, c, rows_sum(p, c, i - 1), i - 1, p.len() as int)
    }
}

/// The weighted rank correlation of runtimes and costs.
#[verifier::opaque]
pub open spec fn rank_score(p: Seq<(nat, Float64)>) -> Float64 {
    rows_sum(p, ranges(p), p.len() as int)
}

/// Whether the costs of plans can be compared: each plan has one, and where several plans ran,
/// theirs are numbers.
pub open spec fn comparable(plans: Seq<MeasuredPlan>) -> bool {
    &&& forall|i: int|
        0 <= i < plans.len() ==> (#[trigger] plans[i]).plan.est_costs@.len() > 0
    &&& ran(plans).len() > 1 ==> forall|i: int|
        0 <= i < plans.len() && (#[trigger] plans[i]).runtime is Ok
            ==> !plans[i].plan.est_costs@[0].nan()
}

/// Whether plans can be scored: their costs can be compared, and some ran.
pub open spec fn scorable(plans: Seq<MeasuredPlan>) -> bool {
    comparable(plans) && ran(plans).len() > 0
}

/// Putting a plan anywhere among others adds it to those that ran, if it did.
pub proof fn lemma_ran_insert(t: Seq<MeasuredPlan>, k: int, x: MeasuredPlan)
    requires
        0 <= k <= t.len(),
    ensures
        ran(t.insert(k, x)).len() == ran(t).len() + if x.runtime is Ok {
            1int
        } else {
            0int
        },
    decreases t.len(),
{
    let u = t.insert(k, x);
    if k == t.len() {
        assert(u.drop_last() =~= t);
    } else {
        lemma_ran_insert(t.drop_last(), k, x);
        assert(u.drop_last() =~= t.drop_last().insert(k, x));
        assert(u.last() == t.last());
    }
}

/// A plan ran exactly if there is one among those that ran.
pub proof fn lemma_some_ran(plans: Seq<MeasuredPlan>)
    ensures
        ran(plans).len() > 0 <==> exists|i: int|
            0 <= i < plans.len() && (#[trigger] plans[i]).runtime is Ok,
    decreases plans.len(),
{
    if plans.len() > 0 {
        lemma_some_ran(plans.drop_last());
        if ran(plans.drop_last()).len() > 0 {
            let i = choose|i: int|
                0 <= i < plans.drop_last().len() && (#[trigger] plans.drop_last()[i]).runtime is Ok;
            assert(plans[i].runtime is Ok);
        }
        if ran(plans).len() > 0 && ran(plans.drop_last()).len() == 0 {
            assert(plans[plans.len() - 1].runtime is Ok);
        }
        if exists|i: int| 0 <= i < plans.len() && (#[trigger] plans[i]).runtime is Ok {
            let i = choose|i: int| 0 <= i < plans.len() && (#[trigger] plans[i]).runtime is Ok;
            if i < plans.len() - 1 {
                assert(plans.drop_last()[i].runtime is Ok);
            }
        }
    }
}

/// Whether `pairs` are those of the plans that ran.
spec fn mirrors(pairs: Seq<(Duration, Float64)>, p: Seq<(nat, Float64)>) -> bool {
    &&& pairs.len() == p.len()
    &&& forall|i: int| 0 <= i < p.len() ==> p[i] == ((#[trigger] pairs[i]).0@, pairs[i].1)
}

/// The runtimes and costs of the plans that ran.
fn runtime_cost_pairs(plans: &Vec<MeasuredPlan>) -> (r: Vec<(Duration, Float64)>)
    requires
        forall|i: int| 0 <= i < plans@.len() ==> (#[trigger] plans@[i]).plan.est_costs@.len() > 0,
    ensures
        mirrors(r@, ran(plans@)),
{
    let ghost s = plans@;
    let mut r: Vec<(Duration, Float64)> = Vec::new();
    let mut i: usize = 0;
    assert(s.take(0) =~= Seq::<MeasuredPlan>::empty());
    while i < plans.len()
        invariant
            i <= plans.len(),
            s == plans@,
            forall|k: int| 0 <= k < s.len() ==> (#[trigger] s[k]).plan.est_costs@.len() > 0,
            mirrors(r@, ran(s.take(i as int))),
        decreases plans.len() - i,
    {
        assert(s.take(i + 1).drop_last() =~= s.take(i as int));
        assert(s.take(i + 1).last() == s[i as int]);
        match &plans[i].runtime {
            Ok(stats) => {
                assert(s[i as int].plan.est_costs@.len() > 0);
                r.push((stats.mean, plans[i].plan.est_costs[0]));
            },
            Err(_) => {},
        }
        i = i + 1;
    }
    assert(s.take(i as int) =~= s);
    r
}

/// What the runtimes and costs range over.
fn find_ranges(pairs: &Vec<(Duration, Float64)>, Ghost(p): Ghost<Seq<(nat, Float64)>>) -> (r:
    Ranges)
    requires
        mirrors(pairs@, p),
        p.len() > 0,
    ensures
        r == ranges(p),
{
    assert(p[0] == (pairs@[0].0@, pairs@[0].1));
    let mut best: Duration = pairs[0].0;
    let mut max_r: Float64 = pairs[0].0.as_secs_f64();
    let mut min_e: Float64 = pairs[0].1;
    let mut max_e: Float64 = pairs[0].1;
    let mut i: usize = 1;
    while i < pairs.len()
        invariant
            1 <= i <= pairs.len(),
            mirrors(pairs@, p),
            best@ == shortest(p, i as nat),
            max_r == longest(p, i as nat),
            min_e == cheapest(p, i as nat),
            max_e == dearest(p, i as nat),
        decreases pairs.len() - i,
    {
        assert(p[i as int] == (pairs@[i as int].0@, pairs@[i as int].1));
        let time: Duration = pairs[i].0;
        let cost: Float64 = pairs[i].1;
        if time.shorter(&best) {
            best = time;
        }
        let secs: Float64 = time.as_secs_f64();
        if !secs.lt(max_r) {
            max_r = secs;
        }
        if cost.lt(min_e) {
            min_e = cost;
        }
        if !cost.lt(max_e) {
            max_e = cost;
        }
        i = i + 1;
    }
    let min_r: Float64 = best.as_secs_f64();
    Ranges { min_r, range_r: max_r.minus(min_r), range_e: max_e.minus(min_e) }
}

/// The weight of a runtime.
fn runtime_weight(min_r: Float64, r: Float64) -> (w: Float64)
    ensures
        w == weight(min_r, r),
{
    if (Float64 { bits: 0 }).lt(r) {
        min_r.over(r)
    } else {
        Float64 { bits: 0 }
    }
}

/// The square of a distance as a part of a range.
fn share_squared(from: Float64, to: Float64, range: Float64) -> (r: Float64)
    ensures
        r == squared_share(from, to, range),
{
    if (Float64 { bits: 0 }).lt(range) {
        let share: Float64 = to.minus(from).over(range);
        share.times(share)
    } else {
        Float64 { bits: 0 }
    }
}

/// What two plans contribute to the score.
fn pair_score(a: (Duration, Float64), b: (Duration, Float64), c: &Ranges) -> (r: Float64)
    ensures
        r == pair_term((a.0@, a.1), (b.0@, b.1), *c),
{
    proof {
        reveal(pair_term);
    }
    let r_a: Float64 = a.0.as_secs_f64();
    let r_b: Float64 = b.0.as_secs_f64();
    let w_a: Float64 = runtime_weight(c.min_r, r_a);
    let w_b: Float64 = runtime_weight(c.min_r, r_b);
    let term1: Float64 = share_squared(r_a, r_b, c.range_r);
    let term2: Float64 = share_squared(a.1, b.1, c.range_e);
    let distance: Float64 = term1.plus(term2).sqrt();
    let sign: Float64 = b.1.minus(a.1).signum();
    w_a.times(w_b).times(distance).times(sign)
}

/// The weighted rank correlation of the runtimes and the estimated costs of plans.
pub fn cost_rank_score(plans: &Vec<MeasuredPlan>) -> (r: Float64)
    requires
        scorable(plans@),
    ensures
        r == rank_score(ran(plans@)),
{
    let pairs: Vec<(Duration, Float64)> = runtime_cost_pairs(plans);
    let ghost p = ran(plans@);
    let c: Ranges = find_ranges(&pairs, Ghost(p));
    let mut s: Float64 = Float64 { bits: 0 };
    let n: usize = pairs.len();
    let mut i: usize = 0;
    while i < n
        invariant
            i <= n,
            n == pairs.len(),
            mirrors(pairs@, p),
            c == ranges(p),
            s == rows_sum(p, c, i as int),
        decreases n - i,
    {
        let ghost start = s;
        assert(p[i as int] == (pairs@[i as int].0@, pairs@[i as int].1));
        let e_i: Float64 = pairs[i].1;
        let mut j: usize = i + 1;
        while j < n
            invariant
                i < j <= n,
                n == pairs.len(),
                mirrors(pairs@, p),
                c == ranges(p),
                e_i == p[i as int].1,
                p[i as int] == (pairs@[i as int].0@, pairs@[i as int].1),
                s == row_sum(p, c, start, i as int, j as int),
            decreases n - j,
        {
            assert(p[j as int] == (pairs@[j as int].0@, pairs@[j as int].1));
            let e_j: Float64 = pairs[j].1;
            if !e_i.num_eq(e_j) {
                s = s.plus(pair_score(pairs[i], pairs[j], &c));
            }
            j = j + 1;
        }
        i = i + 1;
    }
    proof {
        reveal(rank_score);
    }
    s
}

/// The exponent whose power of e is the accuracy that a score stands for.
pub open spec fn accuracy_exponent(score: Float64) -> Float64 {
    score.absolute().negated()
}

/// Whether a score comes to `percent`, where `exp` is the exponential function.
pub open spec fn is_accuracy<F: Fn(Float64) -> Float64>(
    exp: F,
    score: Float64,
    percent: Float64,
) -> bool {
    exists|power: Float64|
        #[trigger] call_ensures(exp, (accuracy_exponent(score),), power) && percent == (Float64 {
            bits: HUNDRED,
        }).product(power)
}

/// The accuracy of cost estimation: the weighted rank correlation of the runtimes and the estimated
/// costs of plans, and what it comes to as a percentage, by the exponential function `exp`.
pub fn calculate_cost_rank_accuracy<F: Fn(Float64) -> Float64>(
    plans: &Vec<MeasuredPlan>,
    exp: F,
) -> (r: (Float64, Float64))
    requires
        scorable(plans@),
        forall|x: Float64| call_requires(exp, (x,)),
    ensures
        r.0 == rank_score(ran(plans@)),
        is_accuracy(exp, r.0, r.1),
{
    let s: Float64 = cost_rank_score(plans);
    let exponent: Float64 = s.abs().neg();
    let power: Float64 = exp(exponent);
    assert(call_ensures(exp, (accuracy_exponent(s),), power));
    (s, (Float64 { bits: HUNDRED }).times(power))
}

/// Where the exponential function gives a number from zero to one, the accuracy is a percentage
/// from zero to one hundred.
pub proof fn lemma_accuracy_range(power: Float64)
    requires
        !power.negative(),
        power.at_most(Float64 { bits: ONE }),
    ensures
        (Float64 { bits: 0 }).at_most((Float64 { bits: HUNDRED }).product(power)),
        (Float64 { bits: HUNDRED }).product(power).at_most(Float64 { bits: HUNDRED }),
{
    let hundred = Float64 { bits: HUNDRED };
    let u = one_unit();
    let h = magnitude_value(HUNDRED as nat);
    let v = magnitude_value(power.magnitude());
    lemma_one();
    lemma_sign(Float64 { bits: 0 });
    if power.magnitude() >= INFINITE {
        lemma_magnitude_value_monotone(ONE as nat, INFINITE as nat);
    }
    assert(h * v <= h * u) by (nonlinear_arith)
        requires
            v <= u,
            h >= 0,
    ;
    lemma_nearest_at_most(h * v, u, HUNDRED as nat);
    lemma_nearest_value(h * v, u);
    if nearest_magnitude(h * v, u) < HUNDRED {
        lemma_magnitude_value_monotone(nearest_magnitude(h * v, u), HUNDRED as nat);
    }
}

/// Where the exponential function gives one, the accuracy is one hundred.
pub proof fn lemma_full_accuracy()
    ensures
        (Float64 { bits: HUNDRED }).product(Float64 { bits: ONE }) == (Float64 { bits: HUNDRED }),
{
    let u = one_unit();
    let h = magnitude_value(HUNDRED as nat);
    lemma_one();
    lemma_nearest_at_least(h * u, u, HUNDRED as nat);
    lemma_nearest_at_most(h * u, u, HUNDRED as nat);
}

/// A score and its opposite come to the same accuracy.
pub proof fn lemma_opposite_accuracy(score: Float64)
    ensures
        accuracy_exponent(score.negated()) == accuracy_exponent(score),
{
}

/// Where all costs are the same, there is nothing to score.
pub proof fn lemma_same_costs_score_zero(p: Seq<(nat, Float64)>)
    requires
        forall|i: int, j: int|
            0 <= i < j < p.len() ==> (#[trigger] p[i]).1.same_number((#[trigger] p[j]).1),
    ensures
        rank_score(p) == (Float64 { bits: 0 }),
{
    reveal(rank_score);
    lemma_same_costs_rows(p, ranges(p), p.len() as int);
}

proof fn lemma_same_costs_rows(p: Seq<(nat, Float64)>, c: Ranges, i: int)
    requires
        0 <= i <= p.len(),
        forall|a: int, b: int|
            0 <= a < b < p.len() ==> (#[trigger] p[a]).1.same_number((#[trigger] p[b]).1),
    ensures
        rows_sum(p, c, i) == (Float64 { bits: 0 }),
    decreases i,
{
    if i > 0 {
        lemma_same_costs_rows(p, c, i - 1);
        lemma_same_costs_row(p, c, i - 1, p.len() as int);
    }
}

proof fn lemma_same_costs_row(p: Seq<(nat, Float64)>, c: Ranges, i: int, j: int)
    requires
        0 <= i < p.len(),
        j <= p.len(),
        forall|a: int, b: int|
            0 <= a < b < p.len() ==> (#[trigger] p[a]).1.same_number((#[trigger] p[b]).1),
    ensures
        row_sum(p, c, Float64 { bits: 0 }, i, j) == (Float64 { bits: 0 }),
    decreases j,
{
    if j > i + 1 {
        lemma_same_costs_row(p, c, i, j - 1);
        assert(p[i].1.same_number(p[j - 1].1));
    }
}

} // verus!
