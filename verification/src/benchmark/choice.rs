//! How the plan that the optimizer chose compares to the others.
use vstd::prelude::*;
use vstd::arithmetic::power2::pow2;
use vstd::arithmetic::power2::{
    lemma2_to64, lemma2_to64_rest, lemma_pow2_adds, lemma_pow2_pos,
    lemma_pow2_strictly_increases,
};
use vstd::hash_map::StringHashMap;
use crate::benchmark::accuracy::{
    calculate_cost_rank_accuracy, comparable, is_accuracy, lemma_ran_insert, lemma_some_ran, ran,
    rank_score, scorable,
};
use crate::benchmark::quality::{avg_q_error, calculate_avg_q_error};
use crate::benchmark::stats::{intervals_overlap, lemma_level_order, RuntimeStats, HALF};
use crate::benchmark::types::{BenchmarkConfig, BenchmarkOutput, MeasuredPlan, OptimizerMetrics};
use crate::common::plan::Plan;
use crate::counting::{lemma_those, those};
use crate::float::arith::{abs_nat, lemma_nearest_zero, of_nat, one_unit};
use crate::float::encoding::{lemma_magnitude_value_monotone, magnitude_value, Float64, BINADE};
use crate::float::monotone::{
    lemma_integer_encoded, lemma_nearest_at_least, lemma_nearest_at_most, lemma_nearest_value,
    lemma_of_nat, lemma_of_nat_monotone, lemma_one, lemma_quotient_at_most_one,
    lemma_quotient_same, lemma_sign,
};
use crate::float::order::ONE;
use crate::float::rounding::nearest_magnitude;
use crate::float::same::lemma_zero_quotient;
use crate::float::sums::{
    lemma_difference_rounded, lemma_rounded_encoded, lemma_rounded_monotone,
};
use crate::ranking::{
    lemma_place, lemma_ranked_permutes, lemma_ranked_sorted, place, rank, ranked,
    RankBy,
};

verus! {

/// Plans in the order of their estimated costs.
pub struct ByCost;

impl RankBy<Plan> for ByCost {
    open spec fn ready(&self, x: &Plan) -> bool {
        x.est_costs@.len() > 0 && !x.est_costs@[0].nan()
    }

    open spec fn before(&self, x: &Plan, y: &Plan) -> bool {
        x.est_costs@[0].below(y.est_costs@[0])
    }

    fn is_before(&self, x: &Plan, y: &Plan) -> (r: bool) {
        x.est_costs[0].lt(y.est_costs[0])
    }
}

/// Alternate plans in the order in which they are measured: by their estimated costs.
pub fn order_alternates(alternates: Vec<Plan>) -> (r: Vec<Plan>)
    requires
        alternates@.len() > 1 ==> forall|i: int|
            0 <= i < alternates@.len() ==> ByCost.ready(#[trigger] &alternates@[i]),
    ensures
        r@ == ranked(ByCost, alternates@),
{
    if alternates.len() > 1 {
        rank(&ByCost, alternates)
    } else {
        proof {
            let s = alternates@;
            if s.len() == 1 {
                assert(s.drop_last() =~= Seq::<Plan>::empty());
                assert(ranked(ByCost, s.drop_last()) =~= Seq::<Plan>::empty());
                assert(ranked(ByCost, s) =~= s);
            }
        }
        alternates
    }
}

/// Alternate plans are measured from the least to the greatest estimated cost.
pub proof fn lemma_alternates_by_cost(s: Seq<Plan>)
    requires
        forall|i: int| 0 <= i < s.len() ==> ByCost.ready(#[trigger] &s[i]),
    ensures
        ranked(ByCost, s).to_multiset() == s.to_multiset(),
        forall|i: int, j: int|
            #![trigger ranked(ByCost, s)[i], ranked(ByCost, s)[j]]
            0 <= i < j < s.len() ==> ranked(ByCost, s)[i].est_costs@[0].at_most(
                ranked(ByCost, s)[j].est_costs@[0],
            ),
{
    lemma_ranked_permutes(ByCost, s);
    assert forall|x: Plan| #[trigger] s.contains(x) implies ByCost.ready(&x) by {
        let i = choose|i: int| 0 <= i < s.len() && s[i] == x;
        assert(ByCost.ready(&s[i]));
    }
    lemma_ranked_sorted(ByCost, s);
    assert forall|i: int, j: int|
        #![trigger ranked(ByCost, s)[i], ranked(ByCost, s)[j]]
        0 <= i < j < s.len() implies ranked(ByCost, s)[i].est_costs@[0].at_most(
        ranked(ByCost, s)[j].est_costs@[0],
    ) by {
        assert(ranked(ByCost, s).contains(ranked(ByCost, s)[i]));
        assert(ranked(ByCost, s).contains(ranked(ByCost, s)[j]));
        assert(s.contains(ranked(ByCost, s)[i]) && s.contains(ranked(ByCost, s)[j]));
        assert(!ByCost.before(&ranked(ByCost, s)[j], &ranked(ByCost, s)[i]));
    }
}

/// When one measured plan counts as faster than another.
#[derive(Clone, Copy, Debug)]
pub struct ByRuntime {
    /// The overlap from which runtimes are level.
    pub threshold: Float64,
}

impl ByRuntime {
    /// Whether `x` counts as faster than `y`: its runtime is shorter and not level, or only `y`
    /// failed.
    pub open spec fn before(&self, x: &MeasuredPlan, y: &MeasuredPlan) -> bool {
        match (x.runtime, y.runtime) {
            (Ok(a), Ok(b)) => a.ahead(b, self.threshold),
            (Ok(_), Err(_)) => true,
            (Err(_), _) => false,
        }
    }

    /// Whether `x` counts as faster than `y`.
    pub fn is_before(&self, x: &MeasuredPlan, y: &MeasuredPlan) -> (r: bool)
        ensures
            r == self.before(x, y),
    {
        match (&x.runtime, &y.runtime) {
            (Ok(a), Ok(b)) => a.is_ahead(b, self.threshold),
            (Ok(_), Err(_)) => true,
            (Err(_), _) => false,
        }
    }
}

/// Runtimes are level where their intervals overlap by one half.
pub open spec fn by_halves() -> ByRuntime {
    ByRuntime { threshold: Float64 { bits: HALF } }
}

/// Of plans whose runtimes overlap by the threshold, neither counts as faster.
pub proof fn lemma_overlapping_are_level(order: ByRuntime, x: MeasuredPlan, y: MeasuredPlan)
    requires
        x.runtime matches Ok(a) && y.runtime matches Ok(b) && intervals_overlap(
            a.mean@,
            a.stddev@,
            b.mean@,
            b.stddev@,
            order.threshold,
        ),
    ensures
        !order.before(&x, &y),
        !order.before(&y, &x),
{
    lemma_level_order(x.runtime->Ok_0, y.runtime->Ok_0, order.threshold);
}

/// Measured plans in the order of their mean runtimes, those that failed last.
///
/// Which runtimes are level is no order: plans may be level with a third one and not with each
/// other. Means can always be ordered, and a plan that counts as faster has a shorter one.
pub struct ByMean;

impl RankBy<MeasuredPlan> for ByMean {
    open spec fn ready(&self, x: &MeasuredPlan) -> bool {
        true
    }

    open spec fn before(&self, x: &MeasuredPlan, y: &MeasuredPlan) -> bool {
        match (x.runtime, y.runtime) {
            (Ok(a), Ok(b)) => a.mean@ < b.mean@,
            (Ok(_), Err(_)) => true,
            (Err(_), _) => false,
        }
    }

    fn is_before(&self, x: &MeasuredPlan, y: &MeasuredPlan) -> (r: bool) {
        match (&x.runtime, &y.runtime) {
            (Ok(a), Ok(b)) => a.mean.shorter(&b.mean),
            (Ok(_), Err(_)) => true,
            (Err(_), _) => false,
        }
    }
}

/// Whether the chosen plan goes before `x`: where `x` failed, or took longer.
pub open spec fn goes_before(best: MeasuredPlan, x: MeasuredPlan) -> bool {
    match (x.runtime, best.runtime) {
        (Err(_), _) => true,
        (Ok(_), Err(_)) => false,
        (Ok(a), Ok(b)) => b.mean@ < a.mean@,
    }
}

/// Whether `i` is the place of the chosen plan among others: in front of the first that it goes
/// before.
pub open spec fn is_chosen_place(others: Seq<MeasuredPlan>, best: MeasuredPlan, i: nat) -> bool {
    &&& i <= others.len()
    &&& i < others.len() ==> goes_before(best, others[i as int])
    &&& forall|k: int| 0 <= k < i ==> !goes_before(best, #[trigger] others[k])
}

/// Whether plans stand from the fastest to the slowest, by their mean runtimes, and plans that
/// failed come last.
pub open spec fn fastest_first(s: Seq<MeasuredPlan>) -> bool {
    forall|i: int, j: int|
        #![trigger s[i], s[j]]
        0 <= i < j < s.len() ==> match (s[i].runtime, s[j].runtime) {
            (Ok(a), Ok(b)) => a.mean@ <= b.mean@,
            (Ok(_), Err(_)) => true,
            (Err(_), Ok(_)) => false,
            (Err(_), Err(_)) => true,
        }
}

/// Whether no plan stands behind one that it counts as faster than.
pub open spec fn none_behind_slower(order: ByRuntime, s: Seq<MeasuredPlan>) -> bool {
    forall|i: int, j: int|
        #![trigger s[i], s[j]]
        0 <= i < j < s.len() ==> !order.before(&s[j], &s[i])
}

/// In plans from the fastest to the slowest none stands behind one that it counts as faster than,
/// whatever the threshold.
pub proof fn lemma_fastest_first(order: ByRuntime, s: Seq<MeasuredPlan>)
    requires
        fastest_first(s),
    ensures
        none_behind_slower(order, s),
{
}

/// Sorting by mean runtime, with the chosen plan in its place, puts the fastest plans first and
/// those that failed last, and keeps every plan.
pub proof fn lemma_plans_sorted(others: Seq<MeasuredPlan>, best: MeasuredPlan, i: nat)
    requires
        is_chosen_place(ranked(ByMean, others), best, i),
    ensures
        fastest_first(ranked(ByMean, others).insert(i as int, best)),
        ranked(ByMean, others).insert(i as int, best).to_multiset() == others.push(
            best,
        ).to_multiset(),
{
    let t = ranked(ByMean, others);
    let u = t.insert(i as int, best);
    lemma_ranked_permutes(ByMean, others);
    lemma_ranked_sorted(ByMean, others);
    assert forall|a: int, b: int|
        #![trigger u[a], u[b]]
        0 <= a < b < u.len() implies !ByMean.before(&u[b], &u[a]) by {
        if b < i {
            assert(u[a] == t[a] && u[b] == t[b]);
        } else if b == i {
            assert(u[a] == t[a]);
            assert(!goes_before(best, t[a]));
        } else if a < i {
            assert(u[a] == t[a] && u[b] == t[b - 1]);
        } else if a > i {
            assert(u[a] == t[a - 1] && u[b] == t[b - 1]);
        } else {
            assert(u[b] == t[b - 1]);
            assert(goes_before(best, t[i as int]));
            assert(i == b - 1 || !ByMean.before(&t[b - 1], &t[i as int]));
        }
    }
    assert forall|a: int, b: int|
        #![trigger u[a], u[b]]
        0 <= a < b < u.len() implies match (u[a].runtime, u[b].runtime) {
        (Ok(x), Ok(y)) => x.mean@ <= y.mean@,
        (Ok(_), Err(_)) => true,
        (Err(_), Ok(_)) => false,
        (Err(_), Err(_)) => true,
    } by {
        assert(!ByMean.before(&u[b], &u[a]));
    }
    assert(u.remove(i as int) =~= t);
    vstd::seq_lib::to_multiset_remove(u, i as int);
    vstd::seq_lib::to_multiset_build(others, best);
    assert(u[i as int] == best);
    u.to_multiset_ensures();
    assert(u.contains(best));
    assert(u.to_multiset() =~= u.to_multiset().remove(best).insert(best));
}

/// Sorts the alternates by runtime, and puts the chosen plan among them.
pub fn place_chosen(best: MeasuredPlan, alternates: Vec<MeasuredPlan>) -> (r: (
    Vec<MeasuredPlan>,
    usize,
))
    requires
        alternates@.len() < usize::MAX,
    ensures
        is_chosen_place(ranked(ByMean, alternates@), best, r.1 as nat),
        r.0@ == ranked(ByMean, alternates@).insert(r.1 as int, best),
        r.1 < r.0@.len(),
        r.0@[r.1 as int] == best,
        r.0@.len() == alternates@.len() + 1,
        fastest_first(r.0@),
        forall|order: ByRuntime| #[trigger] none_behind_slower(order, r.0@),
{
    let ghost s = alternates@;
    let mut out: Vec<MeasuredPlan> = rank(&ByMean, alternates);
    proof {
        lemma_ranked_permutes(ByMean, s);
    }
    let mut i: usize = 0;
    while i < out.len()
        invariant
            i <= out.len(),
            out@ == ranked(ByMean, s),
            forall|k: int| 0 <= k < i ==> !goes_before(best, #[trigger] out@[k]),
        ensures
            is_chosen_place(ranked(ByMean, s), best, i as nat),
            out@ == ranked(ByMean, s),
        decreases out.len() - i,
    {
        let stop: bool = match (&out[i].runtime, &best.runtime) {
            (Err(_), _) => true,
            (Ok(_), Err(_)) => false,
            (Ok(a), Ok(b)) => b.mean.shorter(&a.mean),
        };
        if stop {
            break;
        }
        i = i + 1;
    }
    out.insert(i, best);
    proof {
        lemma_plans_sorted(s, best, i as nat);
        assert forall|order: ByRuntime| #[trigger] none_behind_slower(order, out@) by {
            lemma_fastest_first(order, out@);
        }
    }
    (out, i)
}

/// How many of the first `n` plans ran.
pub open spec fn valid_count(plans: Seq<MeasuredPlan>, n: nat) -> nat
    decreases n,
{
    if n == 0 {
        0
    } else {
        valid_count(plans, (n - 1) as nat) + if plans[n - 1].runtime is Ok {
            1nat
        } else {
            0nat
        }
    }
}

/// Whether plan `i` ran and is not faster than the chosen one.
pub open spec fn no_better(
    order: ByRuntime,
    plans: Seq<MeasuredPlan>,
    chosen: int,
    i: int,
) -> bool {
    plans[i].runtime matches Ok(a) && (i == chosen || !a.ahead(
        plans[chosen].runtime->Ok_0,
        order.threshold,
    ))
}

/// How many of the first `n` plans ran and are not faster than the chosen one.
pub open spec fn no_better_count(
    order: ByRuntime,
    plans: Seq<MeasuredPlan>,
    chosen: int,
    n: nat,
) -> nat
    decreases n,
{
    if n == 0 {
        0
    } else {
        no_better_count(order, plans, chosen, (n - 1) as nat) + if no_better(
            order,
            plans,
            chosen,
            n - 1,
        ) {
            1nat
        } else {
            0nat
        }
    }
}

/// The share of the plans that ran which are not faster than the chosen one; zero where that one
/// failed.
pub open spec fn performance_factor(
    order: ByRuntime,
    plans: Seq<MeasuredPlan>,
    chosen: int,
) -> Float64 {
    if plans[chosen].runtime is Ok {
        of_nat(no_better_count(order, plans, chosen, plans.len())).quotient(
            of_nat(valid_count(plans, plans.len())),
        )
    } else {
        Float64 { bits: 0 }
    }
}

/// The share of the plans that perform worse than or equal to the chosen one, by the threshold from
/// which runtimes are level.
pub fn share_no_better(order: ByRuntime, plans: &Vec<MeasuredPlan>, chosen_idx: usize) -> (r:
    Float64)
    requires
        chosen_idx < plans@.len(),
    ensures
        r == performance_factor(order, plans@, chosen_idx as int),
{
    let ghost s = plans@;
    match &plans[chosen_idx].runtime {
        Ok(chosen) => {
            let mut no_better: usize = 0;
            let mut valid: usize = 0;
            let mut i: usize = 0;
            while i < plans.len()
                invariant
                    i <= plans.len(),
                    s == plans@,
                    chosen_idx < s.len(),
                    s[chosen_idx as int].runtime == Ok::<
                        RuntimeStats,
                        crate::common::measure::MeasureError,
                    >(*chosen),
                    valid <= i,
                    no_better <= i,
                    valid == valid_count(s, i as nat),
                    no_better == no_better_count(order, s, chosen_idx as int, i as nat),
                    i > chosen_idx ==> valid > 0,
                decreases plans.len() - i,
            {
                match &plans[i].runtime {
                    Ok(runtime) => {
                        valid = valid + 1;
                        if i == chosen_idx || !runtime.is_ahead(chosen, order.threshold) {
                            no_better = no_better + 1;
                        }
                    },
                    Err(_) => {},
                }
                i = i + 1;
            }
            Float64::from_u64(no_better as u64).over(Float64::from_u64(valid as u64))
        },
        Err(_) => Float64 { bits: 0 },
    }
}

/// The share of the plans that perform worse than or equal to the chosen one.
pub fn calculate_performance_factor(plans: &Vec<MeasuredPlan>, chosen_idx: usize) -> (r: Float64)
    requires
        chosen_idx < plans@.len(),
    ensures
        r == performance_factor(by_halves(), plans@, chosen_idx as int),
{
    share_no_better(ByRuntime { threshold: Float64 { bits: HALF } }, plans, chosen_idx)
}

proof fn lemma_counts(order: ByRuntime, plans: Seq<MeasuredPlan>, chosen: int, n: nat)
    requires
        n <= plans.len(),
    ensures
        no_better_count(order, plans, chosen, n) <= valid_count(plans, n) <= n,
        plans[chosen].runtime is Ok && 0 <= chosen < n ==> no_better_count(order, plans, chosen, n)
            > 0,
        no_better_count(order, plans, chosen, n) == valid_count(plans, n) <==> forall|i: int|
            0 <= i < n && (#[trigger] plans[i]).runtime is Ok ==> no_better(
                order,
                plans,
                chosen,
                i,
            ),
    decreases n,
{
    if n > 0 {
        lemma_counts(order, plans, chosen, (n - 1) as nat);
        let before = (n - 1) as nat;
        if no_better_count(order, plans, chosen, n) == valid_count(plans, n) {
            assert(no_better_count(order, plans, chosen, before) == valid_count(plans, before));
            assert forall|i: int|
                0 <= i < n && (#[trigger] plans[i]).runtime is Ok implies no_better(
                order,
                plans,
                chosen,
                i,
            ) by {
                if i == n - 1 {
                    assert(no_better(order, plans, chosen, n - 1));
                }
            }
        } else {
            if no_better_count(order, plans, chosen, before) == valid_count(plans, before) {
                assert(plans[n - 1].runtime is Ok && !no_better(order, plans, chosen, n - 1));
            }
        }
    }
}

/// A performance factor lies between zero and one.
pub proof fn lemma_performance_factor_range(
    order: ByRuntime,
    plans: Seq<MeasuredPlan>,
    chosen: int,
)
    requires
        0 <= chosen < plans.len() <= usize::MAX,
    ensures
        performance_factor(order, plans, chosen).at_most(Float64 { bits: ONE }),
        (Float64 { bits: 0 }).at_most(performance_factor(order, plans, chosen)),
{
    if plans[chosen].runtime is Ok {
        lemma_counts(order, plans, chosen, plans.len());
        lemma_share_range(
            no_better_count(order, plans, chosen, plans.len()),
            valid_count(plans, plans.len()),
        );
    } else {
        lemma_one();
        lemma_sign(Float64 { bits: 0 });
    }
}

/// A quotient of integers below one is not rounded to one.
proof fn lemma_share_below_one(a: nat, b: nat)
    requires
        0 < a < b < 2 * BINADE,
    ensures
        of_nat(a).quotient(of_nat(b)) != (Float64 { bits: ONE }),
{
    let u = one_unit();
    lemma_one();
    let _ = lemma_integer_encoded(a);
    let _ = lemma_integer_encoded(b);
    lemma_of_nat(a);
    lemma_of_nat(b);
    let num = (a * u) * u;
    let den = b * u;
    assert(den > 0) by (nonlinear_arith)
        requires
            b > 0,
            u > 0,
            den == b * u,
    ;
    let m = (ONE - 1) as nat;
    let p = pow2(1021);
    lemma_pow2_pos(1021);
    lemma2_to64_rest();
    lemma_pow2_adds(53, 1021);
    assert(m / BINADE as nat == 1022 && m % BINADE as nat == BINADE - 1);
    let v = magnitude_value(m);
    assert(v == u - p) by (nonlinear_arith)
        requires
            v == (2 * BINADE - 1) * p,
            u == (2 * BINADE) * p,
    ;
    assert(a * u <= v * b) by (nonlinear_arith)
        requires
            v == u - p,
            u == (2 * BINADE) * p,
            b < 2 * BINADE,
            a + 1 <= b,
            p > 0,
    ;
    assert(num <= v * den) by (nonlinear_arith)
        requires
            a * u <= v * b,
            num == (a * u) * u,
            den == b * u,
            u > 0,
    ;
    lemma_nearest_at_most(num, den, m);
    assert(abs_nat(of_nat(a).value()) == a * u);
    assert(abs_nat(of_nat(b).value()) == b * u);
}

/// A performance factor of one says that no plan that ran is faster than the chosen one, which ran.
pub proof fn lemma_performance_factor_one(order: ByRuntime, plans: Seq<MeasuredPlan>, chosen: int)
    requires
        0 <= chosen < plans.len() < 2 * BINADE,
    ensures
        performance_factor(order, plans, chosen) == (Float64 { bits: ONE }) <==> {
            &&& plans[chosen].runtime is Ok
            &&& forall|i: int|
                0 <= i < plans.len() && (#[trigger] plans[i]).runtime is Ok ==> no_better(
                    order,
                    plans,
                    chosen,
                    i,
                )
        },
{
    if plans[chosen].runtime is Ok {
        let a = no_better_count(order, plans, chosen, plans.len());
        let b = valid_count(plans, plans.len());
        lemma_counts(order, plans, chosen, plans.len());
        lemma_one();
        lemma_of_nat(a);
        if a == b {
            lemma_quotient_same(of_nat(a));
        } else {
            lemma_share_below_one(a, b);
        }
    }
}

/// A chosen plan that ran and comes first has a performance factor of one.
pub proof fn lemma_first_is_best(order: ByRuntime, others: Seq<MeasuredPlan>, best: MeasuredPlan)
    requires
        is_chosen_place(ranked(ByMean, others), best, 0),
        best.runtime is Ok,
        others.len() + 1 < 2 * BINADE,
    ensures
        performance_factor(order, ranked(ByMean, others).insert(0, best), 0) == (Float64 {
            bits: ONE,
        }),
{
    let u = ranked(ByMean, others).insert(0, best);
    lemma_ranked_permutes(ByMean, others);
    lemma_plans_sorted(others, best, 0);
    lemma_fastest_first(order, u);
    assert(u[0] == best);
    assert forall|i: int| 0 <= i < u.len() && (#[trigger] u[i]).runtime is Ok implies no_better(
        order,
        u,
        0,
        i,
    ) by {
        if i > 0 {
            assert(!order.before(&u[i], &u[0]));
        }
    }
    lemma_performance_factor_one(order, u, 0);
}

/// A quotient of integers that are not zero is not rounded to zero.
proof fn lemma_share_above_zero(a: nat, b: nat)
    requires
        0 < a <= u64::MAX,
        0 < b <= u64::MAX,
    ensures
        (Float64 { bits: 0 }).below(of_nat(a).quotient(of_nat(b))),
{
    let u = one_unit();
    lemma_one();
    lemma_of_nat(a);
    lemma_of_nat(b);
    lemma_sign(of_nat(a));
    lemma_sign(of_nat(b));
    lemma_sign(Float64 { bits: 0 });
    let num = abs_nat(of_nat(a).value()) * u;
    let den = abs_nat(of_nat(b).value());
    lemma_pow2_adds(1074, 1074);
    lemma_pow2_strictly_increases(1138, 2148);
    assert(den <= num) by (nonlinear_arith)
        requires
            den <= pow2(1138),
            pow2(1138) < u * u,
            abs_nat(of_nat(a).value()) >= u,
            num == abs_nat(of_nat(a).value()) * u,
            u > 0,
    ;
    assert(magnitude_value(1) == 1);
    lemma_nearest_at_least(num, den, 1);
    lemma_nearest_value(num, den);
    if nearest_magnitude(num, den) > 1 {
        lemma_magnitude_value_monotone(1, nearest_magnitude(num, den));
    }
}

/// Where the chosen plan ran, its performance factor is above zero.
pub proof fn lemma_performance_factor_above_zero(
    order: ByRuntime,
    plans: Seq<MeasuredPlan>,
    chosen: int,
)
    requires
        0 <= chosen < plans.len() <= usize::MAX,
        plans[chosen].runtime is Ok,
    ensures
        (Float64 { bits: 0 }).below(performance_factor(order, plans, chosen)),
{
    lemma_counts(order, plans, chosen, plans.len());
    lemma_share_above_zero(
        no_better_count(order, plans, chosen, plans.len()),
        valid_count(plans, plans.len()),
    );
}

/// Where the chosen plan stands once another has been put in at place `k`.
pub open spec fn shifted(chosen: int, k: int) -> int {
    if k <= chosen {
        chosen + 1
    } else {
        chosen
    }
}

proof fn lemma_counts_insert(
    order: ByRuntime,
    plans: Seq<MeasuredPlan>,
    chosen: int,
    failed: MeasuredPlan,
    k: int,
    n: nat,
)
    requires
        0 <= chosen < plans.len(),
        0 <= k <= plans.len(),
        n <= plans.len(),
        failed.runtime is Err,
    ensures
        n <= k ==> {
            &&& valid_count(plans.insert(k, failed), n) == valid_count(plans, n)
            &&& no_better_count(order, plans.insert(k, failed), shifted(chosen, k), n)
                == no_better_count(order, plans, chosen, n)
        },
        n >= k ==> {
            &&& valid_count(plans.insert(k, failed), n + 1) == valid_count(plans, n)
            &&& no_better_count(order, plans.insert(k, failed), shifted(chosen, k), n + 1)
                == no_better_count(order, plans, chosen, n)
        },
    decreases n,
{
    let u = plans.insert(k, failed);
    let at = shifted(chosen, k);
    assert(u[at] == plans[chosen]);
    assert(u[k] == failed);
    if n > 0 {
        lemma_counts_insert(order, plans, chosen, failed, k, (n - 1) as nat);
        if n <= k {
            assert(u[n - 1] == plans[n - 1]);
        }
        if n > k {
            let before = (n - 1) as nat;
            assert(u[n as int] == plans[n - 1]);
            assert(no_better(order, u, at, n as int) == no_better(order, plans, chosen, n - 1));
            assert(valid_count(u, n) == valid_count(plans, before));
            assert(no_better_count(order, u, at, n) == no_better_count(
                order,
                plans,
                chosen,
                before,
            ));
        }
    }
    if n == k {
        assert(valid_count(u, n + 1) == valid_count(u, n));
        assert(!no_better(order, u, at, n as int));
        assert(no_better_count(order, u, at, n + 1) == no_better_count(order, u, at, n));
    }
}

/// Plans that failed do not matter to the performance factor: with one more, wherever it stands,
/// the factor is the same.
pub proof fn lemma_failed_leave_factor(
    order: ByRuntime,
    plans: Seq<MeasuredPlan>,
    chosen: int,
    failed: MeasuredPlan,
    k: int,
)
    requires
        0 <= chosen < plans.len(),
        0 <= k <= plans.len(),
        failed.runtime is Err,
    ensures
        performance_factor(order, plans.insert(k, failed), shifted(chosen, k))
            == performance_factor(order, plans, chosen),
{
    lemma_counts_insert(order, plans, chosen, failed, k, plans.len());
    assert(plans.insert(k, failed)[shifted(chosen, k)] == plans[chosen]);
    assert(plans.insert(k, failed).len() == plans.len() + 1);
}

/// The metrics of plans, where `exp` is the exponential function.
pub open spec fn are_metrics<F: Fn(Float64) -> Float64>(
    order: ByRuntime,
    metrics: OptimizerMetrics,
    plans: Seq<MeasuredPlan>,
    chosen: int,
    exp: F,
) -> bool {
    &&& metrics.taqo_score_s == rank_score(ran(plans))
    &&& is_accuracy(exp, metrics.taqo_score_s, metrics.taqo_accuracy_percent)
    &&& metrics.performance_factor == performance_factor(order, plans, chosen)
    &&& metrics.avg_q_error == avg_q_error(
        plans[chosen].cardinalities@,
        plans[chosen].plan.est_cards@,
    )
}

/// The metrics of plans.
fn optimizer_metrics<F: Fn(Float64) -> Float64>(
    order: ByRuntime,
    plans: &Vec<MeasuredPlan>,
    chosen_idx: usize,
    exp: F,
) -> (r: OptimizerMetrics)
    requires
        scorable(plans@),
        chosen_idx < plans@.len(),
        forall|x: Float64| call_requires(exp, (x,)),
    ensures
        are_metrics(order, r, plans@, chosen_idx as int, exp),
{
    let (taqo_s, taqo_percent): (Float64, Float64) = calculate_cost_rank_accuracy(plans, exp);
    OptimizerMetrics {
        taqo_score_s: taqo_s,
        taqo_accuracy_percent: taqo_percent,
        performance_factor: share_no_better(order, plans, chosen_idx),
        avg_q_error: calculate_avg_q_error(&plans[chosen_idx]),
    }
}

/// The plans in the order of their runtimes, with the chosen one among them, can be compared as
/// before, and as many of them ran.
proof fn lemma_placed_comparable(others: Seq<MeasuredPlan>, best: MeasuredPlan, i: nat)
    requires
        is_chosen_place(ranked(ByMean, others), best, i),
        comparable(others.push(best)),
    ensures
        comparable(ranked(ByMean, others).insert(i as int, best)),
        ran(ranked(ByMean, others).insert(i as int, best)).len() == ran(others.push(best)).len(),
{
    let all = others.push(best);
    let t = ranked(ByMean, others);
    let u = t.insert(i as int, best);
    lemma_ran_ranked(others);
    lemma_ran_insert(t, i as int, best);
    assert(all.drop_last() =~= others);
    lemma_ranked_permutes(ByMean, others);
    assert forall|k: int| 0 <= k < u.len() implies exists|j: int|
        0 <= j < all.len() && all[j] == #[trigger] u[k] by {
        if k == i {
            assert(all[others.len() as int] == u[k]);
        } else {
            let x = u[k];
            assert(t.contains(x)) by {
                if k < i {
                    assert(t[k] == x);
                } else {
                    assert(t[k - 1] == x);
                }
            }
            assert(others.contains(x));
            let j = choose|j: int| 0 <= j < others.len() && others[j] == x;
            assert(all[j] == x);
        }
    }
}

proof fn lemma_ran_ranked(s: Seq<MeasuredPlan>)
    ensures
        ran(ranked(ByMean, s)).len() == ran(s).len(),
    decreases s.len(),
{
    if s.len() > 0 {
        let t = ranked(ByMean, s.drop_last());
        lemma_ran_ranked(s.drop_last());
        lemma_place(ByMean, t, s.last(), t.len());
        lemma_ran_insert(t, place(ByMean, t, s.last(), t.len()) as int, s.last());
    }
}

/// What benchmarking a query gave, once the plan that the optimizer chose and its alternates have
/// been measured: the plans by runtime, where the chosen one stands among them, and how well the
/// optimizer did. Runtimes are level from the overlap that the configuration gives. It is an error
/// if no plan ran.
pub fn benchmark<F: Fn(Float64) -> Float64>(
    name: String,
    best: MeasuredPlan,
    alternates: Vec<MeasuredPlan>,
    cfg: &BenchmarkConfig,
    exp: F,
) -> (r: Result<BenchmarkOutput, &'static str>)
    requires
        alternates@.len() < usize::MAX,
        comparable(alternates@.push(best)),
        forall|x: Float64| call_requires(exp, (x,)),
    ensures
        match r {
            Ok(out) => {
                let order = ByRuntime { threshold: cfg.overlap_threshold };
                &&& ran(alternates@.push(best)).len() > 0
                &&& out.name == name
                &&& is_chosen_place(ranked(ByMean, alternates@), best, out.chosen_idx as nat)
                &&& out.plans@ == ranked(ByMean, alternates@).insert(out.chosen_idx as int, best)
                &&& fastest_first(out.plans@)
                &&& none_behind_slower(order, out.plans@)
                &&& are_metrics(order, out.metrics, out.plans@, out.chosen_idx as int, exp)
            },
            Err(message) => ran(alternates@.push(best)).len() == 0 && message@
                == "no valid executions"@,
        },
{
    let order: ByRuntime = ByRuntime { threshold: cfg.overlap_threshold };
    let ghost others = alternates@;
    let ghost all = alternates@.push(best);
    let (plans, chosen_idx): (Vec<MeasuredPlan>, usize) = place_chosen(best, alternates);
    let ghost s = plans@;
    proof {
        assert(none_behind_slower(order, s));
        lemma_placed_comparable(others, best, chosen_idx as nat);
        lemma_some_ran(s);
    }
    let mut some: bool = false;
    let mut i: usize = 0;
    while i < plans.len()
        invariant
            i <= plans.len(),
            s == plans@,
            some == exists|k: int| 0 <= k < i && (#[trigger] s[k]).runtime is Ok,
        decreases plans.len() - i,
    {
        match &plans[i].runtime {
            Ok(_) => {
                assert(s[i as int].runtime is Ok);
                some = true;
            },
            Err(_) => {},
        }
        i = i + 1;
    }
    if !some {
        return Err("no valid executions");
    }
    let metrics: OptimizerMetrics = optimizer_metrics(order, &plans, chosen_idx, exp);
    Ok(BenchmarkOutput { name, plans, chosen_idx, metrics })
}

/// Encoding of the distance from one within which a performance factor counts as one.
pub const NEARLY: u64 = 0x3eb0_c6f7_a0b5_ed8d;

/// Whether the optimizer chose a plan that none is faster than.
pub open spec fn is_optimal(result: BenchmarkOutput) -> bool {
    result.metrics.performance_factor.difference(Float64 { bits: ONE }).absolute().below(
        Float64 { bits: NEARLY },
    )
}

/// Whether the optimizer chose a plan that none is faster than.
pub fn chose_optimal(result: &BenchmarkOutput) -> (r: bool)
    ensures
        r == is_optimal(*result),
{
    let factor: Float64 = result.metrics.performance_factor;
    factor.minus(Float64 { bits: ONE }).abs().lt(Float64 { bits: NEARLY })
}

/// In how many of the first `n` queries the optimizer chose a plan that none is faster than.
pub open spec fn optimal_count(results: Seq<BenchmarkOutput>, n: nat) -> nat
    decreases n,
{
    if n == 0 {
        0
    } else {
        optimal_count(results, (n - 1) as nat) + if is_optimal(results[n - 1]) {
            1nat
        } else {
            0nat
        }
    }
}

/// The share of the queries in which the optimizer chose a plan that none is faster than.
pub open spec fn optimality_frequency(results: Seq<BenchmarkOutput>) -> Float64 {
    if results.len() == 0 {
        Float64 { bits: 0 }
    } else {
        of_nat(optimal_count(results, results.len())).quotient(of_nat(results.len()))
    }
}

/// The share of the queries for which the optimizer chose the relative optimal plan.
pub fn calculate_optimality_frequency(benchmark_results: &Vec<BenchmarkOutput>) -> (r: Float64)
    ensures
        r == optimality_frequency(benchmark_results@),
{
    if benchmark_results.len() == 0 {
        return Float64 { bits: 0 };
    }
    let mut optimal: usize = 0;
    let mut i: usize = 0;
    while i < benchmark_results.len()
        invariant
            i <= benchmark_results.len(),
            optimal <= i,
            optimal == optimal_count(benchmark_results@, i as nat),
        decreases benchmark_results.len() - i,
    {
        if chose_optimal(&benchmark_results[i]) {
            optimal = optimal + 1;
        }
        i = i + 1;
    }
    Float64::from_u64(optimal as u64).over(Float64::from_u64(benchmark_results.len() as u64))
}

proof fn lemma_optimal_count(results: Seq<BenchmarkOutput>, n: nat)
    ensures
        optimal_count(results, n) <= n,
    decreases n,
{
    if n > 0 {
        lemma_optimal_count(results, (n - 1) as nat);
    }
}

/// A share of integers lies between zero and one; the whole is one.
pub proof fn lemma_share_range(a: nat, n: nat)
    requires
        a <= n,
        0 < n <= u64::MAX,
    ensures
        of_nat(a).quotient(of_nat(n)).at_most(Float64 { bits: ONE }),
        (Float64 { bits: 0 }).at_most(of_nat(a).quotient(of_nat(n))),
        a == n ==> of_nat(a).quotient(of_nat(n)) == (Float64 { bits: ONE }),
{
    lemma_one();
    lemma_of_nat(n);
    lemma_of_nat_monotone(a, n);
    if a > 0 {
        lemma_of_nat(a);
    } else {
        assert(0 * one_unit() == 0) by (nonlinear_arith);
        lemma_nearest_zero(1);
    }
    lemma_quotient_at_most_one(of_nat(a), of_nat(n));
    lemma_sign(Float64 { bits: 0 });
    if a == n {
        lemma_quotient_same(of_nat(a));
    }
}

/// An optimality frequency lies between zero and one. It is one where each chosen plan is one that
/// none is faster than.
pub proof fn lemma_optimality_frequency_range(results: Seq<BenchmarkOutput>)
    requires
        results.len() <= usize::MAX,
    ensures
        optimality_frequency(results).at_most(Float64 { bits: ONE }),
        (Float64 { bits: 0 }).at_most(optimality_frequency(results)),
        results.len() > 0 && optimal_count(results, results.len()) == results.len()
            ==> optimality_frequency(results) == (Float64 { bits: ONE }),
{
    lemma_optimal_count(results, results.len());
    if results.len() > 0 {
        lemma_share_range(optimal_count(results, results.len()), results.len());
    } else {
        lemma_one();
        lemma_sign(Float64 { bits: 0 });
    }
}

/// A query whose chosen plan has a performance factor of one counts as optimal.
pub proof fn lemma_factor_one_is_optimal(result: BenchmarkOutput)
    requires
        result.metrics.performance_factor == (Float64 { bits: ONE }),
    ensures
        is_optimal(result),
{
    let one = Float64 { bits: ONE };
    lemma_one();
    assert(one.negated().value() == -one.value());
    assert(one.difference(one) == Float64::of(false, 0));
    lemma_magnitude_value_monotone(0, NEARLY as nat);
}

/// Whether the chosen plan is a best one: it ran, and no other is faster.
pub open spec fn is_best(order: ByRuntime, best: MeasuredPlan, others: Seq<MeasuredPlan>) -> bool {
    &&& best.runtime is Ok
    &&& forall|i: int| 0 <= i < others.len() ==> !order.before(#[trigger] &others[i], &best)
}

/// The chosen plan is a best one exactly if its performance factor is one.
pub proof fn lemma_best_has_factor_one(
    order: ByRuntime,
    others: Seq<MeasuredPlan>,
    best: MeasuredPlan,
    i: nat,
)
    requires
        is_chosen_place(ranked(ByMean, others), best, i),
        others.len() + 1 < 2 * BINADE,
    ensures
        is_best(order, best, others) <==> performance_factor(
            order,
            ranked(ByMean, others).insert(i as int, best),
            i as int,
        ) == (Float64 { bits: ONE }),
{
    let t = ranked(ByMean, others);
    let u = t.insert(i as int, best);
    lemma_ranked_permutes(ByMean, others);
    lemma_performance_factor_one(order, u, i as int);
    assert(u[i as int] == best);
    if is_best(order, best, others) {
        assert forall|k: int| 0 <= k < u.len() && (#[trigger] u[k]).runtime is Ok implies no_better(
            order,
            u,
            i as int,
            k,
        ) by {
            if k != i {
                let x = u[k];
                assert(t.contains(x)) by {
                    if k < i {
                        assert(t[k] == x);
                    } else {
                        assert(t[k - 1] == x);
                    }
                }
                assert(others.contains(x));
                let j = choose|j: int| 0 <= j < others.len() && others[j] == x;
                assert(!order.before(&others[j], &best));
            }
        }
    } else if best.runtime is Ok {
        let j = choose|j: int|
            0 <= j < others.len() && order.before(#[trigger] &others[j], &best);
        let x = others[j];
        assert(others.contains(x));
        assert(t.contains(x));
        let k = choose|k: int| 0 <= k < t.len() && t[k] == x;
        let l = if k < i {
            k
        } else {
            k + 1
        };
        assert(u[l] == x);
        assert(!no_better(order, u, i as int, l));
    }
}

/// Whether the chosen plan is a best one.
fn none_ahead(order: ByRuntime, best: &MeasuredPlan, others: &Vec<MeasuredPlan>) -> (r: bool)
    ensures
        r == is_best(order, *best, others@),
{
    if best.runtime.is_err() {
        return false;
    }
    let mut i: usize = 0;
    while i < others.len()
        invariant
            i <= others.len(),
            best.runtime is Ok,
            forall|k: int| 0 <= k < i ==> !order.before(#[trigger] &others@[k], best),
        decreases others.len() - i,
    {
        if order.is_before(&others[i], best) {
            assert(order.before(&others@[i as int], best));
            return false;
        }
        i = i + 1;
    }
    true
}

/// The metrics of a plan that the optimizer chose and of its alternates, by their names.
pub fn benchmark_for_testing<F: Fn(Float64) -> Float64>(
    base_plan: MeasuredPlan,
    alt_plans: Vec<MeasuredPlan>,
    exp: F,
) -> (r: StringHashMap<Float64>)
    requires
        alt_plans@.len() < usize::MAX,
        scorable(alt_plans@.push(base_plan)),
        forall|x: Float64| call_requires(exp, (x,)),
    ensures
        r@.dom() == set![
            "perf_factor"@,
            "avg_q_error"@,
            "cost_rank_accuracy"@,
            "cost_rank_percentage"@,
            "optimality"@,
        ],
        exists|chosen: nat|
            {
                let plans = ranked(ByMean, alt_plans@).insert(chosen as int, base_plan);
                &&& #[trigger] is_chosen_place(
                    ranked(ByMean, alt_plans@),
                    base_plan,
                    chosen,
                )
                &&& r@["perf_factor"@] == performance_factor(by_halves(), plans, chosen as int)
                &&& r@["avg_q_error"@] == avg_q_error(
                    base_plan.cardinalities@,
                    base_plan.plan.est_cards@,
                )
                &&& r@["cost_rank_accuracy"@] == rank_score(ran(plans))
                &&& is_accuracy(exp, r@["cost_rank_accuracy"@], r@["cost_rank_percentage"@])
                &&& r@["optimality"@] == if is_best(by_halves(), base_plan, alt_plans@) {
                    Float64 { bits: ONE }
                } else {
                    Float64 { bits: 0 }
                }
            },
{
    let order: ByRuntime = ByRuntime { threshold: Float64 { bits: HALF } };
    let ghost others = alt_plans@;
    let optimality: Float64 = if none_ahead(order, &base_plan, &alt_plans) {
        Float64 { bits: ONE }
    } else {
        Float64 { bits: 0 }
    };
    let (plans, chosen_idx): (Vec<MeasuredPlan>, usize) = place_chosen(base_plan, alt_plans);
    proof {
        lemma_placed_comparable(others, base_plan, chosen_idx as nat);
        reveal_strlit("perf_factor");
        reveal_strlit("avg_q_error");
        reveal_strlit("cost_rank_accuracy");
        reveal_strlit("cost_rank_percentage");
        reveal_strlit("optimality");
        assert("perf_factor"@[0] == 'p');
        assert("avg_q_error"@[0] == 'a');
        assert("optimality"@[0] == 'o');
        assert("cost_rank_accuracy"@[10] == 'a');
        assert("cost_rank_percentage"@[10] == 'p');
    }
    let metrics: OptimizerMetrics = optimizer_metrics(order, &plans, chosen_idx, exp);
    let mut result: StringHashMap<Float64> = StringHashMap::new();
    result.insert("perf_factor".to_owned(), metrics.performance_factor);
    result.insert("avg_q_error".to_owned(), metrics.avg_q_error);
    result.insert("cost_rank_accuracy".to_owned(), metrics.taqo_score_s);
    result.insert("cost_rank_percentage".to_owned(), metrics.taqo_accuracy_percent);
    result.insert("optimality".to_owned(), optimality);
    assert(result@.dom() =~= set![
        "perf_factor"@,
        "avg_q_error"@,
        "cost_rank_accuracy"@,
        "cost_rank_percentage"@,
        "optimality"@,
    ]);
    assert(is_chosen_place(ranked(ByMean, others), base_plan, chosen_idx as nat));
    result
}

/// The performance factor of a chosen plan that ran is the number of plans that ran and do not
/// count as faster, divided by the number of plans that ran. A plan counts as faster where its mean
/// is shorter, its runs are not the same, and the intervals do not overlap by the threshold.
pub proof fn lemma_performance_factor_counts(
    order: ByRuntime,
    plans: Seq<MeasuredPlan>,
    chosen: int,
)
    requires
        0 <= chosen < plans.len(),
    ensures
        plans[chosen].runtime is Err ==> performance_factor(order, plans, chosen) == (Float64 {
            bits: 0,
        }),
        plans[chosen].runtime matches Ok(c) ==> performance_factor(order, plans, chosen) == of_nat(
            those(
                |i: int|
                    plans[i].runtime is Ok && !outruns(order, plans[i].runtime->Ok_0, c),
                plans.len(),
            ).len(),
        ).quotient(of_nat(those(|i: int| plans[i].runtime is Ok, plans.len()).len())),
{
    lemma_counts_are_sets(order, plans, chosen, plans.len());
}

/// Whether runtime `a` is shorter than `b` beyond what counts as the same.
pub open spec fn outruns(order: ByRuntime, a: RuntimeStats, b: RuntimeStats) -> bool {
    &&& a.mean@ < b.mean@
    &&& a.measurements@ != b.measurements@
    &&& !intervals_overlap(a.mean@, a.stddev@, b.mean@, b.stddev@, order.threshold)
}

proof fn lemma_counts_are_sets(
    order: ByRuntime,
    plans: Seq<MeasuredPlan>,
    chosen: int,
    n: nat,
)
    requires
        n <= plans.len(),
    ensures
        valid_count(plans, n) == those(|i: int| plans[i].runtime is Ok, n).len(),
        plans[chosen].runtime is Ok ==> no_better_count(order, plans, chosen, n) == those(
            |i: int|
                plans[i].runtime is Ok && !outruns(
                    order,
                    plans[i].runtime->Ok_0,
                    plans[chosen].runtime->Ok_0,
                ),
            n,
        ).len(),
    decreases n,
{
    lemma_those(|i: int| plans[i].runtime is Ok, n);
    lemma_those(
        |i: int|
            plans[i].runtime is Ok && !outruns(
                order,
                plans[i].runtime->Ok_0,
                plans[chosen].runtime->Ok_0,
            ),
        n,
    );
    if n > 0 {
        lemma_counts_are_sets(order, plans, chosen, (n - 1) as nat);
    }
}

/// In as many queries the optimizer chose an optimal plan as there are queries for which it did.
pub proof fn lemma_optimal_count_is_set(results: Seq<BenchmarkOutput>, n: nat)
    requires
        n <= results.len(),
    ensures
        optimal_count(results, n) == those(|i: int| is_optimal(results[i]), n).len(),
    decreases n,
{
    lemma_those(|i: int| is_optimal(results[i]), n);
    if n > 0 {
        lemma_optimal_count_is_set(results, (n - 1) as nat);
    }
}

/// What the encoding of the distance that counts as none stands for: between one part in two
/// million and one part in half a million.
proof fn lemma_nearly()
    ensures
        500_000 * magnitude_value(NEARLY as nat) <= one_unit(),
        one_unit() <= 2_000_000 * magnitude_value(NEARLY as nat),
        magnitude_value(NEARLY as nat) == 2 * magnitude_value((NEARLY - BINADE) as nat),
{
    let m = NEARLY as nat;
    let b = BINADE as nat;
    let f: nat = 0x0_c6f7_a0b5_ed8d;
    assert(m / b == 1003 && m % b == f);
    let h = (NEARLY - BINADE) as nat;
    assert(h / b == 1002 && h % b == f);
    lemma_pow2_adds(72, 1002);
    lemma_pow2_adds(64, 8);
    lemma_pow2_adds(1, 1001);
    lemma2_to64();
    lemma2_to64_rest();
    let p = pow2(1002);
    let q = pow2(1001);
    lemma_pow2_pos(1002);
    assert(500_000 * ((b + f) * p) <= 0x100_0000_0000_0000_0000 * p) by (nonlinear_arith)
        requires
            500_000 * (b + f) <= 0x100_0000_0000_0000_0000nat,
            p > 0,
    ;
    assert(0x100_0000_0000_0000_0000 * p <= 2_000_000 * ((b + f) * p)) by (nonlinear_arith)
        requires
            0x100_0000_0000_0000_0000nat <= 2_000_000 * (b + f),
            p > 0,
    ;
    assert((b + f) * p == 2 * ((b + f) * q)) by (nonlinear_arith)
        requires
            p == 2 * q,
    ;
}

/// A query counts as one with an optimal choice where its factor is within one part in four million
/// of one, and does not where it is further away than one part in half a million.
pub proof fn lemma_optimal_near_one(result: BenchmarkOutput)
    requires
        result.metrics.performance_factor.finite(),
        0 <= result.metrics.performance_factor.value() <= one_unit(),
    ensures
        4_000_000 * (one_unit() - result.metrics.performance_factor.value()) <= one_unit()
            ==> is_optimal(result),
        500_000 * (one_unit() - result.metrics.performance_factor.value()) >= one_unit()
            ==> !is_optimal(result),
{
    let x = result.metrics.performance_factor;
    let one = Float64 { bits: ONE };
    let v = x.value() - one.value();
    lemma_one();
    lemma_nearly();
    lemma_difference_rounded(x, one, ONE as nat);
    let near = Float64 { bits: NEARLY };
    let half = Float64 { bits: (NEARLY - BINADE) as u64 };
    assert(near.negated().value() == -near.value());
    assert(half.negated().value() == -half.value());
    lemma_rounded_encoded(near.negated());
    lemma_rounded_encoded(half.negated());
    lemma_rounded_encoded(Float64 { bits: 0 });
    lemma_sign(Float64 { bits: 0 });
    lemma_rounded_monotone(v, 0);
    let d = x.difference(one);
    assert(abs_nat(d.value()) == magnitude_value(d.magnitude()));
    if 4_000_000 * (one_unit() - x.value()) <= one_unit() {
        lemma_rounded_monotone(-half.value(), v);
    }
    if 500_000 * (one_unit() - x.value()) >= one_unit() {
        lemma_rounded_monotone(v, -near.value());
    }
    lemma_absolute(d);
}

proof fn lemma_absolute(d: Float64)
    requires
        d.finite(),
    ensures
        !d.absolute().nan(),
        d.absolute().value() == magnitude_value(d.magnitude()),
{
}

/// Every plan in front of the chosen one ran, and took at most as long as it, where that ran. The
/// plan behind it failed or took longer.
pub proof fn lemma_chosen_place(others: Seq<MeasuredPlan>, best: MeasuredPlan, i: nat)
    requires
        is_chosen_place(others, best, i),
    ensures
        forall|k: int|
            0 <= k < i ==> {
                &&& (#[trigger] others[k]).runtime is Ok
                &&& best.runtime matches Ok(b) ==> others[k].runtime->Ok_0.mean@ <= b.mean@
            },
        i < others.len() ==> {
            ||| others[i as int].runtime is Err
            ||| best.runtime is Ok && others[i as int].runtime->Ok_0.mean@
                > best.runtime->Ok_0.mean@
        },
{
    assert forall|k: int| 0 <= k < i implies {
        &&& (#[trigger] others[k]).runtime is Ok
        &&& best.runtime matches Ok(b) ==> others[k].runtime->Ok_0.mean@ <= b.mean@
    } by {
        assert(!goes_before(best, others[k]));
    }
}

/// Where all queries are optimal the frequency is one, and where none is it is zero.
pub proof fn lemma_all_or_none_optimal(results: Seq<BenchmarkOutput>)
    requires
        0 < results.len() <= usize::MAX,
    ensures
        (forall|i: int| 0 <= i < results.len() ==> is_optimal(#[trigger] results[i]))
            ==> optimality_frequency(results) == (Float64 { bits: ONE }),
        (forall|i: int| 0 <= i < results.len() ==> !is_optimal(#[trigger] results[i]))
            ==> optimality_frequency(results) == (Float64 { bits: 0 }),
{
    let n = results.len();
    if forall|i: int| 0 <= i < n ==> is_optimal(#[trigger] results[i]) {
        lemma_count_all_or_none(results, true, n);
        lemma_optimality_frequency_range(results);
    }
    if forall|i: int| 0 <= i < n ==> !is_optimal(#[trigger] results[i]) {
        lemma_count_all_or_none(results, false, n);
        lemma_of_nat(n);
        lemma_one();
        assert(0 * one_unit() == 0) by (nonlinear_arith);
        lemma_nearest_zero(1);
        lemma_zero_quotient(of_nat(n));
    }
}

proof fn lemma_count_all_or_none(results: Seq<BenchmarkOutput>, all: bool, n: nat)
    requires
        n <= results.len(),
        forall|i: int| 0 <= i < results.len() ==> is_optimal(#[trigger] results[i]) == all,
    ensures
        optimal_count(results, n) == if all {
            n
        } else {
            0
        },
    decreases n,
{
    if n > 0 {
        lemma_count_all_or_none(results, all, (n - 1) as nat);
    }
}

/// The metrics of a query: the score is that of all plans that ran, the Q-error that of the chosen
/// plan alone, and the performance factor tells how many of the plans that ran are not faster than
/// the chosen one.
pub proof fn lemma_metrics<F: Fn(Float64) -> Float64>(
    order: ByRuntime,
    metrics: OptimizerMetrics,
    others: Seq<MeasuredPlan>,
    best: MeasuredPlan,
    i: int,
    exp: F,
)
    requires
        0 <= i <= others.len(),
        are_metrics(order, metrics, others.insert(i, best), i, exp),
    ensures
        metrics.avg_q_error == avg_q_error(best.cardinalities@, best.plan.est_cards@),
        metrics.taqo_score_s == rank_score(ran(others.insert(i, best))),
        is_accuracy(exp, metrics.taqo_score_s, metrics.taqo_accuracy_percent),
        best.runtime is Err ==> metrics.performance_factor == (Float64 { bits: 0 }),
        best.runtime matches Ok(c) ==> {
            let plans = others.insert(i, best);
            metrics.performance_factor == of_nat(
                those(
                    |k: int| plans[k].runtime is Ok && !outruns(order, plans[k].runtime->Ok_0, c),
                    plans.len(),
                ).len(),
            ).quotient(of_nat(those(|k: int| plans[k].runtime is Ok, plans.len()).len()))
        },
{
    lemma_performance_factor_counts(order, others.insert(i, best), i);
}

} // verus!
