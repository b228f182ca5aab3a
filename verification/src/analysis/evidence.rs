//! What the findings on a node say about its estimates.
use vstd::prelude::*;
use crate::analysis::detect::{card_problem, cost_problem, cost_rank, time_rank};
use crate::analysis::problems::NodeProblem;
use crate::benchmark::accuracy::ran;
use crate::benchmark::measure::give_up;
use crate::benchmark::types::MeasuredPlan;
use crate::common::measure::MeasureError;
use crate::common::plan::{plan_nodes, Plan};
use crate::common::shape::{agrees, lemma_agrees_symmetric, lemma_below_does_not_matter};
use crate::counting::{lemma_those, lemma_those_subset, those};
use crate::float::arith::{of_nat, one_unit};
use crate::float::encoding::{lemma_magnitude_value_monotone, Float64, INFINITE};
use crate::float::known::lemma_known_numbers;
use crate::float::monotone::{
    lemma_nearest_value, lemma_of_nat, lemma_one, lemma_quotient_at_most_one, lemma_sign,
};
use crate::float::order::MAX;

verus! {

/// How many times an estimate is too large, and how many times it is too small.
pub open spec fn times_off(estimate: Float64, actual: nat) -> (Float64, Float64) {
    (estimate.quotient(of_nat(actual)), of_nat(actual).quotient(estimate))
}

/// Whether a problem is that a cardinality is misestimated: it gives the estimate without its
/// fraction, the true cardinality, and the larger of how many times the estimate is too large and
/// too small.
pub open spec fn tells_misestimate(p: NodeProblem, estimate: Float64, actual: usize) -> bool {
    let off = times_off(estimate, actual as nat);
    p matches NodeProblem::CardinalityMisestimation(shown, a, q) && {
        &&& a == actual
        &&& q == off.0 || q == off.1
        &&& off.0.value() <= q.value() && off.1.value() <= q.value()
        &&& estimate.value() < (usize::MAX + 1) * one_unit() ==> shown * one_unit()
            <= estimate.value() < (shown + 1) * one_unit()
        &&& estimate.value() >= (usize::MAX + 1) * one_unit() ==> shown == usize::MAX
    }
}

/// Numbers above zero have a quotient that is a number and not negative.
proof fn lemma_positive_quotient(a: Float64, b: Float64)
    requires
        a.finite(),
        b.finite(),
        a.value() > 0,
        b.value() > 0,
    ensures
        !a.quotient(b).nan(),
        a.quotient(b).value() >= 0,
{
    lemma_sign(a);
    lemma_sign(b);
    lemma_nearest_value(
        crate::float::arith::abs_nat(a.value()) * one_unit(),
        crate::float::arith::abs_nat(b.value()),
    );
}

/// A number that is not finite is beyond ten.
proof fn lemma_finite_or_large(a: Float64)
    requires
        !a.nan(),
        a.value() >= 0,
    ensures
        !a.finite() ==> a.value() > 10 * one_unit(),
        forall|b: Float64| #[trigger] b.finite() && !a.finite() ==> b.value() < a.value(),
{
    lemma_sign(a);
    lemma_known_numbers();
    let ten = Float64 { bits: crate::benchmark::quality::TEN };
    if !a.finite() {
        lemma_magnitude_value_monotone(ten.magnitude(), INFINITE as nat);
        assert forall|b: Float64| #[trigger] b.finite() implies b.value() < a.value() by {
            lemma_magnitude_value_monotone(b.magnitude(), INFINITE as nat);
        }
    }
}

/// A node whose cardinality was measured is listed exactly if its estimate is more than ten times
/// too large or more than ten times too small, as far as that is a finite number. It does not
/// matter in which direction the estimate is off.
pub proof fn lemma_misestimates_listed(plan: MeasuredPlan, i: int, actual: usize)
    requires
        0 <= i < plan.cardinalities@.len(),
        plan.cardinalities@[i] == Ok::<usize, MeasureError>(actual),
        actual > 0,
        plan.plan.est_cards@[i].finite(),
        plan.plan.est_cards@[i].value() > 0,
    ensures
        ({
            let estimate = plan.plan.est_cards@[i];
            let off = times_off(estimate, actual as nat);
            let found = card_problem(plan, i);
            &&& found is Some <==> {
                &&& off.0.finite() && off.1.finite()
                &&& off.0.value() > 10 * one_unit() || off.1.value() > 10 * one_unit()
            }
            &&& off.0.finite() && off.0.value() > 10 * one_unit() ==> found is Some
            &&& off.1.finite() && off.1.value() > 10 * one_unit() ==> found is Some
            &&& found matches Some(p) ==> tells_misestimate(p, estimate, actual)
        }),
{
    let e = plan.plan.est_cards@[i];
    let a = of_nat(actual as nat);
    let off = times_off(e, actual as nat);
    lemma_known_numbers();
    lemma_one();
    lemma_of_nat(actual as nat);
    lemma_sign(e);
    lemma_sign(Float64 { bits: 0 });
    lemma_positive_quotient(e, a);
    lemma_positive_quotient(a, e);
    lemma_finite_or_large(off.0);
    lemma_finite_or_large(off.1);
    if e.value() <= a.value() {
        lemma_quotient_at_most_one(e, a);
    }
    if a.value() <= e.value() {
        lemma_quotient_at_most_one(a, e);
    }
    lemma_shown(e);
}

/// A number without its fraction.
pub proof fn lemma_shown(e: Float64)
    requires
        !e.nan(),
        e.value() > 0,
    ensures
        e.value() < (usize::MAX + 1) * one_unit() ==> e.truncated() * one_unit() <= e.value() < (
        e.truncated() + 1) * one_unit(),
        e.value() >= (usize::MAX + 1) * one_unit() ==> e.truncated() == usize::MAX,
        e.truncated() <= usize::MAX,
{
    let u = one_unit();
    let v = e.value() as nat;
    lemma_one();
    lemma_sign(e);
    vstd::arithmetic::div_mod::lemma_fundamental_div_mod(v as int, u as int);
    let n = v / u;
    let r = v % u;
    assert(n * u <= v < (n + 1) * u) by (nonlinear_arith)
        requires
            v == u * n + r,
            0 <= r < u,
    ;
    if v < (usize::MAX + 1) * u {
        assert(n <= usize::MAX) by (nonlinear_arith)
            requires
                n * u <= v,
                v < (usize::MAX + 1) * u,
                u > 0,
        ;
    } else {
        assert(n >= usize::MAX + 1) by (nonlinear_arith)
            requires
                v < (n + 1) * u,
                v >= (usize::MAX + 1) * u,
                u > 0,
        ;
    }
}

/// An estimate of zero for a subplan with rows, and an estimate above zero for one without, are
/// listed as off by the largest number. An estimate of zero for a subplan without rows is not
/// listed.
pub proof fn lemma_zero_misestimates(plan: MeasuredPlan, i: int, actual: usize)
    requires
        0 <= i < plan.cardinalities@.len(),
        plan.cardinalities@[i] == Ok::<usize, MeasureError>(actual),
        !plan.plan.est_cards@[i].nan(),
    ensures
        actual == 0 && plan.plan.est_cards@[i].value() == 0 ==> card_problem(plan, i) is None,
        (actual == 0) != (plan.plan.est_cards@[i].value() == 0) ==> (card_problem(
            plan,
            i,
        ) matches Some(NodeProblem::CardinalityMisestimation(_, a, q)) && a == actual && q == (
        Float64 { bits: MAX })),
{
    lemma_known_numbers();
    lemma_one();
    lemma_sign(Float64 { bits: 0 });
    let ten = Float64 { bits: crate::benchmark::quality::TEN };
    lemma_magnitude_value_monotone(ten.magnitude(), MAX as nat);
}

/// A node that crashed is listed as such; one that timed out, or was not measured, is not listed.
pub proof fn lemma_failures_listed(plan: MeasuredPlan, i: int)
    requires
        0 <= i,
    ensures
        i < plan.cardinalities@.len() && plan.cardinalities@[i] == Err::<usize, MeasureError>(
            MeasureError::Died,
        ) ==> card_problem(plan, i) == Some(NodeProblem::Crash),
        i < plan.cardinalities@.len() && plan.cardinalities@[i] == Err::<usize, MeasureError>(
            MeasureError::Timeout,
        ) ==> card_problem(plan, i) is None,
        i >= plan.cardinalities@.len() ==> card_problem(plan, i) is None,
        card_problem(plan, i) == Some(NodeProblem::Crash) ==> i < plan.cardinalities@.len()
            && plan.cardinalities@[i] == Err::<usize, MeasureError>(MeasureError::Died),
{
}

/// A node that is estimated as `a` and has `b` rows is listed exactly if one that is estimated as
/// `b` and has `a` rows is.
pub proof fn lemma_either_direction(p: MeasuredPlan, q: MeasuredPlan, i: int, a: usize, b: usize)
    requires
        0 <= i < p.cardinalities@.len(),
        0 <= i < q.cardinalities@.len(),
        0 < a,
        0 < b,
        p.plan.est_cards@[i] == of_nat(a as nat),
        p.cardinalities@[i] == Ok::<usize, MeasureError>(b),
        q.plan.est_cards@[i] == of_nat(b as nat),
        q.cardinalities@[i] == Ok::<usize, MeasureError>(a),
    ensures
        card_problem(p, i) is Some <==> card_problem(q, i) is Some,
{
    lemma_one();
    lemma_of_nat(a as nat);
    lemma_of_nat(b as nat);
    lemma_misestimates_listed(p, i, b);
    lemma_misestimates_listed(q, i, a);
}

/// Whether the subplan at preorder index `n` of plan `j` competes with that of plan `i`: it is
/// another plan that agrees with it down to that node, and the subplan ran.
pub open spec fn rivals(plans: Seq<MeasuredPlan>, i: int, j: int, n: int) -> bool {
    &&& 0 <= j < plans.len()
    &&& j != i
    &&& agrees(plans[i].plan.tree, plans[j].plan.tree, n)
    &&& plans[j].sub_runtimes is Some
    &&& n < plans[j].sub_runtimes->0@.len()
    &&& plans[j].sub_runtimes->0@[n] is Ok
}

/// The estimated cost of the subplan at preorder index `n`.
pub open spec fn cost_at(plan: MeasuredPlan, n: int) -> Float64 {
    plan.plan.est_costs@[n]
}

/// The whole milliseconds that the subplan at preorder index `n` took.
pub open spec fn took(plan: MeasuredPlan, n: int) -> nat {
    plan.sub_runtimes->0@[n]->Ok_0.mean@ / 1_000_000
}

/// The rivals that are expected to cost less.
pub open spec fn cheaper(plans: Seq<MeasuredPlan>, i: int, n: int) -> Set<int> {
    those(
        |j: int|
            rivals(plans, i, j, n) && cost_at(plans[j], n).below(cost_at(plans[i], n)),
        plans.len(),
    )
}

/// The rivals that took fewer milliseconds.
pub open spec fn quicker(plans: Seq<MeasuredPlan>, i: int, n: int) -> Set<int> {
    those(|j: int| rivals(plans, i, j, n) && took(plans[j], n) < took(plans[i], n), plans.len())
}

proof fn lemma_ranks_count(plans: Seq<MeasuredPlan>, i: int, n: int, k: nat)
    requires
        k <= plans.len(),
    ensures
        cost_rank(plans, i, n, k) == those(
            |j: int|
                rivals(plans, i, j, n) && cost_at(plans[j], n).below(cost_at(plans[i], n)),
            k,
        ).len(),
        time_rank(plans, i, n, k) == those(
            |j: int| rivals(plans, i, j, n) && took(plans[j], n) < took(plans[i], n),
            k,
        ).len(),
    decreases k,
{
    lemma_those(
        |j: int| rivals(plans, i, j, n) && cost_at(plans[j], n).below(cost_at(plans[i], n)),
        k,
    );
    lemma_those(|j: int| rivals(plans, i, j, n) && took(plans[j], n) < took(plans[i], n), k);
    if k > 0 {
        lemma_ranks_count(plans, i, n, (k - 1) as nat);
    }
}

/// Whether the subplan at preorder index `n` of a plan ran.
pub open spec fn did_run(plan: MeasuredPlan, n: int) -> bool {
    &&& plan.sub_runtimes is Some
    &&& n < plan.sub_runtimes->0@.len()
    &&& plan.sub_runtimes->0@[n] is Ok
}

/// A node that ran is listed exactly if the number of rivals that are expected to cost less is not
/// the number of rivals that took fewer milliseconds. The finding gives its milliseconds, its cost
/// and both numbers. A node that did not run is not listed.
pub proof fn lemma_cost_problem(plans: Seq<MeasuredPlan>, i: int, n: int)
    requires
        0 <= i < plans.len() <= usize::MAX,
        0 <= n,
    ensures
        cost_problem(plans, i, n) is Some <==> did_run(plans[i], n) && cheaper(plans, i, n).len()
            != quicker(plans, i, n).len(),
        cost_problem(plans, i, n) matches Some(p) ==> {
            &&& p matches NodeProblem::CostMisestimation(millis, cost, by_cost, by_time)
            &&& took(plans[i], n) <= u128::MAX ==> millis == took(plans[i], n)
            &&& cost == cost_at(plans[i], n)
            &&& by_cost == cheaper(plans, i, n).len()
            &&& by_time == quicker(plans, i, n).len()
        },
{
    lemma_ranks_count(plans, i, n, plans.len());
    lemma_those(
        |j: int| rivals(plans, i, j, n) && cost_at(plans[j], n).below(cost_at(plans[i], n)),
        plans.len(),
    );
    lemma_those(
        |j: int| rivals(plans, i, j, n) && took(plans[j], n) < took(plans[i], n),
        plans.len(),
    );
}

proof fn lemma_rivals_shared(plans: Seq<MeasuredPlan>, i: int, j: int, k: int, n: int)
    requires
        0 <= i < plans.len(),
        0 <= k,
        rivals(plans, i, j, n),
        did_run(plans[i], n),
        k != j,
    ensures
        rivals(plans, i, k, n) ==> rivals(plans, j, k, n),
        rivals(plans, j, i, n),
{
    let a = plans[i].plan.tree;
    let b = plans[j].plan.tree;
    lemma_agrees_symmetric(a, b, n);
    lemma_below_does_not_matter(a, b, plans[k].plan.tree, n);
}

/// Of two rivals, the one that is expected to cost less has fewer rivals that are expected to cost
/// less, and the one that took fewer milliseconds fewer rivals that did.
pub proof fn lemma_ranks_ordered(plans: Seq<MeasuredPlan>, i: int, j: int, n: int)
    requires
        0 <= i < plans.len(),
        rivals(plans, i, j, n),
        did_run(plans[i], n),
    ensures
        cost_at(plans[i], n).below(cost_at(plans[j], n)) ==> cheaper(plans, i, n).len() < cheaper(
            plans,
            j,
            n,
        ).len(),
        took(plans[i], n) < took(plans[j], n) ==> quicker(plans, i, n).len() < quicker(
            plans,
            j,
            n,
        ).len(),
{
    lemma_rivals_shared(plans, i, j, i, n);
    if cost_at(plans[i], n).below(cost_at(plans[j], n)) {
        let f = |k: int|
            rivals(plans, i, k, n) && cost_at(plans[k], n).below(cost_at(plans[i], n));
        let g = |k: int|
            rivals(plans, j, k, n) && cost_at(plans[k], n).below(cost_at(plans[j], n));
        assert forall|k: int| 0 <= k < plans.len() && #[trigger] f(k) implies g(k) by {
            lemma_rivals_shared(plans, i, j, k, n);
        }
        assert(g(i) && !f(i));
        lemma_those_subset(f, g, plans.len());
    }
    if took(plans[i], n) < took(plans[j], n) {
        let f = |k: int| rivals(plans, i, k, n) && took(plans[k], n) < took(plans[i], n);
        let g = |k: int| rivals(plans, j, k, n) && took(plans[k], n) < took(plans[j], n);
        assert forall|k: int| 0 <= k < plans.len() && #[trigger] f(k) implies g(k) by {
            lemma_rivals_shared(plans, i, j, k, n);
        }
        assert(g(i) && !f(i));
        lemma_those_subset(f, g, plans.len());
    }
}

/// Where the cheaper of two rivals took longer, one of them is listed: plans that are ranked the
/// wrong way round are noticed, wherever they stand. So where no rival is listed, the cheaper of
/// two with different costs and milliseconds is the quicker one.
pub proof fn lemma_swap_is_noticed(plans: Seq<MeasuredPlan>, i: int, j: int, n: int)
    requires
        0 <= i < plans.len() <= usize::MAX,
        0 <= n,
        rivals(plans, i, j, n),
        did_run(plans[i], n),
        cost_at(plans[i], n).below(cost_at(plans[j], n)),
        took(plans[j], n) < took(plans[i], n),
    ensures
        cost_problem(plans, i, n) is Some || cost_problem(plans, j, n) is Some,
{
    lemma_rivals_shared(plans, i, j, i, n);
    lemma_ranks_ordered(plans, i, j, n);
    lemma_ranks_ordered(plans, j, i, n);
    lemma_cost_problem(plans, i, n);
    lemma_cost_problem(plans, j, n);
}

/// A node for which exactly the cheaper rivals are the quicker ones is not listed.
pub proof fn lemma_right_rank_is_fine(plans: Seq<MeasuredPlan>, i: int, n: int)
    requires
        0 <= i < plans.len() <= usize::MAX,
        0 <= n,
        forall|j: int| #[trigger]
            rivals(plans, i, j, n) ==> (cost_at(plans[j], n).below(cost_at(plans[i], n)) <==> took(
                plans[j],
                n,
            ) < took(plans[i], n)),
    ensures
        cost_problem(plans, i, n) is None,
{
    lemma_cost_problem(plans, i, n);
    assert(cheaper(plans, i, n) =~= quicker(plans, i, n));
}

/// A plan that was given up did not run, and counts as crashed at each of its nodes.
pub proof fn lemma_given_up(plan: Plan, r: MeasuredPlan)
    requires
        call_ensures(give_up, (plan,), r),
    ensures
        r.runtime is Err,
        ran(seq![r]).len() == 0,
        forall|i: int|
            0 <= i < plan_nodes(plan.tree) ==> #[trigger] card_problem(r, i) == Some(
                NodeProblem::Crash,
            ),
{
    let s = seq![r];
    assert(s.drop_last() =~= Seq::<MeasuredPlan>::empty());
    assert(ran(s.drop_last()) =~= Seq::<(nat, Float64)>::empty());
    assert forall|i: int| 0 <= i < plan_nodes(plan.tree) implies #[trigger] card_problem(r, i)
        == Some(NodeProblem::Crash) by {
        assert(r.cardinalities@[i] == Err::<usize, MeasureError>(MeasureError::Died));
    }
}

} // verus!
