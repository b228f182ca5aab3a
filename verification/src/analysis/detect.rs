//! Finding what is wrong with the nodes of plans.
use vstd::prelude::*;
use crate::analysis::problems::{
    add_problem, problems_at, with_problem, NodeProblem, NodeProblems, PlanProblems,
};
use crate::benchmark::quality::{calculate_q_error, q_error, quality, CardQuality};
use crate::benchmark::types::MeasuredPlan;
use crate::common::measure::MeasureError;
use crate::common::plan::{
    forest_nodes, lemma_forest_nodes_step, plan_nodes, PlanNode,
};
use crate::common::shape::{agrees, partial_eq_plans};
use crate::float::encoding::Float64;

verus! {

/// What the cardinality of the node at preorder index `i` shows to be wrong: an estimate that is
/// far off, or a failed query. A node whose cardinality was not measured shows nothing.
pub open spec fn card_problem(plan: MeasuredPlan, i: int) -> Option<NodeProblem> {
    if i >= plan.cardinalities@.len() {
        None
    } else {
        match plan.cardinalities@[i] {
            Ok(card) => {
                let estimate = plan.plan.est_cards@[i];
                let q = q_error(estimate, card as nat);
                if quality(q) == CardQuality::Poor {
                    Some(
                        NodeProblem::CardinalityMisestimation(
                            estimate.truncated() as usize,
                            card,
                            q,
                        ),
                    )
                } else {
                    None
                }
            },
            Err(MeasureError::Died) => Some(NodeProblem::Crash),
            Err(MeasureError::Timeout) => None,
        }
    }
}

/// The table with what the cardinalities of `n` nodes from preorder index `from` on show.
pub open spec fn card_problems(
    m: Map<usize, Seq<NodeProblem>>,
    plan: MeasuredPlan,
    from: nat,
    n: nat,
) -> Map<usize, Seq<NodeProblem>>
    decreases n,
{
    if n == 0 {
        m
    } else {
        let before = card_problems(m, plan, from, (n - 1) as nat);
        match card_problem(plan, from + n - 1) {
            Some(problem) => with_problem(before, (from + n - 1) as usize, problem),
            None => before,
        }
    }
}

#[verifier::rlimit(40)]
proof fn lemma_card_problems_split(
    m: Map<usize, Seq<NodeProblem>>,
    plan: MeasuredPlan,
    from: nat,
    a: nat,
    b: nat,
)
    ensures
        card_problems(m, plan, from, a + b) == card_problems(
            card_problems(m, plan, from, a),
            plan,
            from + a,
            b,
        ),
    decreases b,
{
    let first = card_problems(m, plan, from, a);
    if b > 0 {
        let k = (b - 1) as nat;
        lemma_card_problems_split(m, plan, from, a, k);
        let before = card_problems(m, plan, from, a + k);
        assert(before == card_problems(first, plan, from + a, k));
        let at = (from + a + k) as usize;
        assert((a + b) as nat - 1 == a + k);
        match card_problem(plan, (from + a + k) as int) {
            Some(problem) => {
                let after = with_problem(before, at, problem);
                assert(card_problems(m, plan, from, a + b) == after);
                assert(card_problems(first, plan, from + a, b) == after);
            },
            None => {
                assert(card_problems(m, plan, from, a + b) == before);
                assert(card_problems(first, plan, from + a, b) == before);
            },
        }
    }
}

/// Whether a plan has an estimate for each cardinality that was measured, up to preorder index `n`.
pub open spec fn has_cards(plan: MeasuredPlan, n: nat) -> bool {
    forall|i: int|
        0 <= i < n && i < plan.cardinalities@.len() && (#[trigger] plan.cardinalities@[i]) is Ok
            ==> i < plan.plan.est_cards@.len()
}

/// Adds what the cardinalities of the nodes of `node` show, which stands at preorder index
/// `node_idx` of the plan; leaves the index of its last node there.
pub fn proc_plan(
    node: &PlanNode,
    node_idx: &mut usize,
    plan: &MeasuredPlan,
    problems: &mut NodeProblems,
)
    requires
        has_cards(*plan, *old(node_idx) as nat + plan_nodes(*node)),
        *old(node_idx) + plan_nodes(*node) <= usize::MAX,
    ensures
        *final(node_idx) + 1 == *old(node_idx) + plan_nodes(*node),
        final(problems)@ == card_problems(
            old(problems)@,
            *plan,
            *old(node_idx) as nat,
            plan_nodes(*node),
        ),
    decreases *node,
{
    let ghost m = problems@;
    let ghost at = *node_idx as nat;
    let i: usize = *node_idx;
    if i < plan.cardinalities.len() {
        match &plan.cardinalities[i] {
            Ok(card) => {
                assert(plan.cardinalities@[i as int] is Ok);
                let estimate = plan.plan.est_cards[i];
                let q = calculate_q_error(estimate, *card);
                if CardQuality::from_q_err(q) == CardQuality::Poor {
                    add_problem(
                        problems,
                        &i,
                        NodeProblem::CardinalityMisestimation(estimate.to_usize(), *card, q),
                    );
                }
            },
            Err(MeasureError::Died) => {
                add_problem(problems, &i, NodeProblem::Crash);
            },
            Err(MeasureError::Timeout) => {},
        }
    }
    let ghost s = node.children@;
    assert(s.take(0) =~= Seq::<PlanNode>::empty());
    assert(card_problems(m, *plan, at, 0) == m);
    assert(problems@ == card_problems(m, *plan, at, 1));
    let mut k: usize = 0;
    while k < node.children.len()
        invariant
            k <= node.children.len(),
            s == node.children@,
            has_cards(*plan, at + plan_nodes(*node)),
            at + plan_nodes(*node) <= usize::MAX,
            *node_idx == at + forest_nodes(s.take(k as int)),
            problems@ == card_problems(m, *plan, at, 1 + forest_nodes(s.take(k as int))),
        decreases node.children.len() - k,
    {
        proof {
            lemma_forest_nodes_step(s, k as int);
            assert(decreases_to!(*node => node.children@[k as int]));
            lemma_card_problems_split(
                m,
                *plan,
                at,
                1 + forest_nodes(s.take(k as int)),
                plan_nodes(s[k as int]),
            );
            assert forall|i: int|
                0 <= i < *node_idx + 1 + plan_nodes(s[k as int]) && i < plan.cardinalities@.len()
                    && (#[trigger] plan.cardinalities@[i]) is Ok implies i
                < plan.plan.est_cards@.len() by {}
        }
        *node_idx = *node_idx + 1;
        proc_plan(&node.children[k], node_idx, plan, problems);
        k = k + 1;
    }
    assert(s.take(k as int) =~= s);
}

/// Whether the subplan at preorder index `n` is known to have run.
pub open spec fn ran_at(plan: MeasuredPlan, n: int) -> bool {
    plan.sub_runtimes matches Some(subs) && n < subs@.len() && subs@[n] is Ok
}

/// The mean runtime of the subplan at preorder index `n`, in milliseconds, if it ran.
fn millis_at(plan: &MeasuredPlan, n: usize) -> (r: Option<u128>)
    ensures
        match r {
            Some(millis) => ran_at(*plan, n as int) && millis == sub_millis(*plan, n as int),
            None => !ran_at(*plan, n as int),
        },
{
    match &plan.sub_runtimes {
        Some(subs) => if n < subs.len() {
            match &subs[n] {
                Ok(runtime) => Some(runtime.mean.as_millis()),
                Err(_) => None,
            }
        } else {
            None
        },
        None => None,
    }
}

/// Whether plan `j` competes with plan `i` at preorder index `n`: the plans agree down to that
/// node, which ran.
pub open spec fn competes(plans: Seq<MeasuredPlan>, i: int, j: int, n: int) -> bool {
    &&& i != j
    &&& agrees(plans[i].plan.tree, plans[j].plan.tree, n)
    &&& ran_at(plans[j], n)
}

/// Whether plan `i` and its competitors at preorder index `n` have estimated costs to compare
/// there.
pub open spec fn costs_known(plans: Seq<MeasuredPlan>, i: int, n: int) -> bool {
    ran_at(plans[i], n) ==> forall|j: int|
        0 <= j < plans.len() && #[trigger] competes(plans, i, j, n) ==> {
            &&& n < plans[i].plan.est_costs@.len()
            &&& n < plans[j].plan.est_costs@.len()
        }
}

/// The milliseconds that the subplan at preorder index `n` took.
pub open spec fn sub_millis(plan: MeasuredPlan, n: int) -> nat {
    plan.sub_runtimes->0@[n]->Ok_0.mean@ / 1_000_000
}

/// How many of the first `j` plans compete with plan `i` at `n` and are expected to cost less.
pub open spec fn cost_rank(plans: Seq<MeasuredPlan>, i: int, n: int, j: nat) -> nat
    decreases j,
{
    if j == 0 {
        0
    } else {
        cost_rank(plans, i, n, (j - 1) as nat) + if competes(plans, i, j - 1, n) && plans[j
            - 1].plan.est_costs@[n].below(plans[i].plan.est_costs@[n]) {
            1nat
        } else {
            0nat
        }
    }
}

/// How many of the first `j` plans compete with plan `i` at `n` and took fewer milliseconds.
pub open spec fn time_rank(plans: Seq<MeasuredPlan>, i: int, n: int, j: nat) -> nat
    decreases j,
{
    if j == 0 {
        0
    } else {
        time_rank(plans, i, n, (j - 1) as nat) + if competes(plans, i, j - 1, n) && sub_millis(
            plans[j - 1],
            n,
        ) < sub_millis(plans[i], n) {
            1nat
        } else {
            0nat
        }
    }
}

/// What the runtime of the node at preorder index `n` of plan `i` shows to be wrong: a cost that
/// does not rank it among its competitors as its runtime does.
pub open spec fn cost_problem(plans: Seq<MeasuredPlan>, i: int, n: int) -> Option<NodeProblem> {
    let by_cost = cost_rank(plans, i, n, plans.len());
    let by_time = time_rank(plans, i, n, plans.len());
    if ran_at(plans[i], n) && by_cost != by_time {
        Some(
            NodeProblem::CostMisestimation(
                sub_millis(plans[i], n) as u128,
                plans[i].plan.est_costs@[n],
                by_cost as usize,
                by_time as usize,
            ),
        )
    } else {
        None
    }
}

/// The table with what the runtimes of the first `n` nodes of plan `i` show.
pub open spec fn cost_problems(
    m: Map<usize, Seq<NodeProblem>>,
    plans: Seq<MeasuredPlan>,
    i: int,
    n: nat,
) -> Map<usize, Seq<NodeProblem>>
    decreases n,
{
    if n == 0 {
        m
    } else {
        let before = cost_problems(m, plans, i, (n - 1) as nat);
        match cost_problem(plans, i, n - 1) {
            Some(problem) => with_problem(before, (n - 1) as usize, problem),
            None => before,
        }
    }
}

/// What the runtime of the node at preorder index `n` of plan `i` shows to be wrong.
pub fn find_cost_problem(plans: &Vec<MeasuredPlan>, i: usize, n: usize) -> (r: Option<NodeProblem>)
    requires
        i < plans@.len(),
        n < plan_nodes(plans@[i as int].plan.tree),
        costs_known(plans@, i as int, n as int),
        forall|j: int|
            0 <= j < plans@.len() ==> plan_nodes((#[trigger] plans@[j]).plan.tree) <= usize::MAX,
    ensures
        r == cost_problem(plans@, i as int, n as int),
{
    let ghost s = plans@;
    let millis: u128 = match millis_at(&plans[i], n) {
        Some(millis) => millis,
        None => {
            return None;
        },
    };
    let mut est_rank: usize = 0;
    let mut real_rank: usize = 0;
    let mut j: usize = 0;
    while j < plans.len()
        invariant
            j <= plans.len(),
            s == plans@,
            i < s.len(),
            n < plan_nodes(s[i as int].plan.tree),
            ran_at(s[i as int], n as int),
            costs_known(s, i as int, n as int),
            millis == sub_millis(s[i as int], n as int),
            forall|k: int|
                0 <= k < s.len() ==> plan_nodes((#[trigger] s[k]).plan.tree) <= usize::MAX,
            est_rank > 0 || real_rank > 0 ==> n < s[i as int].plan.est_costs@.len(),
            est_rank <= j,
            real_rank <= j,
            est_rank == cost_rank(s, i as int, n as int, j as nat),
            real_rank == time_rank(s, i as int, n as int, j as nat),
        decreases plans.len() - j,
    {
        assert(plan_nodes(s[j as int].plan.tree) <= usize::MAX);
        assert(plan_nodes(s[i as int].plan.tree) <= usize::MAX);
        if i != j && partial_eq_plans(&plans[i].plan.tree, &plans[j].plan.tree, n) {
            match millis_at(&plans[j], n) {
                Some(other) => {
                    assert(competes(s, i as int, j as int, n as int));
                    if plans[j].plan.est_costs[n].lt(plans[i].plan.est_costs[n]) {
                        est_rank = est_rank + 1;
                    }
                    if other < millis {
                        real_rank = real_rank + 1;
                    }
                },
                None => {},
            }
        }
        j = j + 1;
    }
    if est_rank != real_rank {
        let cost: Float64 = plans[i].plan.est_costs[n];
        Some(NodeProblem::CostMisestimation(millis, cost, est_rank, real_rank))
    } else {
        None
    }
}

/// What is wrong with the nodes of plan `i`.
pub open spec fn found_problems(plans: Seq<MeasuredPlan>, i: int) -> Map<usize, Seq<NodeProblem>> {
    cost_problems(
        card_problems(
            Map::<usize, Seq<NodeProblem>>::empty(),
            plans[i],
            0,
            plan_nodes(plans[i].plan.tree),
        ),
        plans,
        i,
        plan_nodes(plans[i].plan.tree),
    )
}

/// A problem, if there is one.
pub open spec fn listed(problem: Option<NodeProblem>) -> Seq<NodeProblem> {
    match problem {
        Some(p) => seq![p],
        None => Seq::empty(),
    }
}

proof fn lemma_card_problems_at(
    m: Map<usize, Seq<NodeProblem>>,
    plan: MeasuredPlan,
    n: nat,
    x: usize,
)
    requires
        n <= usize::MAX,
    ensures
        problems_at(card_problems(m, plan, 0, n), x as nat) == problems_at(m, x as nat) + if x < n {
            listed(card_problem(plan, x as int))
        } else {
            Seq::empty()
        },
    decreases n,
{
    if n == 0 {
        assert(problems_at(m, x as nat) + Seq::<NodeProblem>::empty() =~= problems_at(
            m,
            x as nat,
        ));
    } else {
        lemma_card_problems_at(m, plan, (n - 1) as nat, x);
        let before = problems_at(card_problems(m, plan, 0, (n - 1) as nat), x as nat);
        let after = problems_at(card_problems(m, plan, 0, n), x as nat);
        if x == n - 1 {
            assert(after =~= before + listed(card_problem(plan, x as int)));
        }
    }
}

proof fn lemma_cost_problems_at(
    m: Map<usize, Seq<NodeProblem>>,
    plans: Seq<MeasuredPlan>,
    i: int,
    n: nat,
    x: usize,
)
    requires
        n <= usize::MAX,
    ensures
        problems_at(cost_problems(m, plans, i, n), x as nat) == problems_at(m, x as nat) + if x
            < n {
            listed(cost_problem(plans, i, x as int))
        } else {
            Seq::empty()
        },
    decreases n,
{
    if n == 0 {
        assert(problems_at(m, x as nat) + Seq::<NodeProblem>::empty() =~= problems_at(
            m,
            x as nat,
        ));
    } else {
        lemma_cost_problems_at(m, plans, i, (n - 1) as nat, x);
        let before = problems_at(cost_problems(m, plans, i, (n - 1) as nat), x as nat);
        let after = problems_at(cost_problems(m, plans, i, n), x as nat);
        if x == n - 1 {
            assert(after =~= before + listed(cost_problem(plans, i, x as int)));
        }
    }
}

/// What is wrong with a node is what its cardinality shows, then what its runtime shows, and
/// nothing else.
pub proof fn lemma_found_at(plans: Seq<MeasuredPlan>, i: int, x: usize)
    requires
        plan_nodes(plans[i].plan.tree) <= usize::MAX,
    ensures
        problems_at(found_problems(plans, i), x as nat) == if x < plan_nodes(plans[i].plan.tree) {
            listed(card_problem(plans[i], x as int)) + listed(cost_problem(plans, i, x as int))
        } else {
            Seq::empty()
        },
{
    let n = plan_nodes(plans[i].plan.tree);
    let none = Map::<usize, Seq<NodeProblem>>::empty();
    let cards = card_problems(none, plans[i], 0, n);
    lemma_card_problems_at(none, plans[i], n, x);
    lemma_cost_problems_at(cards, plans, i, n, x);
    let all = problems_at(found_problems(plans, i), x as nat);
    if x < n {
        assert(all =~= listed(card_problem(plans[i], x as int)) + listed(
            cost_problem(plans, i, x as int),
        ));
    } else {
        assert(all =~= Seq::<NodeProblem>::empty());
    }
}

/// A plan that is alone has no problem with its costs.
pub proof fn lemma_alone_costs(plans: Seq<MeasuredPlan>, n: int)
    requires
        plans.len() == 1,
    ensures
        cost_problem(plans, 0, n) is None,
{
    reveal_with_fuel(cost_rank, 2);
    reveal_with_fuel(time_rank, 2);
}

/// Whether plans have estimates for what was measured, and nodes that can be counted.
pub open spec fn analyzable(plans: Seq<MeasuredPlan>) -> bool {
    forall|i: int|
        0 <= i < plans.len() ==> {
            &&& has_cards(#[trigger] plans[i], plan_nodes(plans[i].plan.tree))
            &&& forall|n: int|
                0 <= n < plan_nodes(plans[i].plan.tree) ==> #[trigger] costs_known(plans, i, n)
            &&& plan_nodes(plans[i].plan.tree) <= usize::MAX
        }
}

/// Finds what is wrong with the nodes of plans.
pub fn find_problems(plans: &Vec<MeasuredPlan>) -> (r: PlanProblems)
    requires
        analyzable(plans@),
    ensures
        forall|i: usize| #[trigger] r@.contains_key(i) <==> i < plans@.len(),
        forall|i: usize|
            i < plans@.len() ==> #[trigger] r@[i] == found_problems(plans@, i as int),
{
    let ghost s = plans@;
    let mut r: PlanProblems = PlanProblems::new();
    let mut i: usize = 0;
    while i < plans.len()
        invariant
            i <= plans.len(),
            s == plans@,
            analyzable(s),
            forall|k: usize| #[trigger] r@.contains_key(k) <==> k < i,
            forall|k: usize|
                k < i ==> #[trigger] r@[k] == card_problems(
                    Map::<usize, Seq<NodeProblem>>::empty(),
                    s[k as int],
                    0,
                    plan_nodes(s[k as int].plan.tree),
                ),
        decreases plans.len() - i,
    {
        let mut problems: NodeProblems = NodeProblems::new();
        let mut idx: usize = 0;
        assert(has_cards(s[i as int], plan_nodes(s[i as int].plan.tree)));
        proc_plan(&plans[i].plan.tree, &mut idx, &plans[i], &mut problems);
        r.insert(i, problems);
        i = i + 1;
    }
    let mut i: usize = 0;
    while i < plans.len()
        invariant
            i <= plans.len(),
            s == plans@,
            analyzable(s),
            forall|k: usize| #[trigger] r@.contains_key(k) <==> k < s.len(),
            forall|k: usize| k < i ==> #[trigger] r@[k] == found_problems(s, k as int),
            forall|k: usize|
                i <= k < s.len() ==> #[trigger] r@[k] == card_problems(
                    Map::<usize, Seq<NodeProblem>>::empty(),
                    s[k as int],
                    0,
                    plan_nodes(s[k as int].plan.tree),
                ),
        decreases plans.len() - i,
    {
        assert(has_cards(s[i as int], plan_nodes(s[i as int].plan.tree)));
        let sz: usize = plans[i].plan.size();
        let ghost start = r@;
        let mut n: usize = 0;
        while n < sz
            invariant
                i < plans.len(),
                n <= sz,
                s == plans@,
                analyzable(s),
                sz == plan_nodes(s[i as int].plan.tree),
                start.contains_key(i),
                r@ == start.insert(i, cost_problems(start[i], s, i as int, n as nat)),
            decreases sz - n,
        {
            assert(costs_known(s, i as int, n as int));
            match find_cost_problem(plans, i, n) {
                Some(problem) => {
                    r.add(&i, &n, problem);
                },
                None => {},
            }
            n = n + 1;
            assert(r@ =~= start.insert(i, cost_problems(start[i], s, i as int, n as nat)));
        }
        i = i + 1;
    }
    r
}

} // verus!
