//! Measuring a plan, and its subplans unless that is to go fast.
use vstd::prelude::*;
use crate::benchmark::cache::Outcome;
use crate::benchmark::metrics::PerformanceMetrics;
use crate::benchmark::stats::RuntimeStats;
use crate::benchmark::types::{BenchmarkConfig, MeasuredPlan};
use crate::common::measure::MeasureError;
use crate::common::plan::{forest_nodes, plan_nodes, plan_size, Plan, PlanNode};
use crate::duration::{Duration, LIMIT};
use crate::float::arith::one_unit;
use crate::float::encoding::Float64;
use crate::float::known::lemma_known_numbers;

verus! {

/// The subplans of a plan in preorder, the plan itself first.
pub open spec fn preorder(a: PlanNode) -> Seq<PlanNode>
    decreases a,
{
    seq![a] + forest_preorder(a.children@)
}

/// The subplans of several plans in preorder.
pub open spec fn forest_preorder(s: Seq<PlanNode>) -> Seq<PlanNode>
    decreases s,
{
    if s.len() == 0 {
        Seq::empty()
    } else {
        forest_preorder(s.drop_last()) + preorder(s.last())
    }
}

/// The number of nodes below the root of a plan.
pub open spec fn nodes_below(a: PlanNode) -> nat {
    forest_nodes(a.children@)
}

/// There are as many subplans as nodes.
pub proof fn lemma_preorder_len(a: PlanNode)
    ensures
        preorder(a).len() == plan_nodes(a),
    decreases a,
{
    lemma_forest_preorder_len(a.children@);
}

proof fn lemma_forest_preorder_len(s: Seq<PlanNode>)
    ensures
        forest_preorder(s).len() == forest_nodes(s),
    decreases s,
{
    if s.len() > 0 {
        lemma_forest_preorder_len(s.drop_last());
        lemma_preorder_len(s.last());
    }
}

/// The subplans of the first plan come first.
proof fn lemma_forest_preorder_first(s: Seq<PlanNode>)
    requires
        s.len() > 0,
    ensures
        forest_preorder(s) == preorder(s[0]) + forest_preorder(s.skip(1)),
    decreases s.len(),
{
    if s.len() == 1 {
        assert(s.drop_last() =~= Seq::<PlanNode>::empty());
        assert(s.skip(1) =~= Seq::<PlanNode>::empty());
        assert(forest_preorder(s) =~= preorder(s[0]) + forest_preorder(s.skip(1)));
    } else {
        lemma_forest_preorder_first(s.drop_last());
        assert(s.skip(1).drop_last() =~= s.drop_last().skip(1));
        assert(s.skip(1).last() == s.last());
        assert(forest_preorder(s) =~= preorder(s[0]) + forest_preorder(s.skip(1)));
    }
}

/// The subplans of plans on a stack, from the top down.
pub open spec fn stack_preorder(s: Seq<&PlanNode>) -> Seq<PlanNode>
    decreases s.len(),
{
    if s.len() == 0 {
        Seq::empty()
    } else {
        preorder(*s.last()) + stack_preorder(s.drop_last())
    }
}

/// Measurements of the subplans of a plan, in preorder, on their way.
pub struct SubplanWalk<'a> {
    /// Subplans that are still to be measured with what lies below them; the next is last.
    pub pending: Vec<&'a PlanNode>,
    /// Cardinalities of the subplans so far.
    pub cards: Vec<Result<usize, MeasureError>>,
    /// Runtimes of the subplans so far.
    pub times: Vec<Result<RuntimeStats, MeasureError>>,
}

/// Milliseconds that a subplan which is not run counts as saving.
pub const SKIPPED_MILLIS: u64 = 100;

impl<'a> SubplanWalk<'a> {
    /// Whether this measures `root`. It does so fast where only `root` itself is run: either it is
    /// pending, or it has been measured. Otherwise the subplans are measured in preorder: there is
    /// a cardinality and a runtime for each of the first ones, and the others are pending in their
    /// order.
    pub open spec fn measures(self, root: PlanNode, fast: bool) -> bool {
        &&& self.cards@.len() == self.times@.len()
        &&& self.cards@.len() <= plan_nodes(root)
        &&& if fast {
            if self.cards@.len() == 0 {
                self.pending@ == seq![&root]
            } else {
                &&& self.pending@.len() == 0
                &&& self.cards@.len() == 1 || self.cards@.len() == plan_nodes(root)
            }
        } else {
            stack_preorder(self.pending@) == preorder(root).skip(self.cards@.len() as int)
        }
    }

    /// Whether all that is to be run has been.
    pub open spec fn done(self) -> bool {
        self.pending@.len() == 0
    }

    /// A walk through the subplans of `root`, before the first.
    pub fn new(root: &'a PlanNode) -> (r: SubplanWalk<'a>)
        ensures
            forall|fast: bool| #[trigger] r.measures(*root, fast),
            r.pending@ == seq![root],
            r.cards@.len() == 0,
            r.times@.len() == 0,
    {
        let mut pending: Vec<&'a PlanNode> = Vec::new();
        pending.push(root);
        proof {
            assert(pending@ =~= seq![root]);
            assert(pending@.drop_last() =~= Seq::<&PlanNode>::empty());
            assert(stack_preorder(pending@.drop_last()) =~= Seq::<PlanNode>::empty());
            assert(stack_preorder(pending@) =~= preorder(*root));
            assert(preorder(*root).skip(0) =~= preorder(*root));
        }
        SubplanWalk { pending, cards: Vec::new(), times: Vec::new() }
    }

    /// The subplan to run next.
    pub fn next(&self) -> (r: Option<&'a PlanNode>)
        ensures
            match r {
                Some(node) => !self.done() && node == self.pending@.last(),
                None => self.done(),
            },
    {
        if self.pending.len() == 0 {
            None
        } else {
            Some(self.pending[self.pending.len() - 1])
        }
    }

    /// Enters what running the next subplan gave. The inputs of the subplan come next, unless
    /// measuring is to go fast, or the subplan failed and measuring stops early: then all subplans
    /// below it fail in the same way without being run, which is counted where metrics are wanted.
    pub fn record(
        &mut self,
        outcome: Outcome,
        cfg: &BenchmarkConfig,
        metrics: &mut PerformanceMetrics,
    )
        requires
            !old(self).done(),
            plan_nodes(*old(self).pending@.last()) <= usize::MAX,
            outcome is Err && cfg.early_stopping && cfg.track_metrics ==> {
                &&& old(metrics).early_stops < usize::MAX
                &&& SKIPPED_MILLIS * nodes_below(*old(self).pending@.last()) <= u64::MAX
                &&& old(metrics).early_stopping_time_saved@ + 1_000_000 * (SKIPPED_MILLIS
                    * nodes_below(*old(self).pending@.last())) < LIMIT
            },
        ensures
            match outcome {
                Ok((card, stats)) => {
                    &&& final(self).cards@ == old(self).cards@.push(Ok(card))
                    &&& final(self).times@ == old(self).times@.push(Ok(stats))
                },
                Err(e) => {
                    let n = if cfg.early_stopping {
                        plan_nodes(*old(self).pending@.last())
                    } else {
                        1
                    };
                    &&& final(self).cards@ == old(self).cards@ + Seq::new(
                        n,
                        |i: int| Err::<usize, MeasureError>(e),
                    )
                    &&& final(self).times@ == old(self).times@ + Seq::new(
                        n,
                        |i: int| Err::<RuntimeStats, MeasureError>(e),
                    )
                },
            },
            cfg.fast || (outcome is Err && cfg.early_stopping) ==> final(self).pending@
                == old(self).pending@.drop_last(),
            !cfg.fast && !(outcome is Err && cfg.early_stopping) ==> {
                let inputs = old(self).pending@.last().children@;
                final(self).pending@ == old(self).pending@.drop_last() + Seq::new(
                    inputs.len(),
                    |i: int| &inputs[inputs.len() - 1 - i],
                )
            },
            outcome is Err && cfg.early_stopping && cfg.track_metrics ==> {
                let skipped = nodes_below(*old(self).pending@.last());
                &&& final(metrics).early_stops == old(metrics).early_stops + 1
                &&& final(metrics).early_stopping_time_saved@ == old(
                    metrics,
                ).early_stopping_time_saved@ + 1_000_000 * (SKIPPED_MILLIS * skipped)
                &&& *final(metrics) == (PerformanceMetrics {
                    early_stops: final(metrics).early_stops,
                    early_stopping_time_saved: final(metrics).early_stopping_time_saved,
                    ..*old(metrics)
                })
            },
            !(outcome is Err && cfg.early_stopping && cfg.track_metrics) ==> *final(metrics)
                == *old(metrics),
            forall|root: PlanNode|
                #[trigger] old(self).measures(root, cfg.fast) ==> final(self).measures(
                    root,
                    cfg.fast,
                ),
    {
        let ghost before = *self;
        let node: &'a PlanNode = self.pending[self.pending.len() - 1];
        let _ = self.pending.pop();
        let ghost rest = self.pending@;
        let ghost s = node.children@;
        let stop: bool = match outcome {
            Ok((card, stats)) => {
                self.cards.push(Ok(card));
                self.times.push(Ok(stats));
                false
            },
            Err(e) => {
                self.cards.push(Err(e));
                self.times.push(Err(e));
                if cfg.early_stopping {
                    self.skip(node, e, cfg, metrics);
                }
                assert(self.cards@ =~= before.cards@ + Seq::new(
                    if cfg.early_stopping {
                        plan_nodes(*node)
                    } else {
                        1
                    },
                    |i: int| Err::<usize, MeasureError>(e),
                ));
                assert(self.times@ =~= before.times@ + Seq::new(
                    if cfg.early_stopping {
                        plan_nodes(*node)
                    } else {
                        1
                    },
                    |i: int| Err::<RuntimeStats, MeasureError>(e),
                ));
                cfg.early_stopping
            },
        };
        if !stop && !cfg.fast {
            let mut i: usize = node.children.len();
            assert(self.pending@ =~= rest + Seq::new(0, |k: int| &s[s.len() - 1 - k]));
            assert(s.skip(s.len() as int) =~= Seq::<PlanNode>::empty());
            assert(stack_preorder(self.pending@) =~= forest_preorder(s.skip(i as int))
                + stack_preorder(rest));
            let ghost cards = self.cards@;
            let ghost times = self.times@;
            while i > 0
                invariant
                    i <= node.children.len(),
                    s == node.children@,
                    self.cards@ == cards,
                    self.times@ == times,
                    self.pending@ == rest + Seq::new(
                        (s.len() - i) as nat,
                        |k: int| &s[s.len() - 1 - k],
                    ),
                    stack_preorder(self.pending@) == forest_preorder(s.skip(i as int))
                        + stack_preorder(rest),
                decreases i,
            {
                let ghost stack = self.pending@;
                i = i - 1;
                self.pending.push(&node.children[i]);
                proof {
                    assert(self.pending@ =~= rest + Seq::new(
                        (s.len() - i) as nat,
                        |k: int| &s[s.len() - 1 - k],
                    ));
                    assert(self.pending@.drop_last() =~= stack);
                    lemma_forest_preorder_first(s.skip(i as int));
                    assert(s.skip(i as int).skip(1) =~= s.skip(i + 1));
                    assert(stack_preorder(self.pending@) =~= forest_preorder(s.skip(i as int))
                        + stack_preorder(rest));
                }
            }
            assert(s.skip(0) =~= s);
        }
        proof {
            assert forall|root: PlanNode| #[trigger]
                before.measures(root, cfg.fast) && !cfg.fast implies self.measures(root, false) by {
                lemma_preorder_len(root);
                lemma_preorder_len(*node);
                let all = preorder(root).skip(before.cards@.len() as int);
                assert(all == preorder(*node) + stack_preorder(rest));
                assert(all.len() == plan_nodes(root) - before.cards@.len());
                if stop {
                    assert(preorder(root).skip(self.cards@.len() as int) =~= all.skip(
                        plan_nodes(*node) as int,
                    ));
                    assert(all.skip(plan_nodes(*node) as int) =~= stack_preorder(rest));
                } else {
                    assert(preorder(root).skip(self.cards@.len() as int) =~= all.skip(1));
                    assert(all.skip(1) =~= forest_preorder(s) + stack_preorder(rest));
                }
            }
        }
    }

    /// Fills in the error of a failed subplan for all subplans below it.
    fn skip(
        &mut self,
        node: &PlanNode,
        e: MeasureError,
        cfg: &BenchmarkConfig,
        metrics: &mut PerformanceMetrics,
    )
        requires
            plan_nodes(*node) <= usize::MAX,
            cfg.track_metrics ==> {
                &&& old(metrics).early_stops < usize::MAX
                &&& SKIPPED_MILLIS * nodes_below(*node) <= u64::MAX
                &&& old(metrics).early_stopping_time_saved@ + 1_000_000 * (SKIPPED_MILLIS
                    * nodes_below(*node)) < LIMIT
            },
        ensures
            final(self).pending@ == old(self).pending@,
            final(self).cards@ == old(self).cards@ + Seq::new(
                nodes_below(*node),
                |i: int| Err::<usize, MeasureError>(e),
            ),
            final(self).times@ == old(self).times@ + Seq::new(
                nodes_below(*node),
                |i: int| Err::<RuntimeStats, MeasureError>(e),
            ),
            cfg.track_metrics ==> {
                let skipped = nodes_below(*node);
                &&& final(metrics).early_stops == old(metrics).early_stops + 1
                &&& final(metrics).early_stopping_time_saved@ == old(
                    metrics,
                ).early_stopping_time_saved@ + 1_000_000 * (SKIPPED_MILLIS * skipped)
                &&& *final(metrics) == (PerformanceMetrics {
                    early_stops: final(metrics).early_stops,
                    early_stopping_time_saved: final(metrics).early_stopping_time_saved,
                    ..*old(metrics)
                })
            },
            !cfg.track_metrics ==> *final(metrics) == *old(metrics),
    {
        let ghost cards = self.cards@;
        let ghost times = self.times@;
        let skipped: usize = plan_size(node) - 1;
        let mut i: usize = 0;
        while i < skipped
            invariant
                i <= skipped,
                self.pending@ == old(self).pending@,
                self.cards@ == cards + Seq::new(i as nat, |k: int| Err::<usize, MeasureError>(e)),
                self.times@ == times + Seq::new(
                    i as nat,
                    |k: int| Err::<RuntimeStats, MeasureError>(e),
                ),
            decreases skipped - i,
        {
            self.cards.push(Err(e));
            self.times.push(Err(e));
            i = i + 1;
            assert(self.cards@ =~= cards + Seq::new(
                i as nat,
                |k: int| Err::<usize, MeasureError>(e),
            ));
            assert(self.times@ =~= times + Seq::new(
                i as nat,
                |k: int| Err::<RuntimeStats, MeasureError>(e),
            ));
        }
        if cfg.track_metrics {
            metrics.early_stops = metrics.early_stops + 1;
            metrics.early_stopping_time_saved = metrics.early_stopping_time_saved.plus(
                Duration::from_millis(SKIPPED_MILLIS * skipped as u64),
            );
        }
    }
}

/// The subplan that runs next is the one at the preorder index to which its measurements go.
pub proof fn lemma_next_in_preorder(walk: SubplanWalk<'_>, root: PlanNode, fast: bool)
    requires
        walk.measures(root, fast),
        !walk.done(),
    ensures
        walk.cards@.len() < plan_nodes(root),
        *walk.pending@.last() == preorder(root)[walk.cards@.len() as int],
{
    lemma_preorder_len(root);
    if !fast {
        let rest = preorder(root).skip(walk.cards@.len() as int);
        assert(stack_preorder(walk.pending@).len() >= 1);
        assert(stack_preorder(walk.pending@)[0] == *walk.pending@.last());
        assert(rest[0] == preorder(root)[walk.cards@.len() as int]);
    }
}

/// Measuring that goes fast runs nothing but the plan itself: what runs next is the plan, before
/// anything was measured, and then nothing is pending.
pub proof fn lemma_fast_runs_once(walk: SubplanWalk<'_>, root: PlanNode)
    requires
        walk.measures(root, true),
    ensures
        walk.done() == (walk.cards@.len() > 0),
        !walk.done() ==> walk.pending@ == seq![&root],
        walk.done() ==> walk.times@.len() > 0,
{
}

/// When nothing is pending and measuring did not go fast, there is exactly one cardinality and one
/// runtime for each subplan.
pub proof fn lemma_complete(walk: SubplanWalk<'_>, root: PlanNode)
    requires
        walk.measures(root, false),
        walk.done(),
    ensures
        walk.cards@.len() == plan_nodes(root),
        walk.times@.len() == plan_nodes(root),
{
    lemma_preorder_len(root);
    assert(stack_preorder(walk.pending@).len() == 0);
    assert(preorder(root).skip(walk.cards@.len() as int).len() == plan_nodes(root)
        - walk.cards@.len());
}

/// Encoding of the estimated cost, 25 million, above which a plan is not run.
pub const COST_LIMIT: u64 = 0x4177_d784_0000_0000;

/// Whether a plan is expected to cost too much to be run.
pub fn is_too_costly(plan: &Plan) -> (r: bool)
    requires
        plan.est_costs@.len() > 0,
    ensures
        r == (Float64 { bits: COST_LIMIT }).below(plan.est_costs@[0]),
        r <==> !plan.est_costs@[0].nan() && plan.est_costs@[0].value() > 25_000_000 * one_unit(),
{
    proof {
        lemma_known_numbers();
    }
    (Float64 { bits: COST_LIMIT }).lt(plan.est_costs[0])
}

/// A plan that is not run: it and all of its subplans count as failed.
pub fn give_up(plan: Plan) -> (r: MeasuredPlan)
    requires
        plan_nodes(plan.tree) <= usize::MAX,
    ensures
        r.plan == plan,
        r.runtime matches Err(e) && e == MeasureError::Died,
        r.cardinalities@ == Seq::new(
            plan_nodes(plan.tree),
            |i: int| Err::<usize, MeasureError>(MeasureError::Died),
        ),
        r.sub_runtimes matches Some(subs) && subs@ == Seq::new(
            plan_nodes(plan.tree),
            |i: int| Err::<RuntimeStats, MeasureError>(MeasureError::Died),
        ),
{
    let sz: usize = plan.size();
    let mut cards: Vec<Result<usize, MeasureError>> = Vec::new();
    let mut times: Vec<Result<RuntimeStats, MeasureError>> = Vec::new();
    let mut i: usize = 0;
    while i < sz
        invariant
            i <= sz,
            cards@ =~= Seq::new(i as nat, |k: int| Err::<usize, MeasureError>(MeasureError::Died)),
            times@ =~= Seq::new(
                i as nat,
                |k: int| Err::<RuntimeStats, MeasureError>(MeasureError::Died),
            ),
        decreases sz - i,
    {
        cards.push(Err(MeasureError::Died));
        times.push(Err(MeasureError::Died));
        i = i + 1;
    }
    MeasuredPlan {
        plan,
        runtime: Err(MeasureError::Died),
        cardinalities: cards,
        sub_runtimes: Some(times),
    }
}

/// A plan with its measurements; the first runtime is that of the plan. Where measuring goes fast,
/// those of subplans are not known.
pub fn measure_plan(
    plan: Plan,
    cfg: &BenchmarkConfig,
    cardinalities: Vec<Result<usize, MeasureError>>,
    runtimes: Vec<Result<RuntimeStats, MeasureError>>,
) -> (r: MeasuredPlan)
    requires
        runtimes@.len() > 0,
    ensures
        r.plan == plan,
        r.cardinalities == cardinalities,
        r.sub_runtimes == if cfg.fast {
            None
        } else {
            Some(runtimes)
        },
        match runtimes@[0] {
            Ok(stats) => r.runtime matches Ok(s) && s@ == stats@,
            Err(e) => r.runtime matches Err(f) && f == e,
        },
{
    let runtime: Result<RuntimeStats, MeasureError> = match &runtimes[0] {
        Ok(stats) => Ok(stats.clone()),
        Err(e) => Err(*e),
    };
    let sub_runtimes: Option<Vec<Result<RuntimeStats, MeasureError>>> = if cfg.fast {
        None
    } else {
        Some(runtimes)
    };
    MeasuredPlan { plan, runtime, cardinalities, sub_runtimes }
}

/// The subplans of a plan are the plan itself, then those of its inputs, one after the other.
pub proof fn lemma_preorder(a: PlanNode)
    ensures
        preorder(a) == seq![a] + Seq::new(
            a.children@.len(),
            |k: int| preorder(a.children@[k]),
        ).flatten(),
{
    lemma_forest_preorder(a.children@);
}

proof fn lemma_forest_preorder(s: Seq<PlanNode>)
    ensures
        forest_preorder(s) == Seq::new(s.len(), |k: int| preorder(s[k])).flatten(),
    decreases s.len(),
{
    let all = Seq::new(s.len(), |k: int| preorder(s[k]));
    all.lemma_flatten_and_flatten_alt_are_equivalent();
    if s.len() > 0 {
        let rest = s.drop_last();
        lemma_forest_preorder(rest);
        let before = Seq::new(rest.len(), |k: int| preorder(rest[k]));
        before.lemma_flatten_and_flatten_alt_are_equivalent();
        assert(all.drop_last() =~= before);
        assert(all.last() == preorder(s.last()));
    }
}

/// A measured plan ran exactly if its root did, and took as long as that. The runtimes of its
/// subplans are known exactly if measuring did not go fast.
pub proof fn lemma_measured(
    plan: Plan,
    cfg: BenchmarkConfig,
    cardinalities: Vec<Result<usize, MeasureError>>,
    runtimes: Vec<Result<RuntimeStats, MeasureError>>,
    r: MeasuredPlan,
)
    requires
        runtimes@.len() > 0,
        call_ensures(measure_plan, (plan, &cfg, cardinalities, runtimes), r),
    ensures
        r.runtime is Ok <==> runtimes@.first() is Ok,
        r.runtime matches Ok(stats) ==> stats@ == runtimes@.first()->Ok_0@,
        r.sub_runtimes is None <==> cfg.fast,
        r.sub_runtimes matches Some(subs) ==> subs@ == runtimes@,
        r.cardinalities@ == cardinalities@,
{
}

} // verus!
