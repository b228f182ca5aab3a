//! What benchmarking takes and gives.
use vstd::prelude::*;
use crate::benchmark::stats::{RuntimeStats, HALF};
use crate::common::measure::{MeasureError, PlanMeasurements};
use crate::common::plan::{
    annotated_outline, format_plan_with_2preorder_help, plan_nodes, Plan,
};
use crate::duration::{Duration, NANOS_PER_SEC};
use crate::float::encoding::Float64;
use crate::text::{decimal, decimal_text, texts};

verus! {

/// How to benchmark.
#[derive(Clone, Copy, Debug)]
pub struct BenchmarkConfig {
    /// Whether to avoid running all subplans of a plan: only the plan itself is run.
    pub fast: bool,
    /// How long a plan may run.
    pub timeout: Option<Duration>,
    /// Whether to keep the outcomes of plans.
    pub enable_cache: bool,
    /// Number of times to run each benchmark.
    pub num_runs: usize,
    /// Whether to drop the highest and lowest measurements.
    pub drop_outliers: bool,
    /// Standard deviation overlap threshold to consider runtimes equal (0.0-1.0).
    pub overlap_threshold: Float64,
    /// Whether to skip measuring subplans of failing plans.
    pub early_stopping: bool,
    /// Track performance metrics.
    pub track_metrics: bool,
}

impl Default for BenchmarkConfig {
    fn default() -> (r: BenchmarkConfig)
        ensures
            !r.fast,
            r.timeout matches Some(d) && d@ == 5 * NANOS_PER_SEC,
            r.enable_cache,
            r.num_runs == 3,
            !r.drop_outliers,
            r.overlap_threshold == (Float64 { bits: HALF }),
            r.early_stopping,
            r.track_metrics,
    {
        BenchmarkConfig {
            fast: false,
            timeout: Some(Duration::from_secs(5)),
            enable_cache: true,
            num_runs: 3,
            drop_outliers: false,
            overlap_threshold: Float64 { bits: HALF },
            early_stopping: true,
            track_metrics: true,
        }
    }
}

/// How well the optimizer did on a query.
pub struct OptimizerMetrics {
    /// Raw TAQO score (lower is better).
    pub taqo_score_s: Float64,
    /// TAQO accuracy as a percentage (0-100, higher is better).
    pub taqo_accuracy_percent: Float64,
    /// Share of the plans that perform worse than or equal to the plan that the optimizer chose.
    pub performance_factor: Float64,
    /// Average Q-error of the cardinality estimates (closer to 1.0 is better).
    pub avg_q_error: Float64,
}

/// What benchmarking a query gave.
pub struct BenchmarkOutput {
    /// Name of the query.
    pub name: String,
    /// Sorted by runtime (fastest at front).
    pub plans: Vec<MeasuredPlan>,
    /// Index of the chosen plan in `plans`.
    pub chosen_idx: usize,
    /// Global optimizer metrics.
    pub metrics: OptimizerMetrics,
}

/// Plan annotated with runtimes and cardinalities.
pub struct MeasuredPlan {
    /// The plan.
    pub plan: Plan,
    /// Time it took to run the overall plan.
    pub runtime: Result<RuntimeStats, MeasureError>,
    /// Preorder array of each subplan's true cardinality; there are fewer where not all subplans
    /// were run.
    pub cardinalities: Vec<Result<usize, MeasureError>>,
    /// Preorder array of each subplan's runtime, where all subplans were run.
    pub sub_runtimes: Option<Vec<Result<RuntimeStats, MeasureError>>>,
}

/// What stands for the runtime of a subplan that has none.
pub const NO_MILLIS: u128 = 9_999_999;

/// The milliseconds that a subplan took.
pub open spec fn shown_millis(r: Result<RuntimeStats, MeasureError>) -> nat {
    match r {
        Ok(stats) => stats.mean@ / 1_000_000,
        Err(_) => NO_MILLIS as nat,
    }
}

/// The milliseconds that subplans took, in decimal.
pub open spec fn millis_texts(runtimes: Seq<Result<RuntimeStats, MeasureError>>) -> Seq<
    Seq<char>,
> {
    Seq::new(runtimes.len(), |i: int| decimal(shown_millis(runtimes[i])))
}

/// Whether `stats` are those of one run of `d`.
pub open spec fn is_single(stats: RuntimeStats, d: Duration) -> bool {
    &&& stats.measurements@ == seq![d]
    &&& stats.mean == d
    &&& stats.stddev@ == 0
    &&& stats.min == d
    &&& stats.max == d
    &&& stats.cv_percent == (Float64 { bits: 0 })
}

/// Whether `r` is what a subplan's measured time stands for.
pub open spec fn is_lifted(
    r: Result<RuntimeStats, MeasureError>,
    time: Result<Duration, MeasureError>,
) -> bool {
    match time {
        Ok(d) => r matches Ok(stats) && is_single(stats, d),
        Err(e) => r matches Err(f) && e == f,
    }
}

/// The statistics of a measured time.
fn lift(time: &Result<Duration, MeasureError>) -> (r: Result<RuntimeStats, MeasureError>)
    ensures
        is_lifted(r, *time),
{
    match time {
        Ok(d) => Ok(RuntimeStats::from_duration(*d)),
        Err(e) => Err(*e),
    }
}

impl MeasuredPlan {
    /// Annotates a plan with what was measured. The runtime of the first subplan, the plan itself,
    /// is that of the overall plan; without one, it counts as having taken no time.
    pub fn new(plan: Plan, measurements: PlanMeasurements) -> (r: MeasuredPlan)
        ensures
            r.plan == plan,
            r.cardinalities == measurements.cardinalities,
            match measurements.sub_runtimes {
                Some(times) => {
                    &&& r.sub_runtimes matches Some(subs) && subs@.len() == times@.len() && forall|
                        i: int,
                    |
                        0 <= i < subs@.len() ==> is_lifted(#[trigger] subs@[i], times@[i])
                    &&& times@.len() > 0 ==> is_lifted(r.runtime, times@[0])
                    &&& times@.len() == 0 ==> (r.runtime matches Ok(stats) && stats.mean@ == 0
                        && is_single(stats, stats.mean))
                },
                None => {
                    &&& r.sub_runtimes is None
                    &&& r.runtime matches Ok(stats) && stats.mean@ == 0 && is_single(
                        stats,
                        stats.mean,
                    )
                },
            },
    {
        match measurements.sub_runtimes {
            Some(times) => {
                let runtime: Result<RuntimeStats, MeasureError> = if times.len() > 0 {
                    lift(&times[0])
                } else {
                    Ok(RuntimeStats::from_duration(Duration::from_millis(0)))
                };
                let mut subs: Vec<Result<RuntimeStats, MeasureError>> = Vec::new();
                let mut i: usize = 0;
                while i < times.len()
                    invariant
                        i <= times.len(),
                        subs.len() == i,
                        forall|k: int| 0 <= k < i ==> is_lifted(#[trigger] subs@[k], times@[k]),
                    decreases times.len() - i,
                {
                    subs.push(lift(&times[i]));
                    i = i + 1;
                }
                MeasuredPlan {
                    plan,
                    runtime,
                    cardinalities: measurements.cardinalities,
                    sub_runtimes: Some(subs),
                }
            },
            None => MeasuredPlan {
                plan,
                runtime: Ok(RuntimeStats::from_duration(Duration::from_millis(0))),
                cardinalities: measurements.cardinalities,
                sub_runtimes: None,
            },
        }
    }

    /// The plan's outline, with the milliseconds that each subplan took and its estimated cost, as
    /// texts.
    pub fn to_text(&self, costs: &Vec<String>) -> (r: String)
        requires
            plan_nodes(self.plan.tree) <= usize::MAX,
            plan_nodes(self.plan.tree) <= costs@.len(),
            self.sub_runtimes matches Some(subs) && plan_nodes(self.plan.tree) <= subs@.len(),
        ensures
            r@ == annotated_outline(
                self.plan.tree,
                0,
                millis_texts(self.sub_runtimes->0@),
                texts(costs@),
                0,
            ),
    {
        let mut times: Vec<String> = Vec::new();
        let ghost subs = self.sub_runtimes->0@;
        match &self.sub_runtimes {
            Some(runtimes) => {
                let mut i: usize = 0;
                while i < runtimes.len()
                    invariant
                        i <= runtimes.len(),
                        times.len() == i,
                        subs == runtimes@,
                        forall|k: int|
                            0 <= k < i ==> #[trigger] times@[k]@ == decimal(shown_millis(subs[k])),
                    decreases runtimes.len() - i,
                {
                    let millis: u128 = match &runtimes[i] {
                        Ok(stats) => stats.mean.as_millis(),
                        Err(_) => NO_MILLIS,
                    };
                    times.push(decimal_text(millis));
                    i = i + 1;
                }
            },
            None => {},
        }
        let mut out: String = String::new();
        let mut index: usize = 0;
        format_plan_with_2preorder_help(&mut out, &self.plan.tree, 0, &times, costs, &mut index);
        assert(texts(times@) =~= millis_texts(subs));
        assert(out@ =~= annotated_outline(self.plan.tree, 0, texts(times@), texts(costs@), 0));
        out
    }
}

/// The milliseconds that are shown for a subplan are the whole ones of its mean runtime; a subplan
/// that failed shows the same number whatever its failure.
pub proof fn lemma_shown_millis(r: Result<RuntimeStats, MeasureError>)
    ensures
        r matches Ok(stats) ==> shown_millis(r) * 1_000_000 <= stats.mean@ && stats.mean@ < (
        shown_millis(r) + 1) * 1_000_000,
        r is Err ==> shown_millis(r) == 9_999_999,
{
}

/// A plan annotated with measurements ran unless its first subplan failed, and took as long as
/// that; each subplan has the one runtime that was measured, or the failure.
pub proof fn lemma_annotated(plan: Plan, m: PlanMeasurements, r: MeasuredPlan)
    requires
        call_ensures(MeasuredPlan::new, (plan, m), r),
    ensures
        r.plan == plan,
        r.cardinalities@ == m.cardinalities@,
        r.sub_runtimes is Some <==> m.sub_runtimes is Some,
        m.sub_runtimes is None ==> (r.runtime matches Ok(stats) && stats.mean@ == 0),
        m.sub_runtimes matches Some(times) ==> {
            &&& r.runtime is Err <==> times@.len() > 0 && times@.first() is Err
            &&& times@.len() > 0 && times@.first() is Ok ==> r.runtime->Ok_0.mean
                == times@.first()->Ok_0
            &&& r.sub_runtimes->0@.len() == times@.len()
            &&& forall|i: int|
                0 <= i < times@.len() ==> {
                    &&& (#[trigger] times@[i]) is Ok == r.sub_runtimes->0@[i] is Ok
                    &&& times@[i] is Ok ==> r.sub_runtimes->0@[i]->Ok_0.mean == times@[i]->Ok_0
                }
        },
{
    if let Some(times) = m.sub_runtimes {
        assert forall|i: int| 0 <= i < times@.len() implies {
            &&& (#[trigger] times@[i]) is Ok == r.sub_runtimes->0@[i] is Ok
            &&& times@[i] is Ok ==> r.sub_runtimes->0@[i]->Ok_0.mean == times@[i]->Ok_0
        } by {
            assert(is_lifted(r.sub_runtimes->0@[i], times@[i]));
        }
    }
}

} // verus!
