//! Timing a plan, or using what an identical plan gave.
use vstd::prelude::*;
use vstd::string::*;
use crate::benchmark::cache::{
    copy_outcome, hash_plan, is_plan_cacheable, labels, lemma_plan_writes, lemma_read_after_write,
    lemma_same_hash, outcome_model, plan_hash, Outcome, PlanCache, MAX_CACHED_NODES,
};
use crate::benchmark::metrics::PerformanceMetrics;
use crate::benchmark::stats::HUNDRED;
use crate::benchmark::types::BenchmarkConfig;
use crate::common::plan::{plan_nodes, PlanNode};
use crate::duration::{Duration, LIMIT};
use crate::float::arith::of_nat;
use crate::float::encoding::Float64;
use crate::text::{decimal, push_decimal};

verus! {

/// How the outcome of a plan is come by.
pub enum Timing {
    /// It is what an identical plan gave.
    Reuse(Outcome),
    /// The plan has to run; where there is a hash, the outcome is kept under it.
    Run(Option<u64>),
}

/// Whether the outcome of a plan is looked up and kept.
pub open spec fn uses_cache(plan: PlanNode, cfg: BenchmarkConfig) -> bool {
    cfg.enable_cache && plan_nodes(plan) <= MAX_CACHED_NODES
}

/// Decides how the outcome of a plan is come by.
pub fn plan_timing(plan: &PlanNode, cfg: &BenchmarkConfig, cache: &mut PlanCache) -> (r: Timing)
    requires
        plan_nodes(*plan) <= usize::MAX,
        uses_cache(*plan, *cfg) ==> old(cache).lookups() < usize::MAX,
    ensures
        final(cache).cache == old(cache).cache,
        !uses_cache(*plan, *cfg) ==> {
            &&& r == Timing::Run(None)
            &&& *final(cache) == *old(cache)
        },
        uses_cache(*plan, *cfg) && old(cache).cache@.contains_key(plan_hash(*plan)) ==> {
            &&& r matches Timing::Reuse(outcome) && outcome_model(outcome) == outcome_model(
                old(cache).cache@[plan_hash(*plan)],
            )
            &&& final(cache).hits == old(cache).hits + 1
            &&& final(cache).misses == old(cache).misses
        },
        uses_cache(*plan, *cfg) && !old(cache).cache@.contains_key(plan_hash(*plan)) ==> {
            &&& r == Timing::Run(Some(plan_hash(*plan)))
            &&& final(cache).hits == old(cache).hits
            &&& final(cache).misses == old(cache).misses + 1
        },
{
    if !cfg.enable_cache || !is_plan_cacheable(plan) {
        return Timing::Run(None);
    }
    let hash: u64 = hash_plan(plan);
    match cache.get(hash) {
        Some(outcome) => Timing::Reuse(copy_outcome(outcome)),
        None => Timing::Run(Some(hash)),
    }
}

/// The time that reusing an outcome saves: the mean runtime, or a millisecond for an error.
pub open spec fn saved_nanos(outcome: Outcome) -> nat {
    match outcome {
        Ok((_, stats)) => stats.mean@,
        Err(_) => 1_000_000,
    }
}

/// Accounts for an outcome that was reused, after `elapsed`.
pub fn note_reuse(
    outcome: &Outcome,
    elapsed: Duration,
    cfg: &BenchmarkConfig,
    metrics: &mut PerformanceMetrics,
)
    requires
        cfg.track_metrics ==> {
            &&& old(metrics).total_time@ + elapsed@ < LIMIT
            &&& old(metrics).cache_hits < usize::MAX
            &&& old(metrics).cache_time_saved@ + saved_nanos(*outcome) < LIMIT
        },
    ensures
        !cfg.track_metrics ==> *final(metrics) == *old(metrics),
        cfg.track_metrics ==> {
            &&& final(metrics).total_time@ == old(metrics).total_time@ + elapsed@
            &&& final(metrics).cache_hits == old(metrics).cache_hits + 1
            &&& final(metrics).cache_time_saved@ == old(metrics).cache_time_saved@ + saved_nanos(
                *outcome,
            )
            &&& *final(metrics) == (PerformanceMetrics {
                total_time: final(metrics).total_time,
                cache_hits: final(metrics).cache_hits,
                cache_time_saved: final(metrics).cache_time_saved,
                ..*old(metrics)
            })
        },
{
    if cfg.track_metrics {
        let saved: Duration = match outcome {
            Ok(pair) => pair.1.mean,
            Err(_) => Duration::from_millis(1),
        };
        metrics.total_time = metrics.total_time.plus(elapsed);
        metrics.cache_hits = metrics.cache_hits + 1;
        metrics.cache_time_saved = metrics.cache_time_saved.plus(saved);
    }
}

/// Accounts for an outcome of a plan that has run, after `elapsed`, and keeps it where there is a
/// hash.
pub fn note_run(
    keep_as: Option<u64>,
    outcome: &Outcome,
    elapsed: Duration,
    cfg: &BenchmarkConfig,
    cache: &mut PlanCache,
    metrics: &mut PerformanceMetrics,
)
    requires
        cfg.track_metrics ==> {
            &&& old(metrics).total_time@ + elapsed@ < LIMIT
            &&& old(metrics).plans_measured < usize::MAX
            &&& old(metrics).cache_misses < usize::MAX
        },
    ensures
        final(cache).hits == old(cache).hits,
        final(cache).misses == old(cache).misses,
        keep_as is None ==> *final(cache) == *old(cache),
        keep_as matches Some(hash) ==> {
            &&& final(cache).cache@.contains_key(hash)
            &&& outcome_model(final(cache).cache@[hash]) == outcome_model(*outcome)
            &&& final(cache).cache@ == old(cache).cache@.insert(hash, final(cache).cache@[hash])
        },
        !cfg.track_metrics ==> *final(metrics) == *old(metrics),
        cfg.track_metrics ==> {
            &&& final(metrics).total_time@ == old(metrics).total_time@ + elapsed@
            &&& final(metrics).plans_measured == old(metrics).plans_measured + 1
            &&& final(metrics).cache_misses == old(metrics).cache_misses + 1
            &&& *final(metrics) == (PerformanceMetrics {
                total_time: final(metrics).total_time,
                plans_measured: final(metrics).plans_measured,
                cache_misses: final(metrics).cache_misses,
                ..*old(metrics)
            })
        },
{
    match keep_as {
        Some(hash) => {
            cache.insert(hash, copy_outcome(outcome));
        },
        None => {},
    }
    if cfg.track_metrics {
        metrics.total_time = metrics.total_time.plus(elapsed);
        metrics.plans_measured = metrics.plans_measured + 1;
        metrics.cache_misses = metrics.cache_misses + 1;
    }
}

/// Lookups between two lines on the cache.
pub const LOG_EVERY: usize = 100;

/// A line on the cache.
pub open spec fn cache_line(cache: PlanCache) -> Seq<char> {
    "Plan cache: "@ + decimal(cache.hits as nat) + " hits, "@ + decimal(cache.misses as nat)
        + " misses, "@ + cache.hit_rate().product(Float64 { bits: HUNDRED }).fixed(2)
        + "% hit rate"@
}

/// A line on the cache, each time that a round number of lookups is reached.
pub fn cache_log(cache: &PlanCache) -> (r: Option<String>)
    requires
        cache.lookups() <= usize::MAX,
    ensures
        match r {
            Some(line) => {
                &&& cache.lookups() % LOG_EVERY as nat == 0
                &&& cache.lookups() > 0
                &&& line@ == cache_line(*cache)
            },
            None => cache.lookups() % LOG_EVERY as nat != 0 || cache.lookups() == 0,
        },
{
    let (hits, misses, rate): (usize, usize, Float64) = cache.stats();
    if (hits + misses) % LOG_EVERY == 0 && hits + misses > 0 {
        let mut out: String = "Plan cache: ".to_owned();
        push_decimal(&mut out, hits as u128);
        out.append(" hits, ");
        push_decimal(&mut out, misses as u128);
        out.append(" misses, ");
        rate.times(Float64 { bits: HUNDRED }).push_fixed(&mut out, 2);
        out.append("% hit rate");
        Some(out)
    } else {
        None
    }
}

/// After a plan has run and its outcome was kept, a plan with the same names and schemas in
/// preorder is given that outcome without running, and no other outcome has changed.
pub proof fn lemma_kept_outcome_reused(
    first: PlanNode,
    second: PlanNode,
    before: PlanCache,
    after: PlanCache,
    outcome: Outcome,
)
    requires
        labels(first) == labels(second),
        outcome_model(after.cache@[plan_hash(first)]) == outcome_model(outcome),
        after.cache@ == before.cache@.insert(
            plan_hash(first),
            after.cache@[plan_hash(first)],
        ),
    ensures
        after.cache@.contains_key(plan_hash(second)),
        outcome_model(after.cache@[plan_hash(second)]) == outcome_model(outcome),
        forall|other: PlanNode|
            plan_hash(other) != plan_hash(first) ==> {
                &&& after.cache@.contains_key(#[trigger] plan_hash(other))
                    == before.cache@.contains_key(plan_hash(other))
                &&& after.cache@.contains_key(plan_hash(other)) ==> after.cache@[plan_hash(other)]
                    == before.cache@[plan_hash(other)]
            },
{
    lemma_same_hash(first, second);
    lemma_read_after_write(before, after, plan_hash(first), after.cache@[plan_hash(first)]);
}

/// The outcome of a plan is looked up and kept exactly if that is wanted and the plan has at most
/// ten nodes.
pub proof fn lemma_uses_cache(plan: PlanNode, cfg: BenchmarkConfig)
    ensures
        uses_cache(plan, cfg) <==> cfg.enable_cache && labels(plan).len() <= 10,
{
    lemma_plan_writes(plan);
}

/// Reusing an outcome saves what the plan took in the mean, and a millisecond where it failed.
pub proof fn lemma_saved(outcome: Outcome)
    ensures
        outcome matches Ok((_, stats)) ==> saved_nanos(outcome) == stats.mean@,
        outcome is Err ==> saved_nanos(outcome) == 1_000_000,
{
}

/// There is a line on the cache at every hundredth lookup. It gives the hits, then the misses, then
/// what share of the lookups the hits are.
pub proof fn lemma_cache_log(cache: PlanCache, r: Option<String>)
    requires
        cache.lookups() <= usize::MAX,
        call_ensures(cache_log, (&cache,), r),
    ensures
        r is Some <==> cache.hits + cache.misses > 0 && (cache.hits + cache.misses) % 100 == 0,
        r matches Some(line) ==> {
            let rate = of_nat(cache.hits as nat).quotient(
                of_nat((cache.hits + cache.misses) as nat),
            );
            line@ == "Plan cache: "@ + (decimal(cache.hits as nat) + " hits, "@) + (decimal(
                cache.misses as nat,
            ) + " misses, "@) + (rate.product(Float64 { bits: HUNDRED }).fixed(2)
                + "% hit rate"@)
        },
{
    if let Some(line) = r {
        let rate = of_nat(cache.hits as nat).quotient(
            of_nat((cache.hits + cache.misses) as nat),
        );
        assert(cache.hit_rate() == rate);
        assert(line@ =~= "Plan cache: "@ + (decimal(cache.hits as nat) + " hits, "@) + (decimal(
            cache.misses as nat,
        ) + " misses, "@) + (rate.product(Float64 { bits: HUNDRED }).fixed(2) + "% hit rate"@));
    }
}

} // verus!
