//! Running one plan several times.
use vstd::prelude::*;
use crate::benchmark::cache::Outcome;
use crate::benchmark::stats::{measurable, RuntimeStats};
use crate::benchmark::types::BenchmarkConfig;
use crate::common::measure::MeasureError;
use crate::duration::Duration;
use crate::ranking::{lemma_ranked_permutes, lemma_ranked_sorted, rank, ranked, RankBy};

verus! {

/// What one run of a plan gave: its cardinality and how long it took, or why there is none.
pub type RunResult = Result<(usize, Duration), MeasureError>;

/// Times in the order of their length.
pub struct ByLength;

impl RankBy<Duration> for ByLength {
    open spec fn ready(&self, x: &Duration) -> bool {
        true
    }

    open spec fn before(&self, x: &Duration, y: &Duration) -> bool {
        x@ < y@
    }

    fn is_before(&self, x: &Duration, y: &Duration) -> (r: bool) {
        x.shorter(y)
    }
}

/// The number of runs that a plan gets: at least one.
pub open spec fn wanted_runs(cfg: BenchmarkConfig) -> nat {
    if cfg.num_runs == 0 {
        1
    } else {
        cfg.num_runs as nat
    }
}

/// Whether no run failed.
pub open spec fn all_ran(results: Seq<RunResult>) -> bool {
    forall|i: int| 0 <= i < results.len() ==> (#[trigger] results[i]) is Ok
}

/// The times of runs that did not fail.
pub open spec fn times_of(results: Seq<RunResult>) -> Seq<Duration> {
    Seq::new(results.len(), |i: int| results[i]->Ok_0.1)
}

/// The times that count: all, or all but the shortest and the longest.
pub open spec fn kept_times(results: Seq<RunResult>, drop_outliers: bool) -> Seq<Duration> {
    let times = times_of(results);
    if drop_outliers && times.len() >= 3 {
        ranked(ByLength, times).subrange(1, times.len() - 1)
    } else {
        times
    }
}

/// Whether the runs are as they come: at most the last one failed.
pub open spec fn stops_at_failure(results: Seq<RunResult>) -> bool {
    forall|i: int| 0 <= i < results.len() - 1 ==> (#[trigger] results[i]) is Ok
}

/// Whether `outcome` is what the runs come to.
pub open spec fn summarizes(
    outcome: Outcome,
    results: Seq<RunResult>,
    cfg: BenchmarkConfig,
) -> bool {
    if !all_ran(results) {
        exists|i: int|
            0 <= i < results.len() && all_ran(results.take(i)) && #[trigger] results[i] is Err
                && outcome == Err::<(usize, RuntimeStats), MeasureError>(results[i]->Err_0)
    } else if results.len() == 0 {
        outcome == Err::<(usize, RuntimeStats), MeasureError>(MeasureError::Timeout)
    } else {
        outcome matches Ok((card, stats)) && card == results[0]->Ok_0.0 && stats.describes(
            kept_times(results, cfg.drop_outliers),
        )
    }
}

/// Whether the plan has to run once more.
pub fn wants_run(results: &Vec<RunResult>, cfg: &BenchmarkConfig) -> (r: bool)
    ensures
        r == (results@.len() < wanted_runs(*cfg) && all_ran(results@)),
{
    let mut i: usize = 0;
    while i < results.len()
        invariant
            i <= results.len(),
            forall|k: int| 0 <= k < i ==> (#[trigger] results@[k]) is Ok,
        decreases results.len() - i,
    {
        match &results[i] {
            Ok(_) => {},
            Err(_) => {
                assert(results@[i as int] is Err);
                return false;
            },
        }
        i = i + 1;
    }
    let num_runs: usize = if cfg.num_runs == 0 {
        1
    } else {
        cfg.num_runs
    };
    results.len() < num_runs
}

/// What the runs of a plan come to, where their times have statistics: the error of the first run
/// that failed; otherwise the cardinality that the first run gave, and statistics of the times.
pub fn checked_summary(results: &Vec<RunResult>, cfg: &BenchmarkConfig) -> (r: Option<Outcome>)
    ensures
        match r {
            Some(outcome) => summarizes(outcome, results@, *cfg),
            None => {
                &&& all_ran(results@)
                &&& results@.len() > 0
                &&& !measurable(kept_times(results@, cfg.drop_outliers))
            },
        },
{
    let ghost s = results@;
    let mut times: Vec<Duration> = Vec::new();
    let mut cardinality: usize = 0;
    let mut i: usize = 0;
    while i < results.len()
        invariant
            i <= results.len(),
            s == results@,
            all_ran(s.take(i as int)),
            times@ == times_of(s.take(i as int)),
            i > 0 ==> cardinality == s[0]->Ok_0.0,
        decreases results.len() - i,
    {
        match &results[i] {
            Ok(run) => {
                if times.len() == 0 {
                    cardinality = run.0;
                }
                times.push(run.1);
                proof {
                    assert forall|k: int| 0 <= k < i + 1 implies (#[trigger] s.take(
                        i + 1,
                    )[k]) is Ok by {
                        if k < i {
                            assert(s.take(i as int)[k] is Ok);
                        }
                    }
                    assert(times@ =~= times_of(s.take(i + 1)));
                }
            },
            Err(e) => {
                assert(s[i as int] is Err);
                return Some(Err(*e));
            },
        }
        i = i + 1;
    }
    assert(s.take(i as int) =~= s);
    if times.len() == 0 {
        return Some(Err(MeasureError::Timeout));
    }
    if cfg.drop_outliers && times.len() >= 3 {
        let ghost all = times@;
        times = rank(&ByLength, times);
        proof {
            lemma_ranked_permutes(ByLength, all);
        }
        let _ = times.remove(0);
        let _ = times.pop();
        assert(times@ =~= ranked(ByLength, all).subrange(1, all.len() - 1));
    }
    match RuntimeStats::checked_new(times) {
        Some(stats) => Some(Ok((cardinality, stats))),
        None => None,
    }
}

/// What the runs of a plan come to.
pub fn summary(results: &Vec<RunResult>, cfg: &BenchmarkConfig) -> (r: Outcome)
    requires
        all_ran(results@) ==> measurable(kept_times(results@, cfg.drop_outliers)),
    ensures
        summarizes(r, results@, *cfg),
{
    checked_summary(results, cfg).unwrap()
}

/// Sorting puts shorter times first.
pub proof fn lemma_times_sorted(times: Seq<Duration>)
    ensures
        ranked(ByLength, times).len() == times.len(),
        ranked(ByLength, times).to_multiset() == times.to_multiset(),
        forall|i: int, j: int|
            #![trigger ranked(ByLength, times)[i], ranked(ByLength, times)[j]]
            0 <= i < j < times.len() ==> ranked(ByLength, times)[i]@ <= ranked(
                ByLength,
                times,
            )[j]@,
{
    lemma_ranked_permutes(ByLength, times);
    lemma_ranked_sorted(ByLength, times);
}

/// Dropping outliers leaves times that no dropped one lies between: one dropped time is at most as
/// long as any of them, and the other at least as long.
pub proof fn lemma_outliers_dropped(results: Seq<RunResult>)
    requires
        results.len() >= 3,
    ensures
        kept_times(results, true).len() == results.len() - 2,
        forall|i: int|
            0 <= i < results.len() - 2 ==> {
                &&& ranked(ByLength, times_of(results))[0]@ <= (#[trigger] kept_times(
                    results,
                    true,
                )[i])@
                &&& kept_times(results, true)[i]@ <= ranked(ByLength, times_of(results)).last()@
            },
{
    lemma_times_sorted(times_of(results));
    let u = ranked(ByLength, times_of(results));
    assert forall|i: int| 0 <= i < results.len() - 2 implies {
        &&& u[0]@ <= (#[trigger] kept_times(results, true)[i])@
        &&& kept_times(results, true)[i]@ <= u.last()@
    } by {
        assert(kept_times(results, true)[i] == u[i + 1]);
    }
}

/// A plan whose runs all succeed is run exactly as often as wanted; a failed run is the last.
pub proof fn lemma_runs_end(results: Seq<RunResult>, cfg: BenchmarkConfig)
    requires
        stops_at_failure(results),
        results.len() <= wanted_runs(cfg),
        !(results.len() < wanted_runs(cfg) && all_ran(results)),
    ensures
        results.len() > 0,
        results.last() is Ok ==> results.len() == wanted_runs(cfg) && all_ran(results),
{
    if results.len() > 0 && results.last() is Ok {
        assert forall|i: int| 0 <= i < results.len() implies (#[trigger] results[i]) is Ok by {
            if i == results.len() - 1 {
                assert(results[i] == results.last());
            }
        }
    }
}

/// A plan is run as often as the configuration says, and once where it says not at all.
pub proof fn lemma_wanted_runs(cfg: BenchmarkConfig)
    ensures
        wanted_runs(cfg) >= 1,
        cfg.num_runs >= 1 ==> wanted_runs(cfg) == cfg.num_runs,
        cfg.num_runs == 0 ==> wanted_runs(cfg) == 1,
{
}

/// All times count, unless outliers are to be dropped and there are three or more: then one of the
/// shortest and one of the longest are left out, and all others stay.
pub proof fn lemma_kept_times(results: Seq<RunResult>, drop_outliers: bool)
    ensures
        times_of(results) == results.map_values(|r: RunResult| r->Ok_0.1),
        !drop_outliers || results.len() < 3 ==> kept_times(results, drop_outliers) == times_of(
            results,
        ),
        drop_outliers && results.len() >= 3 ==> exists|short: Duration, long: Duration|
            {
                &&& times_of(results).to_multiset() == #[trigger] kept_times(
                    results,
                    drop_outliers,
                ).to_multiset().insert(short).insert(long)
                &&& forall|i: int|
                    0 <= i < results.len() ==> short@ <= (#[trigger] times_of(results)[i])@
                        <= long@
            },
{
    let times = times_of(results);
    assert(times =~= results.map_values(|r: RunResult| r->Ok_0.1));
    if drop_outliers && results.len() >= 3 {
        let u = ranked(ByLength, times);
        let n = times.len() as int;
        let kept = kept_times(results, drop_outliers);
        lemma_times_sorted(times);
        let rest = u.drop_last();
        vstd::seq_lib::to_multiset_build(rest, u.last());
        assert(rest.push(u.last()) =~= u);
        assert(rest.remove(0) =~= kept);
        vstd::seq_lib::to_multiset_remove(rest, 0);
        rest.to_multiset_ensures();
        assert(rest.contains(rest[0]));
        assert(rest.to_multiset() =~= kept.to_multiset().insert(u[0]));
        assert(times.to_multiset() == kept.to_multiset().insert(u[0]).insert(u.last()));
        lemma_ranked_permutes(ByLength, times);
        assert forall|i: int| 0 <= i < n implies u[0]@ <= (#[trigger] times[i])@ <= u.last()@ by {
            assert(times.contains(times[i]));
            assert(u.contains(times[i]));
            let j = choose|j: int| 0 <= j < u.len() && u[j] == times[i];
            assert(u[0]@ <= u[j]@ || j == 0);
            assert(u[j]@ <= u[n - 1]@ || j == n - 1);
        }
    }
}

/// Runs come to an error exactly if there are none, which counts as a time out, or one of them
/// failed: then it is the error of the first that did. Otherwise they come to the cardinality of
/// the first run and to statistics of the times that count.
pub proof fn lemma_summary(outcome: Outcome, results: Seq<RunResult>, cfg: BenchmarkConfig)
    requires
        summarizes(outcome, results, cfg),
    ensures
        outcome is Err <==> results.len() == 0 || exists|i: int|
            0 <= i < results.len() && (#[trigger] results[i]) is Err,
        results.len() == 0 ==> outcome == Err::<(usize, RuntimeStats), MeasureError>(
            MeasureError::Timeout,
        ),
        forall|i: int|
            0 <= i < results.len() && (#[trigger] results[i]) is Err && (forall|k: int|
                0 <= k < i ==> (#[trigger] results[k]) is Ok) ==> outcome == Err::<
                (usize, RuntimeStats),
                MeasureError,
            >(results[i]->Err_0),
        outcome matches Ok((card, stats)) ==> {
            &&& results[0] is Ok
            &&& card == results[0]->Ok_0.0
            &&& stats.measurements@ == kept_times(results, cfg.drop_outliers)
        },
{
    if !all_ran(results) {
        let i = choose|i: int|
            0 <= i < results.len() && all_ran(results.take(i)) && #[trigger] results[i] is Err
                && outcome == Err::<(usize, RuntimeStats), MeasureError>(results[i]->Err_0);
        assert forall|j: int|
            0 <= j < results.len() && (#[trigger] results[j]) is Err && (forall|k: int|
                0 <= k < j ==> (#[trigger] results[k]) is Ok) implies outcome == Err::<
            (usize, RuntimeStats),
            MeasureError,
        >(results[j]->Err_0) by {
            if j < i {
                assert(results.take(i)[j] is Ok);
            }
            if i < j {
                assert(results[i] is Ok);
            }
        }
    } else if results.len() > 0 {
        assert(results[0] is Ok);
    }
}

/// A plan has to run once more exactly as long as no run failed and there were fewer runs than
/// asked for; it runs at least once.
pub proof fn lemma_wants_run(results: Vec<RunResult>, cfg: BenchmarkConfig, r: bool)
    requires
        call_ensures(wants_run, (&results, &cfg), r),
    ensures
        results@.len() == 0 ==> r,
        (exists|i: int| 0 <= i < results@.len() && #[trigger] results@[i] is Err) ==> !r,
        results@.len() > 0 && results@.len() >= cfg.num_runs ==> !r,
        results@.len() < cfg.num_runs && (forall|i: int|
            0 <= i < results@.len() ==> #[trigger] results@[i] is Ok) ==> r,
{
}

} // verus!
