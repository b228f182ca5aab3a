use optdbg::benchmark::accuracy::{calculate_cost_rank_accuracy, cost_rank_score};
use optdbg::benchmark::cache::{hash_plan, is_plan_cacheable, Outcome, PlanCache};
use optdbg::benchmark::choice::{
    benchmark, benchmark_for_testing, calculate_optimality_frequency,
    calculate_performance_factor, order_alternates, place_chosen, share_no_better, ByRuntime,
};
use optdbg::benchmark::ipc::{cardinality, parsed_run, run_output, run_result, Exit};
use optdbg::benchmark::measure::{give_up, is_too_costly, measure_plan, SubplanWalk};
use optdbg::benchmark::metrics::{
    get_performance_metrics, report_performance_metrics, reset_performance_metrics,
    PerformanceMetrics,
};
use optdbg::benchmark::quality::{calculate_avg_q_error, calculate_q_error, CardQuality};
use optdbg::benchmark::runs::{checked_summary, summary, wants_run, RunResult};
use optdbg::benchmark::stats::RuntimeStats;
use optdbg::benchmark::timing::{cache_log, note_reuse, note_run, plan_timing, Timing};
use optdbg::benchmark::types::{
    BenchmarkConfig, BenchmarkOutput, MeasuredPlan, OptimizerMetrics,
};
use optdbg::common::measure::{MeasureError, PlanMeasurements};
use optdbg::common::plan::{NodeDetail, Plan, PlanNode};
use optdbg::duration::Duration;
use optdbg::float::encoding::Float64;
use std::cmp::Ordering;

fn b64(x: f64) -> Float64 {
    Float64::from_bits(x.to_bits())
}

fn b64s(xs: &[f64]) -> Vec<Float64> {
    xs.iter().map(|x| b64(*x)).collect()
}

fn back(x: Float64) -> f64 {
    f64::from_bits(x.to_bits())
}

fn power_of_e(x: Float64) -> Float64 {
    b64(back(x).exp())
}

fn ms(n: u64) -> Duration {
    Duration::from_millis(n)
}

fn bench_node(name: &str, children: Vec<PlanNode>) -> PlanNode {
    PlanNode {
        name: name.to_string(),
        type_id: name.len() as u64,
        schema: "a: Int32".to_string(),
        debug: name.to_string(),
        encoding: name.as_bytes().to_vec(),
        detail: NodeDetail::Other,
        children,
    }
}

fn bench_empty() -> PlanNode {
    bench_node("EmptyExec", vec![])
}

fn bench_plan(cost: f64, card: f64) -> Plan {
    Plan::new(bench_empty(), b64s(&[cost]), b64s(&[card]))
}

fn ran_in(millis: u64, cost: f64, est_card: f64, card: usize) -> MeasuredPlan {
    MeasuredPlan {
        plan: bench_plan(cost, est_card),
        runtime: Ok(RuntimeStats::from_duration(ms(millis))),
        cardinalities: vec![Ok(card)],
        sub_runtimes: None,
    }
}

fn failed(cost: f64, est_card: f64) -> MeasuredPlan {
    MeasuredPlan {
        plan: bench_plan(cost, est_card),
        runtime: Err(MeasureError::Died),
        cardinalities: vec![Err(MeasureError::Died)],
        sub_runtimes: None,
    }
}

#[test]
fn mod_test_card_quality_from_q_err() {
    // Excellent: q-error <= 2.0
    assert_eq!(CardQuality::from_q_err(b64(1.0)), CardQuality::Excellent);
    assert_eq!(CardQuality::from_q_err(b64(1.5)), CardQuality::Excellent);
    assert_eq!(CardQuality::from_q_err(b64(2.0)), CardQuality::Excellent);

    // Good: 2.0 < q-error <= 4.0
    assert_eq!(CardQuality::from_q_err(b64(2.1)), CardQuality::Good);
    assert_eq!(CardQuality::from_q_err(b64(3.0)), CardQuality::Good);
    assert_eq!(CardQuality::from_q_err(b64(4.0)), CardQuality::Good);

    // Acceptable: 4.0 < q-error <= 10.0
    assert_eq!(CardQuality::from_q_err(b64(4.1)), CardQuality::Acceptable);
    assert_eq!(CardQuality::from_q_err(b64(7.5)), CardQuality::Acceptable);
    assert_eq!(CardQuality::from_q_err(b64(10.0)), CardQuality::Acceptable);

    // Poor: q-error > 10.0
    assert_eq!(CardQuality::from_q_err(b64(10.1)), CardQuality::Poor);
    assert_eq!(CardQuality::from_q_err(b64(20.0)), CardQuality::Poor);
    assert_eq!(CardQuality::from_q_err(b64(100.0)), CardQuality::Poor);

    // Edge cases
    assert_eq!(CardQuality::from_q_err(b64(f64::INFINITY)), CardQuality::Unknown);
    assert_eq!(CardQuality::from_q_err(b64(f64::NAN)), CardQuality::Unknown);
}

#[test]
fn test_calculate_q_error() {
    assert_eq!(calculate_q_error(b64(1000.0), 100), b64(10.0));
    assert_eq!(calculate_q_error(b64(200.0), 100), b64(2.0));

    assert_eq!(calculate_q_error(b64(100.0), 1000), b64(10.0));
    assert_eq!(calculate_q_error(b64(50.0), 100), b64(2.0));

    assert_eq!(calculate_q_error(b64(100.0), 100), b64(1.0));

    assert_eq!(calculate_q_error(b64(0.0), 100), b64(f64::MAX));
    assert_eq!(calculate_q_error(b64(100.0), 0), b64(f64::MAX));
    assert_eq!(calculate_q_error(b64(0.0), 0), b64(1.0));

    let small_q_error1 = back(calculate_q_error(b64(0.001), 1));
    assert!((small_q_error1 - 1000.0).abs() < 1.0);
}

#[test]
fn test_runtime_stats() {
    let measurements = vec![ms(100), ms(110), ms(90), ms(105), ms(95)];
    let stats = RuntimeStats::new(measurements.clone());
    assert_eq!(stats.measurements, measurements);
    assert_eq!(stats.mean, ms(100));
    assert_eq!(stats.min, ms(90));
    assert_eq!(stats.max, ms(110));

    let expected_stddev = ms(7);
    let expected_cv = 7.0;
    assert!(
        stats.stddev.as_millis() >= expected_stddev.as_millis() - 1
            && stats.stddev.as_millis() <= expected_stddev.as_millis() + 1
    );
    assert!(
        back(stats.cv_percent) >= expected_cv - 1.0 && back(stats.cv_percent) <= expected_cv + 1.0
    );

    let single_duration = ms(200);
    let single_stats = RuntimeStats::from_duration(single_duration);
    assert_eq!(single_stats.measurements.len(), 1);
    assert_eq!(single_stats.mean, single_duration);
    assert_eq!(single_stats.min, single_duration);
    assert_eq!(single_stats.max, single_duration);
    assert_eq!(single_stats.stddev, Duration::from_secs(0));
    assert_eq!(single_stats.cv_percent, b64(0.0));
}

#[test]
fn test_runtime_stats_comparison() {
    let fast = RuntimeStats::from_duration(ms(100));
    let slow = RuntimeStats::from_duration(ms(200));
    let almost_slow = RuntimeStats::new(vec![ms(190), ms(200), ms(210)]);

    assert!(fast == fast);
    assert!(slow != fast);
    assert!(fast < slow);
    assert!(slow > fast);

    let overlapping_with_slow = RuntimeStats::new(vec![ms(195), ms(200), ms(205)]);
    assert!(overlapping_with_slow.overlaps_with(&slow, b64(0.5)));
    assert!(
        almost_slow.overlaps_with(&slow, b64(0.3)),
        "Almost slow mean={:?}, stddev={:?} should overlap with Slow mean={:?}, stddev={:?}",
        almost_slow.mean,
        almost_slow.stddev,
        slow.mean,
        slow.stddev
    );

    let point_value = RuntimeStats::from_duration(ms(200));
    assert!(
        point_value.overlaps_with(&slow, b64(0.5)),
        "Point value at {:?} should overlap with slow range {:?}±{:?}",
        point_value.mean,
        slow.mean,
        slow.stddev
    );
    assert!(!almost_slow.overlaps_with(&fast, b64(0.5)));
}

#[test]
fn test_calculate_performance_factor() {
    let plans = vec![
        ran_in(100, 1.0, 100.0, 100),
        ran_in(200, 2.0, 200.0, 200),
        ran_in(150, 1.5, 150.0, 150),
    ];
    assert_eq!(calculate_performance_factor(&plans, 0), b64(1.0));
    let pf_slow = back(calculate_performance_factor(&plans, 1));
    assert!(pf_slow >= 0.3 && pf_slow <= 0.34, "PF was {}", pf_slow);

    let plans_with_failure =
        vec![ran_in(100, 1.0, 100.0, 100), failed(3.0, 300.0), ran_in(200, 2.0, 200.0, 200)];
    assert_eq!(calculate_performance_factor(&plans_with_failure, 0), b64(1.0));
    assert_eq!(calculate_performance_factor(&plans_with_failure, 1), b64(0.0));
}

fn bench_output(name: &str, taqo_s: f64, acc: f64, factor: f64, q: f64) -> BenchmarkOutput {
    BenchmarkOutput {
        name: name.to_string(),
        plans: vec![ran_in(100, 1.0, 100.0, 100)],
        chosen_idx: 0,
        metrics: OptimizerMetrics {
            taqo_score_s: b64(taqo_s),
            taqo_accuracy_percent: b64(acc),
            performance_factor: b64(factor),
            avg_q_error: b64(q),
        },
    }
}

#[test]
fn test_optimality_frequency() {
    let results = vec![
        bench_output("query1", 0.0, 100.0, 1.0, 1.0),
        bench_output("query2", 0.5, 60.0, 0.5, 2.0),
        bench_output("query3", 0.0, 100.0, 1.0, 1.0),
    ];
    let of = back(calculate_optimality_frequency(&results));
    assert!((of - 0.67).abs() < 0.01, "OF was {}, expected close to 0.67", of);
    assert_eq!(of, 2.0 / 3.0);
    assert_eq!(calculate_optimality_frequency(&vec![]), b64(0.0));
}

#[test]
fn test_runtime_stats_empty() {
    let empty_stats = RuntimeStats::new(vec![]);
    assert_eq!(empty_stats.measurements.len(), 0);
    assert_eq!(empty_stats.mean, Duration::from_secs(0));
    assert_eq!(empty_stats.stddev, Duration::from_secs(0));
    assert_eq!(empty_stats.min, Duration::from_secs(0));
    assert_eq!(empty_stats.max, Duration::from_secs(0));
    assert_eq!(empty_stats.cv_percent, b64(0.0));
}

#[test]
fn test_runtime_stats_overlaps_edge_cases() {
    // Case 1: Both have zero stddev (point values)
    let point1 = RuntimeStats::from_duration(ms(100));
    let point2 = RuntimeStats::from_duration(ms(100));
    let point3 = RuntimeStats::from_duration(ms(200));
    assert!(point1.overlaps_with(&point2, b64(0.5)));
    assert!(!point1.overlaps_with(&point3, b64(0.5)));

    // Case 2: One has zero stddev, one has range
    let range1 = RuntimeStats::new(vec![ms(90), ms(100), ms(110)]);
    assert!(point1.overlaps_with(&range1, b64(0.5)));
    assert!(!point3.overlaps_with(&range1, b64(0.5)));

    // Case 3: Very different ranges with tiny overlap
    let range2 = RuntimeStats::new(vec![ms(199), ms(200), ms(201)]);
    let range3 = RuntimeStats::new(vec![ms(198), ms(199), ms(200)]);
    assert!(range2.overlaps_with(&range3, b64(0.1)));
    assert!(!range2.overlaps_with(&range3, b64(0.9)));
}

#[test]
fn test_plan_cache() {
    let mut cache = PlanCache::new();
    let plan = bench_empty();
    let plan_hash = hash_plan(&plan);
    let result: Outcome = Ok((100, RuntimeStats::from_duration(ms(100))));

    assert!(cache.get(plan_hash).is_none());
    cache.insert(plan_hash, result);
    assert!(cache.get(plan_hash).is_some());
    match cache.get(plan_hash) {
        Some(Ok((card, stats))) => {
            assert_eq!(*card, 100);
            assert_eq!(stats.mean, ms(100));
        }
        _ => panic!("Expected cached result"),
    }
    let (hits, misses, hit_rate) = cache.stats();
    assert_eq!(hits, 2);
    assert_eq!(misses, 1);
    assert_eq!(hit_rate, b64(2.0 / 3.0));
}

#[test]
fn test_hash_plan() {
    let plan1 = bench_empty();
    let plan2 = bench_empty();
    assert_eq!(hash_plan(&plan1), hash_plan(&plan2));
    let plan3 = bench_node("FilterExec", vec![bench_empty()]);
    assert_ne!(hash_plan(&plan1), hash_plan(&plan3));
}

#[test]
fn test_is_plan_cacheable() {
    let base_plan = bench_empty();
    assert!(is_plan_cacheable(&base_plan));
    let mut complex_plan = bench_empty();
    for _ in 0..12 {
        complex_plan = bench_node("FilterExec", vec![complex_plan]);
    }
    assert!(!is_plan_cacheable(&complex_plan));
}

#[test]
fn test_benchmark_config() {
    let default_config = BenchmarkConfig::default();
    assert_eq!(default_config.fast, false);
    assert_eq!(default_config.num_runs, 3);
    assert_eq!(default_config.drop_outliers, false);
    assert_eq!(default_config.overlap_threshold, b64(0.5));
    assert_eq!(default_config.early_stopping, true);
    assert_eq!(default_config.enable_cache, true);
    assert_eq!(default_config.timeout, Some(Duration::from_secs(5)));

    let custom_config = BenchmarkConfig {
        fast: true,
        timeout: None,
        enable_cache: false,
        num_runs: 5,
        drop_outliers: true,
        overlap_threshold: b64(0.7),
        early_stopping: false,
        track_metrics: true,
    };
    assert_eq!(custom_config.fast, true);
    assert_eq!(custom_config.num_runs, 5);
    assert_eq!(custom_config.drop_outliers, true);
    assert_eq!(custom_config.overlap_threshold, b64(0.7));
    assert_eq!(custom_config.early_stopping, false);
    assert_eq!(custom_config.enable_cache, false);
    assert_eq!(custom_config.timeout, None);
}

#[test]
fn test_calculate_avg_q_error() {
    let measured_plan = MeasuredPlan {
        plan: Plan::new(bench_empty(), b64s(&[1.0]), b64s(&[100.0, 200.0, 300.0])),
        runtime: Ok(RuntimeStats::from_duration(ms(100))),
        cardinalities: vec![Ok(50), Ok(200), Ok(600)],
        sub_runtimes: None,
    };
    let avg_q_error = back(calculate_avg_q_error(&measured_plan));
    assert!(
        (avg_q_error - 1.67).abs() < 0.01,
        "Average Q-error was {}, expected close to 1.67",
        avg_q_error
    );
    let measured_plan_zero = MeasuredPlan {
        plan: Plan::new(bench_empty(), b64s(&[1.0]), b64s(&[100.0, 0.0])),
        runtime: Ok(RuntimeStats::from_duration(ms(100))),
        cardinalities: vec![Ok(50), Ok(0)],
        sub_runtimes: None,
    };
    let avg_q_error_zero = back(calculate_avg_q_error(&measured_plan_zero));
    assert!(
        (avg_q_error_zero - 2.0).abs() < 0.01,
        "Average Q-error with zero was {}, expected close to 2.0",
        avg_q_error_zero
    );
}

#[test]
fn test_measured_plan_new() {
    let plan = bench_plan(1.0, 100.0);
    let measurements = PlanMeasurements {
        cardinalities: vec![Ok(50), Ok(200)],
        sub_runtimes: Some(vec![Ok(ms(100)), Ok(ms(200))]),
    };
    let measured_plan = MeasuredPlan::new(plan, measurements);
    assert!(measured_plan.runtime.is_ok());
    if let Ok(stats) = &measured_plan.runtime {
        assert_eq!(stats.mean, ms(100));
        assert_eq!(stats.measurements.len(), 1);
    }
    assert_eq!(measured_plan.cardinalities.len(), 2);
    assert!(measured_plan.sub_runtimes.is_some());
    if let Some(sub_runtimes) = &measured_plan.sub_runtimes {
        assert_eq!(sub_runtimes.len(), 2);
        if let Ok(stats) = &sub_runtimes[0] {
            assert_eq!(stats.mean, ms(100));
        } else {
            panic!("Expected success for first runtime");
        }
    }
    let error_measurements = PlanMeasurements {
        cardinalities: vec![Err(MeasureError::Died)],
        sub_runtimes: Some(vec![Err(MeasureError::Timeout)]),
    };
    let measured_plan_error = MeasuredPlan::new(bench_plan(1.0, 100.0), error_measurements);
    assert!(measured_plan_error.runtime.is_err());
    assert_eq!(measured_plan_error.cardinalities.len(), 1);
    assert!(measured_plan_error.cardinalities[0].is_err());

    let nothing = PlanMeasurements { cardinalities: vec![], sub_runtimes: None };
    let measured_nothing = MeasuredPlan::new(bench_plan(1.0, 1.0), nothing);
    assert_eq!(measured_nothing.runtime.unwrap().mean, ms(0));
    assert!(measured_nothing.sub_runtimes.is_none());
    let no_times = PlanMeasurements { cardinalities: vec![], sub_runtimes: Some(vec![]) };
    let measured_none = MeasuredPlan::new(bench_plan(1.0, 1.0), no_times);
    assert_eq!(measured_none.runtime.unwrap().mean, ms(0));
}

#[test]
fn test_calculate_cost_rank_accuracy() {
    let plans = vec![
        ran_in(100, 1.0, 100.0, 100),
        ran_in(200, 2.0, 200.0, 200),
        ran_in(300, 3.0, 300.0, 300),
    ];
    let (score, accuracy) = calculate_cost_rank_accuracy(&plans, power_of_e);
    let (score, accuracy) = (back(score), back(accuracy));
    assert!(score.abs() < 1.0, "Expected score close to 0, got {}", score);
    assert!(accuracy > 35.0, "Expected accuracy above 35%, got {}", accuracy);

    let inverse_plans = vec![
        ran_in(100, 3.0, 300.0, 100),
        ran_in(200, 2.0, 200.0, 200),
        ran_in(300, 1.0, 100.0, 300),
    ];
    let (inverse_score, inverse_accuracy) = calculate_cost_rank_accuracy(&inverse_plans, power_of_e);
    assert!(back(inverse_score) < 0.0, "Expected negative score, got {}", back(inverse_score));
    assert!(back(inverse_accuracy).is_finite(), "Expected a finite accuracy value");

    let plans_with_failure = vec![ran_in(100, 100.0, 100.0, 100), failed(200.0, 200.0)];
    let (failure_score, failure_accuracy) =
        calculate_cost_rank_accuracy(&plans_with_failure, power_of_e);
    assert!(back(failure_score).is_finite(), "Score should be finite even with failed plans");
    assert!(back(failure_accuracy).is_finite(), "Accuracy should be finite even with failed plans");
}

#[test]
fn test_measured_plan_display() {
    let runtime_stats = RuntimeStats::from_duration(ms(100));
    let measured_plan = MeasuredPlan {
        plan: bench_plan(1.0, 100.0),
        runtime: Ok(runtime_stats.clone()),
        cardinalities: vec![Ok(100)],
        sub_runtimes: Some(vec![Ok(runtime_stats)]),
    };
    let display_string = measured_plan.to_text(&vec!["1".to_string()]);
    assert!(!display_string.is_empty(), "Display string should not be empty");
    assert_eq!(display_string, "EmptyExec (100, 1)\n");

    let measured_plan_error = MeasuredPlan {
        plan: bench_plan(1.0, 100.0),
        runtime: Err(MeasureError::Timeout),
        cardinalities: vec![Err(MeasureError::Timeout)],
        sub_runtimes: Some(vec![Err(MeasureError::Timeout)]),
    };
    let display_string_error = measured_plan_error.to_text(&vec!["1".to_string()]);
    assert!(!display_string_error.is_empty(), "Display string with errors should not be empty");
    assert_eq!(display_string_error, "EmptyExec (9999999, 1)\n");
}

#[test]
fn test_benchmark() {
    let base_plan = ran_in(100, 10.0, 10.0, 100);
    let alt_plans = vec![
        ran_in(200, 20.0, 20.0, 200),
        ran_in(300, 30.0, 30.0, 300),
        ran_in(50, 5.0, 5.0, 50),
    ];
    let summary = benchmark_for_testing(base_plan, alt_plans, power_of_e);
    assert!(summary.contains_key("perf_factor"), "Summary should contain performance factor");
    assert!(summary.contains_key("avg_q_error"), "Summary should contain average Q-error");
    assert!(summary.contains_key("cost_rank_accuracy"), "Summary should contain cost rank accuracy");
    assert!(
        summary.contains_key("cost_rank_percentage"),
        "Summary should contain cost rank percentage"
    );
    let perf_factor = back(*summary.get("perf_factor").unwrap());
    assert!(
        (perf_factor - 0.75).abs() < 0.01,
        "Performance factor should be around 0.75, got {}",
        perf_factor
    );
    let optimality = back(*summary.get("optimality").unwrap());
    assert!(
        optimality == 0.0,
        "Optimizer didn't pick the optimal plan, so optimality should be 0.0"
    );
    assert_eq!(back(*summary.get("avg_q_error").unwrap()), 10.0);
    assert!(!summary.contains_key("something_else"));
}

/// The score by the machine's own arithmetic.
fn native_score(pairs: &[(std::time::Duration, f64)]) -> f64 {
    let min_r = pairs.iter().map(|p| p.0).min().unwrap().as_secs_f64();
    let max_r = pairs
        .iter()
        .map(|p| p.0.as_secs_f64())
        .max_by(|a, b| a.partial_cmp(b).unwrap())
        .unwrap();
    let min_e = pairs.iter().map(|p| p.1).min_by(|a, b| a.partial_cmp(b).unwrap()).unwrap();
    let max_e = pairs.iter().map(|p| p.1).max_by(|a, b| a.partial_cmp(b).unwrap()).unwrap();
    let (range_r, range_e) = (max_r - min_r, max_e - min_e);
    let mut s = 0.0;
    for i in 0..pairs.len() {
        for j in i + 1..pairs.len() {
            let (e_i, e_j) = (pairs[i].1, pairs[j].1);
            if e_i == e_j {
                continue;
            }
            let (r_i, r_j) = (pairs[i].0.as_secs_f64(), pairs[j].0.as_secs_f64());
            let w_i = if r_i > 0.0 { min_r / r_i } else { 0.0 };
            let w_j = if r_j > 0.0 { min_r / r_j } else { 0.0 };
            let t1 = if range_r > 0.0 { ((r_j - r_i) / range_r).powi(2) } else { 0.0 };
            let t2 = if range_e > 0.0 { ((e_j - e_i) / range_e).powi(2) } else { 0.0 };
            s += w_i * w_j * (t1 + t2).sqrt() * (e_j - e_i).signum();
        }
    }
    s
}

#[test]
fn score_is_that_of_the_machine() {
    let runs: [(u64, f64); 6] =
        [(137, 12.5), (90, 1e6), (0, 3.0), (451, 12.5), (90, -7.25), (1000, 0.1)];
    let plans: Vec<MeasuredPlan> = runs.iter().map(|(t, e)| ran_in(*t, *e, 1.0, 1)).collect();
    let pairs: Vec<(std::time::Duration, f64)> =
        runs.iter().map(|(t, e)| (std::time::Duration::from_millis(*t), *e)).collect();
    assert_eq!(back(cost_rank_score(&plans)).to_bits(), native_score(&pairs).to_bits());
    let (score, accuracy) = calculate_cost_rank_accuracy(&plans, power_of_e);
    let s = native_score(&pairs);
    assert_eq!(back(score), s);
    assert_eq!(back(accuracy), 100.0 * (-s.abs()).exp());

    let runs: [(u64, f64); 4] = [(137, 12.5), (90, 1e6), (77, 3.0), (451, 12.6)];
    let plans: Vec<MeasuredPlan> = runs.iter().map(|(t, e)| ran_in(*t, *e, 1.0, 1)).collect();
    let pairs: Vec<(std::time::Duration, f64)> =
        runs.iter().map(|(t, e)| (std::time::Duration::from_millis(*t), *e)).collect();
    assert_eq!(back(cost_rank_score(&plans)).to_bits(), native_score(&pairs).to_bits());
    assert!(native_score(&pairs) != 0.0);
}

#[test]
fn same_costs_have_no_score() {
    let plans = vec![ran_in(1, 5.0, 1.0, 1), ran_in(2, 5.0, 1.0, 1), ran_in(3, 5.0, 1.0, 1)];
    assert_eq!(cost_rank_score(&plans), b64(0.0));
}

#[test]
fn deviations_are_those_of_the_machine() {
    let times = [123u64, 7, 991, 345, 345, 12];
    let measured: Vec<std::time::Duration> =
        times.iter().map(|t| std::time::Duration::from_micros(*t * 37)).collect();
    let mean: std::time::Duration = measured.iter().sum::<std::time::Duration>() / 6;
    let secs = mean.as_secs_f64();
    let variance: f64 = measured
        .iter()
        .map(|d| {
            let diff = d.as_secs_f64() - secs;
            diff * diff
        })
        .sum::<f64>()
        / 6.0;
    let stats = RuntimeStats::new(
        times.iter().map(|t| Duration::new(0, (*t * 37_000) as u32)).collect(),
    );
    assert_eq!(stats.mean.as_nanos(), mean.as_nanos());
    assert_eq!(
        stats.stddev.as_nanos(),
        std::time::Duration::from_secs_f64(variance.sqrt()).as_nanos()
    );
    assert_eq!(back(stats.cv_percent), variance.sqrt() / secs * 100.0);
    assert_eq!(stats.min.as_nanos(), 7 * 37_000);
    assert_eq!(stats.max.as_nanos(), 991 * 37_000);
}

#[test]
fn one_run_is_its_own_statistics() {
    for t in [0, 1, 100, 12345] {
        let a = RuntimeStats::new(vec![ms(t)]);
        let b = RuntimeStats::from_duration(ms(t));
        assert_eq!(a.measurements, b.measurements);
        assert_eq!((a.mean, a.stddev, a.min, a.max), (b.mean, b.stddev, b.min, b.max));
        assert_eq!(a.cv_percent, b.cv_percent);
    }
}

#[test]
fn measurements_that_are_too_long_have_no_statistics() {
    let most = Duration::new(u64::MAX, 0);
    assert!(RuntimeStats::checked_new(vec![most, most]).is_none());
    assert!(RuntimeStats::checked_new(vec![most]).is_some());
}

#[test]
fn runtimes_compare_both_ways() {
    let a = RuntimeStats::new(vec![ms(10), ms(12)]);
    let b = RuntimeStats::new(vec![ms(100), ms(120)]);
    let c = RuntimeStats::new(vec![ms(101), ms(119)]);
    assert_eq!(a.cmp(&b), Ordering::Less);
    assert_eq!(b.cmp(&a), Ordering::Greater);
    assert_eq!(b.cmp(&c), Ordering::Equal);
    assert_eq!(c.cmp(&b), Ordering::Equal);
    let half = b64(0.5);
    assert!(a.is_ahead(&b, half) && b.is_behind(&a, half) && !a.is_level(&b, half));
    assert!(!b.is_ahead(&c, half) && !b.is_behind(&c, half) && b.is_level(&c, half));
    assert!(b == c && c == b && a != b && b != a);
}

#[test]
fn q_errors_are_at_least_one() {
    for est in [0.0, 1e-300, 0.3, 1.0, 7.0, 99.99999999999999, 1e18, f64::INFINITY] {
        for act in [0usize, 1, 3, 7, 100, usize::MAX] {
            assert!(back(calculate_q_error(b64(est), act)) >= 1.0, "{est} {act}");
        }
    }
    assert_eq!(calculate_q_error(b64(12345.0), 12345), b64(1.0));
    // A negative estimate is not covered by that.
    assert_eq!(calculate_q_error(b64(-1.0), 1), b64(-1.0));
}

#[test]
fn mean_q_errors_skip_what_cannot_be_compared() {
    let plan = MeasuredPlan {
        plan: Plan::new(bench_empty(), b64s(&[1.0]), b64s(&[100.0, f64::NAN, f64::INFINITY, 8.0])),
        runtime: Err(MeasureError::Timeout),
        cardinalities: vec![
            Ok(300),
            Ok(1),
            Ok(1),
            Err(MeasureError::Died),
            Ok(5),
        ],
        sub_runtimes: None,
    };
    assert_eq!(calculate_avg_q_error(&plan), b64(3.0));
    let nothing = failed(1.0, 1.0);
    assert_eq!(calculate_avg_q_error(&nothing), b64(f64::MAX));
}

#[test]
fn reports_show_the_metrics() {
    let mut metrics = PerformanceMetrics::new();
    assert_eq!(
        metrics.report(),
        "\nPerformance Metrics:\nTotal execution time: 0.00s\nPlans measured: 0\nCache hit rate: 0.00%\nCache hits: 0\nCache misses: 0\nEarly stopping events: 0\nEstimated time saved by caching: 0.00s\nEstimated time saved by early stopping: 0.00s\n"
    );
    let other = PerformanceMetrics {
        total_time: ms(1234),
        plans_measured: 7,
        cache_hits: 1,
        cache_misses: 2,
        early_stops: 3,
        cache_time_saved: ms(555),
        early_stopping_time_saved: ms(100),
    };
    metrics.combine(&other);
    metrics.combine(&other);
    assert_eq!(
        report_performance_metrics(&metrics),
        "\nPerformance Metrics:\nTotal execution time: 2.47s\nPlans measured: 14\nCache hit rate: 33.33%\nCache hits: 2\nCache misses: 4\nEarly stopping events: 6\nEstimated time saved by caching: 1.11s\nEstimated time saved by early stopping: 0.20s\n"
    );
    let copy = get_performance_metrics(&metrics);
    assert_eq!(copy.plans_measured, 14);
    assert_eq!(copy.total_time, ms(2468));
    reset_performance_metrics(&mut metrics);
    assert_eq!(metrics.plans_measured, 0);
    assert_eq!(metrics.report(), PerformanceMetrics::default().report());
}

fn walk_tree() -> PlanNode {
    bench_node(
        "Join",
        vec![
            bench_node("Left", vec![bench_node("LeftScan", vec![])]),
            bench_node("Right", vec![]),
        ],
    )
}

#[test]
fn subplans_are_measured_in_preorder() {
    let tree = walk_tree();
    let cfg = BenchmarkConfig::default();
    let mut metrics = PerformanceMetrics::new();
    let mut walk = SubplanWalk::new(&tree);
    let mut names = vec![];
    let mut n = 0;
    while let Some(node) = walk.next() {
        names.push(node.name.clone());
        n += 1;
        walk.record(Ok((n, RuntimeStats::from_duration(ms(n as u64)))), &cfg, &mut metrics);
    }
    assert_eq!(names, ["Join", "Left", "LeftScan", "Right"]);
    assert_eq!(walk.cards, [Ok(1), Ok(2), Ok(3), Ok(4)]);
    assert_eq!(walk.times.len(), 4);
    assert_eq!(metrics.early_stops, 0);
}

#[test]
fn failures_stop_early_or_not() {
    let tree = walk_tree();
    let mut cfg = BenchmarkConfig::default();
    let mut metrics = PerformanceMetrics::new();
    let mut walk = SubplanWalk::new(&tree);
    let mut asked = 0;
    while let Some(node) = walk.next() {
        asked += 1;
        let outcome = if node.name == "Left" {
            Err(MeasureError::Timeout)
        } else {
            Ok((9, RuntimeStats::from_duration(ms(1))))
        };
        walk.record(outcome, &cfg, &mut metrics);
    }
    assert_eq!(asked, 3);
    assert_eq!(
        walk.cards,
        [Ok(9), Err(MeasureError::Timeout), Err(MeasureError::Timeout), Ok(9)]
    );
    assert!(walk.times[2].is_err());
    assert_eq!(metrics.early_stops, 1);
    assert_eq!(metrics.early_stopping_time_saved, ms(100));

    cfg.early_stopping = false;
    let mut walk = SubplanWalk::new(&tree);
    let mut asked = 0;
    while walk.next().is_some() {
        asked += 1;
        walk.record(Err(MeasureError::Died), &cfg, &mut metrics);
    }
    assert_eq!(asked, 4);
    assert_eq!(walk.cards.len(), 4);
    assert_eq!(metrics.early_stops, 1);
}

#[test]
fn costly_plans_are_not_run() {
    assert!(!is_too_costly(&bench_plan(25000000.0, 1.0)));
    assert!(is_too_costly(&bench_plan(25000000.1, 1.0)));
    assert!(!is_too_costly(&bench_plan(f64::NAN, 1.0)));
    let plan = Plan::new(walk_tree(), b64s(&[1e9]), vec![]);
    let measured = give_up(plan);
    assert!(matches!(measured.runtime, Err(MeasureError::Died)));
    assert_eq!(measured.cardinalities, vec![Err(MeasureError::Died); 4]);
    assert_eq!(measured.sub_runtimes.unwrap().len(), 4);

    let times = vec![Ok(RuntimeStats::from_duration(ms(5))), Err(MeasureError::Died)];
    let measured = measure_plan(
        bench_plan(1.0, 1.0),
        &BenchmarkConfig::default(),
        vec![Ok(3), Ok(4)],
        times,
    );
    assert_eq!(measured.runtime.unwrap().mean, ms(5));
    assert_eq!(measured.cardinalities, [Ok(3), Ok(4)]);
    assert_eq!(measured.sub_runtimes.unwrap().len(), 2);
}

#[test]
fn outcomes_are_kept_and_reused() {
    let cfg = BenchmarkConfig::default();
    let mut cache = PlanCache::new();
    let mut metrics = PerformanceMetrics::new();
    let tree = walk_tree();
    let keep = match plan_timing(&tree, &cfg, &mut cache) {
        Timing::Run(keep) => keep,
        Timing::Reuse(_) => panic!("nothing has been kept"),
    };
    assert_eq!(keep, Some(hash_plan(&tree)));
    let outcome: Outcome = Ok((42, RuntimeStats::from_duration(ms(70))));
    note_run(keep, &outcome, ms(80), &cfg, &mut cache, &mut metrics);
    assert_eq!((metrics.plans_measured, metrics.cache_misses, metrics.cache_hits), (1, 1, 0));
    match plan_timing(&walk_tree(), &cfg, &mut cache) {
        Timing::Reuse(kept) => {
            note_reuse(&kept, ms(1), &cfg, &mut metrics);
            let (card, stats) = kept.unwrap();
            assert_eq!(card, 42);
            assert_eq!(stats.mean, ms(70));
        }
        Timing::Run(_) => panic!("the outcome was kept"),
    }
    assert_eq!((metrics.plans_measured, metrics.cache_misses, metrics.cache_hits), (1, 1, 1));
    assert_eq!(metrics.total_time, ms(81));
    assert_eq!(metrics.cache_time_saved, ms(70));
    note_reuse(&Err(MeasureError::Died), ms(0), &cfg, &mut metrics);
    assert_eq!(metrics.cache_time_saved, ms(71));
    assert!(cache_log(&cache).is_none());
}

#[test]
fn caching_can_be_off() {
    let mut cfg = BenchmarkConfig::default();
    cfg.enable_cache = false;
    cfg.track_metrics = false;
    let mut cache = PlanCache::new();
    let mut metrics = PerformanceMetrics::new();
    assert!(matches!(plan_timing(&walk_tree(), &cfg, &mut cache), Timing::Run(None)));
    note_run(None, &Err(MeasureError::Died), ms(5), &cfg, &mut cache, &mut metrics);
    note_reuse(&Err(MeasureError::Died), ms(5), &cfg, &mut metrics);
    assert_eq!(metrics.total_time, ms(0));
    assert_eq!(cache.stats(), (0, 0, b64(0.0)));

    cfg.enable_cache = true;
    let mut large = bench_empty();
    for _ in 0..10 {
        large = bench_node("Limit", vec![large]);
    }
    assert!(matches!(plan_timing(&large, &cfg, &mut cache), Timing::Run(None)));
    assert_eq!(cache.stats(), (0, 0, b64(0.0)));
}

#[test]
fn cache_is_logged_now_and_then() {
    let mut cache = PlanCache::new();
    cache.insert(1, Err(MeasureError::Died));
    for i in 0..99 {
        cache.get(i % 3);
    }
    assert!(cache_log(&cache).is_none());
    cache.get(1);
    assert_eq!(
        cache_log(&cache).unwrap(),
        "Plan cache: 34 hits, 66 misses, 34.00% hit rate"
    );
}

#[test]
fn plans_run_until_enough_or_failed() {
    let mut cfg = BenchmarkConfig::default();
    let mut runs: Vec<RunResult> = vec![];
    assert!(wants_run(&runs, &cfg));
    runs.push(Ok((5, ms(30))));
    runs.push(Ok((6, ms(10))));
    assert!(wants_run(&runs, &cfg));
    runs.push(Ok((7, ms(20))));
    assert!(!wants_run(&runs, &cfg));
    let (card, stats) = summary(&runs, &cfg).unwrap();
    assert_eq!(card, 5);
    assert_eq!(stats.mean, ms(20));
    assert_eq!(stats.measurements, [ms(30), ms(10), ms(20)]);

    cfg.drop_outliers = true;
    let (card, stats) = summary(&runs, &cfg).unwrap();
    assert_eq!(card, 5);
    assert_eq!(stats.measurements, [ms(20)]);
    let two: Vec<RunResult> = vec![Ok((5, ms(30))), Ok((6, ms(10)))];
    assert_eq!(summary(&two, &cfg).unwrap().1.measurements.len(), 2);

    cfg.num_runs = 0;
    assert!(wants_run(&vec![], &cfg));
    assert!(!wants_run(&vec![Ok((1, ms(1)))], &cfg));
    let broken: Vec<RunResult> = vec![Ok((1, ms(1))), Err(MeasureError::Timeout)];
    cfg.num_runs = 9;
    assert!(!wants_run(&broken, &cfg));
    assert!(matches!(summary(&broken, &cfg), Err(MeasureError::Timeout)));
    assert!(matches!(summary(&vec![], &cfg), Err(MeasureError::Timeout)));
    let most = Duration::new(u64::MAX, 0);
    let endless: Vec<RunResult> = vec![Ok((1, most)), Ok((1, most))];
    assert!(checked_summary(&endless, &cfg).is_none());
}

#[test]
fn outliers_are_the_shortest_and_the_longest() {
    let mut cfg = BenchmarkConfig::default();
    cfg.drop_outliers = true;
    let runs: Vec<RunResult> =
        [9, 3, 7, 7, 1, 5].iter().map(|t| Ok((1, ms(*t)))).collect();
    let (_, stats) = summary(&runs, &cfg).unwrap();
    assert_eq!(stats.measurements, [ms(3), ms(5), ms(7), ms(7)]);
}

#[test]
fn runs_are_read_from_their_output() {
    let text = run_output(42, Duration::new(3, 7));
    assert_eq!(text, "[42,{\"secs\":3,\"nanos\":7}]");
    let back = run_result(Exit::Success, &text.clone().into_bytes());
    assert_eq!(back, Ok((42, Duration::new(3, 7))));
    assert_eq!(
        text,
        serde_json::to_string(&(42usize, std::time::Duration::new(3, 7))).unwrap()
    );
    assert_eq!(run_result(Exit::Failure, &text.clone().into_bytes()), Err(MeasureError::Died));
    assert_eq!(run_result(Exit::TimedOut, &text.into_bytes()), Err(MeasureError::Timeout));
    for bad in ["", "[1]", "[1,{\"secs\":1}]", "[-1,{\"secs\":1,\"nanos\":1}]", "[1,{\"secs\":1,\"nanos\":1}] 2"] {
        assert_eq!(run_result(Exit::Success, &bad.as_bytes().to_vec()), Err(MeasureError::Timeout));
    }
    let spaced = b" [ 1 , { \"nanos\" : 2000000001, \"secs\" : 1 } ] ".to_vec();
    assert_eq!(run_result(Exit::Success, &spaced), Ok((1, Duration::new(3, 1))));
    assert_eq!(parsed_run(Some((8, 1, 5))), Ok((8, Duration::new(1, 5))));
    assert_eq!(parsed_run(None), Err(MeasureError::Timeout));
    assert_eq!(cardinality(&vec![3, 0, 4]), 7);
    assert_eq!(cardinality(&vec![]), 0);
}

#[test]
fn plans_are_ranked_and_the_chosen_one_placed() {
    let (plans, idx) = place_chosen(
        ran_in(100, 1.0, 1.0, 1),
        vec![
            failed(1.0, 1.0),
            ran_in(300, 2.0, 1.0, 1),
            ran_in(100, 3.0, 1.0, 1),
            ran_in(50, 4.0, 1.0, 1),
            failed(5.0, 1.0),
        ],
    );
    let costs: Vec<f64> = plans.iter().map(|p| back(p.plan.est_costs[0])).collect();
    assert_eq!(idx, 2);
    assert_eq!(costs, [4.0, 3.0, 1.0, 2.0, 1.0, 5.0]);
    assert!(plans[4].runtime.is_err() && plans[5].runtime.is_err());

    let (plans, idx) =
        place_chosen(failed(9.0, 1.0), vec![ran_in(5, 1.0, 1.0, 1), failed(2.0, 1.0)]);
    let costs: Vec<f64> = plans.iter().map(|p| back(p.plan.est_costs[0])).collect();
    assert_eq!(idx, 1);
    assert_eq!(costs, [1.0, 9.0, 2.0]);

    let (plans, idx) = place_chosen(ran_in(500, 9.0, 1.0, 1), vec![ran_in(5, 1.0, 1.0, 1)]);
    assert_eq!((plans.len(), idx), (2, 1));
}

#[test]
fn queries_without_a_run_are_an_error() {
    let cfg = BenchmarkConfig::default();
    let r = benchmark("q".to_string(), failed(1.0, 1.0), vec![failed(2.0, 1.0)], &cfg, power_of_e);
    assert_eq!(r.err(), Some("no valid executions"));
    let out = benchmark(
        "q".to_string(),
        ran_in(10, 1.0, 50.0, 100),
        vec![failed(2.0, 1.0), ran_in(30, 3.0, 1.0, 1)],
        &cfg,
        power_of_e,
    )
    .ok()
    .unwrap();
    assert_eq!(out.name, "q");
    assert_eq!(out.chosen_idx, 0);
    assert_eq!(out.plans.len(), 3);
    assert_eq!(out.metrics.performance_factor, b64(1.0));
    assert_eq!(out.metrics.avg_q_error, b64(2.0));
    let pairs = [
        (std::time::Duration::from_millis(10), 1.0),
        (std::time::Duration::from_millis(30), 3.0),
    ];
    assert_eq!(back(out.metrics.taqo_score_s), native_score(&pairs));
}

#[test]
fn alternates_are_measured_by_cost() {
    let plans = vec![bench_plan(3.0, 1.0), bench_plan(-1.0, 2.0), bench_plan(3.0, 3.0), bench_plan(0.5, 4.0)];
    let cards: Vec<f64> =
        order_alternates(plans).iter().map(|p| back(p.est_cards[0])).collect();
    assert_eq!(cards, [2.0, 4.0, 1.0, 3.0]);
    let alone = order_alternates(vec![bench_plan(f64::NAN, 7.0)]);
    assert_eq!(alone.len(), 1);
}

#[test]
fn hashes_tell_plans_apart_by_names_and_schemas() {
    let a = bench_node("Sort", vec![bench_empty()]);
    let mut b = bench_node("Sort", vec![bench_empty()]);
    b.encoding = vec![1, 2, 3];
    assert_eq!(hash_plan(&a), hash_plan(&b));
    b.children[0].schema = "b: Utf8".to_string();
    assert_ne!(hash_plan(&a), hash_plan(&b));
}

#[test]
fn means_lie_between_the_extremes() {
    let stats = RuntimeStats::new(vec![ms(7), ms(3), ms(4)]);
    assert_eq!(stats.min, ms(3));
    assert_eq!(stats.max, ms(7));
    assert_eq!(stats.mean.as_nanos(), 14_000_000 / 3);
    assert!(stats.min < stats.mean && stats.mean < stats.max);
}

#[test]
fn accuracies_are_percentages() {
    for costs in [[1.0, 2.0, 3.0], [3.0, 2.0, 1.0], [5.0, 5.0, 5.0], [1e300, -1e300, 0.0]] {
        let plans: Vec<MeasuredPlan> =
            costs.iter().enumerate().map(|(i, c)| ran_in(10 + i as u64, *c, 1.0, 1)).collect();
        let (score, accuracy) = calculate_cost_rank_accuracy(&plans, power_of_e);
        assert!(back(score).is_finite());
        assert!(back(accuracy) >= 0.0 && back(accuracy) <= 100.0);
    }
    let same = vec![ran_in(1, 5.0, 1.0, 1), ran_in(2, 5.0, 1.0, 1)];
    assert_eq!(back(calculate_cost_rank_accuracy(&same, power_of_e).1), 100.0);
}

#[test]
fn fast_measuring_runs_only_the_plan() {
    let tree = walk_tree();
    let cfg = BenchmarkConfig { fast: true, ..BenchmarkConfig::default() };
    let mut metrics = PerformanceMetrics::new();
    let mut walk = SubplanWalk::new(&tree);
    assert_eq!(walk.next().unwrap().name, "Join");
    walk.record(Ok((7, RuntimeStats::from_duration(ms(5)))), &cfg, &mut metrics);
    assert!(walk.next().is_none());
    assert_eq!(walk.cards, [Ok(7)]);
    let measured = measure_plan(bench_plan(1.0, 1.0), &cfg, walk.cards, walk.times);
    assert_eq!(measured.runtime.unwrap().mean, ms(5));
    assert_eq!(measured.cardinalities, [Ok(7)]);
    assert!(measured.sub_runtimes.is_none());

    let mut walk = SubplanWalk::new(&tree);
    walk.record(Err(MeasureError::Died), &cfg, &mut metrics);
    assert!(walk.next().is_none());
    assert_eq!(walk.cards, vec![Err(MeasureError::Died); 4]);
    let cfg = BenchmarkConfig { early_stopping: false, ..cfg };
    let mut walk = SubplanWalk::new(&tree);
    walk.record(Err(MeasureError::Died), &cfg, &mut metrics);
    assert!(walk.next().is_none());
    assert_eq!(walk.cards, [Err(MeasureError::Died)]);
}

fn ran_like(times: &[u64], cost: f64) -> MeasuredPlan {
    let mut plan = ran_in(1, cost, 1.0, 1);
    plan.runtime = Ok(RuntimeStats::new(times.iter().map(|n| ms(*n)).collect()));
    plan
}

#[test]
fn the_configuration_tells_when_runtimes_are_level() {
    let chosen = || ran_like(&[108, 128], 1.0);
    let other = || ran_like(&[100, 120], 2.0);
    let run = |threshold: f64| {
        let cfg = BenchmarkConfig { overlap_threshold: b64(threshold), ..BenchmarkConfig::default() };
        benchmark("q".to_string(), chosen(), vec![other()], &cfg, power_of_e).ok().unwrap()
    };
    assert!(chosen().runtime.unwrap().overlaps_with(&other().runtime.unwrap(), b64(0.55)));
    assert!(!chosen().runtime.unwrap().overlaps_with(&other().runtime.unwrap(), b64(0.65)));
    for threshold in [0.0, 0.5, 0.55] {
        let out = run(threshold);
        assert_eq!(out.metrics.performance_factor, b64(1.0));
        assert_eq!(calculate_optimality_frequency(&vec![out]), b64(1.0));
    }
    for threshold in [0.65, 1.0] {
        let out = run(threshold);
        assert_eq!(out.chosen_idx, 1);
        assert_eq!(out.metrics.performance_factor, b64(0.5));
        assert_eq!(calculate_optimality_frequency(&vec![out]), b64(0.0));
    }
    let plans = vec![chosen(), other()];
    assert_eq!(share_no_better(ByRuntime { threshold: b64(0.9) }, &plans, 0), b64(0.5));
    assert_eq!(calculate_performance_factor(&plans, 0), b64(1.0));
}

#[test]
fn plans_level_with_the_best_are_optimal() {
    let summary =
        benchmark_for_testing(ran_like(&[102, 122], 1.0), vec![ran_like(&[100, 120], 2.0)], power_of_e);
    assert_eq!(*summary.get("perf_factor").unwrap(), b64(1.0));
    assert_eq!(*summary.get("optimality").unwrap(), b64(1.0));
    let summary = benchmark_for_testing(failed(1.0, 1.0), vec![ran_in(9, 2.0, 1.0, 1)], power_of_e);
    assert_eq!(*summary.get("optimality").unwrap(), b64(0.0));
}

#[test]
fn the_order_of_measurements_does_not_matter() {
    let a = RuntimeStats::new(vec![ms(7), ms(3), ms(4), ms(3)]);
    let b = RuntimeStats::new(vec![ms(3), ms(4), ms(7), ms(3)]);
    assert_eq!((a.mean, a.min, a.max), (b.mean, b.min, b.max));
}

#[test]
fn overlap_falls_with_the_threshold() {
    let a = RuntimeStats::new(vec![ms(108), ms(128)]);
    let b = RuntimeStats::new(vec![ms(100), ms(120)]);
    let far = RuntimeStats::new(vec![ms(900), ms(901)]);
    let mut before = true;
    for t in [-1.0, 0.0, 0.25, 0.5, 0.59, 0.61, 0.75, 1.0, 2.0] {
        let now = a.overlaps_with(&b, b64(t));
        assert!(before || !now);
        before = now;
        assert_eq!(now, b.overlaps_with(&a, b64(t)));
        assert_eq!(a.overlaps_with(&a, b64(t)), t <= 1.0);
        assert!(!a.overlaps_with(&far, b64(t)));
    }
    assert!(!before);
    let same_mean = RuntimeStats::new(vec![ms(117), ms(119)]);
    assert_eq!(a.cmp(&same_mean), Ordering::Equal);
    assert!(a.overlaps_with(&same_mean, b64(1.0)));
}

#[test]
fn failed_plans_leave_the_performance_factor() {
    let plans = vec![ran_in(10, 1.0, 1.0, 1), ran_in(90, 2.0, 1.0, 1), ran_in(50, 3.0, 1.0, 1)];
    assert_eq!(calculate_performance_factor(&plans, 1), b64(1.0 / 3.0));
    let more = vec![
        ran_in(10, 1.0, 1.0, 1),
        failed(4.0, 1.0),
        ran_in(90, 2.0, 1.0, 1),
        ran_in(50, 3.0, 1.0, 1),
        failed(5.0, 1.0),
    ];
    assert_eq!(calculate_performance_factor(&more, 2), b64(1.0 / 3.0));
}

#[test]
fn the_reverse_order_negates_the_score() {
    let times = [10, 25, 31, 47];
    let costs = [3.0, 1.0, 8.0, 2.5];
    let plan = |i: usize| ran_in(times[i], costs[i], 1.0, 1);
    let there: Vec<MeasuredPlan> = (0..4).map(plan).collect();
    let back_again: Vec<MeasuredPlan> = (0..4).rev().map(plan).collect();
    let (s, acc) = calculate_cost_rank_accuracy(&there, power_of_e);
    let (s2, acc2) = calculate_cost_rank_accuracy(&back_again, power_of_e);
    assert!(back(s) != 0.0);
    assert!((back(s) + back(s2)).abs() < 1e-15);
    assert!((back(acc) - back(acc2)).abs() < 1e-12);
}

#[test]
fn the_fastest_plans_come_first() {
    let cfg = BenchmarkConfig::default();
    let secs = |a: u64, b: u64, cost: f64| ran_like(&[a * 1000, b * 1000], cost);
    let alternates = || vec![secs(5, 11, 1.0), secs(3, 9, 2.0), failed(3.0, 1.0), secs(1, 7, 4.0)];
    let all = alternates();
    let stats: Vec<&RuntimeStats> = all.iter().filter_map(|p| p.runtime.as_ref().ok()).collect();
    assert!(stats[0] == stats[1] && stats[1] == stats[2] && stats[2] < stats[0]);

    let costs = |plans: &Vec<MeasuredPlan>| -> Vec<f64> {
        plans.iter().map(|p| back(p.plan.est_costs[0])).collect()
    };
    let out = benchmark("q".to_string(), failed(9.0, 1.0), alternates(), &cfg, power_of_e);
    let out = out.ok().unwrap();
    assert_eq!(costs(&out.plans), [4.0, 2.0, 1.0, 9.0, 3.0]);
    assert_eq!(out.chosen_idx, 3);
    let out = benchmark("q".to_string(), secs(4, 10, 9.0), alternates(), &cfg, power_of_e);
    let out = out.ok().unwrap();
    assert_eq!(costs(&out.plans), [4.0, 2.0, 9.0, 1.0, 3.0]);
    assert_eq!(out.chosen_idx, 2);
    for i in 0..3 {
        let (a, b) = (out.plans[i].runtime.as_ref(), out.plans[i + 1].runtime.as_ref());
        assert!(b.is_err() || a.ok().unwrap().mean <= b.ok().unwrap().mean);
    }
    assert_eq!(out.metrics.performance_factor, b64(1.0));
}

#[test]
fn only_exact_estimates_have_a_q_error_of_one() {
    for actual in [1usize, 2, 1000, (1 << 53) - 1, 1 << 53] {
        assert_eq!(calculate_q_error(b64(actual as f64), actual), b64(1.0));
        assert_ne!(calculate_q_error(b64((actual - 1) as f64), actual), b64(1.0));
        if actual < 1 << 53 {
            assert_ne!(calculate_q_error(b64((actual + 1) as f64), actual), b64(1.0));
        }
    }
}

#[test]
fn hashes_go_by_the_preorder_list() {
    let chain = bench_node("A", vec![bench_node("B", vec![bench_node("C", vec![])])]);
    let fork = bench_node("A", vec![bench_node("B", vec![]), bench_node("C", vec![])]);
    assert_eq!(hash_plan(&chain), hash_plan(&fork));
    let other = bench_node("A", vec![bench_node("C", vec![]), bench_node("B", vec![])]);
    assert_ne!(hash_plan(&chain), hash_plan(&other));
}

#[test]
fn measurements_that_add_up_to_a_span_have_a_deviation() {
    let zero = Duration::from_secs(0);
    let most = Duration::new(u64::MAX, 999_999_999);
    let half = Duration::from_secs(u64::MAX / 2);
    for times in [vec![most, zero], vec![zero, most, zero], vec![half, half], vec![most; 1]] {
        let native: Vec<f64> =
            times.iter().map(|d| d.as_secs() as f64 + d.subsec_nanos() as f64 / 1e9).collect();
        let stats = RuntimeStats::checked_new(times).unwrap();
        let n = native.len() as f64;
        let mean = native.iter().sum::<f64>() / n;
        let deviation = (native.iter().map(|x| (x - mean).powi(2)).sum::<f64>() / n).sqrt();
        let found = stats.stddev.as_secs() as f64;
        assert!((found - deviation).abs() <= deviation * 1e-12);
    }
}
