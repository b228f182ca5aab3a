//! What measuring has cost, and what it has been spared.
use vstd::prelude::*;
use vstd::string::*;
use crate::benchmark::accuracy::lemma_full_accuracy;
use crate::benchmark::reversal::lemma_product_commutes;
use crate::benchmark::stats::HUNDRED;
use crate::duration::{seconds, Duration, LIMIT};
use crate::float::arith::{lemma_nearest_zero, of_nat, one_unit};
use crate::float::encoding::Float64;
use crate::float::known::lemma_known_numbers;
use crate::float::monotone::{lemma_of_nat, lemma_one, lemma_quotient_same, lemma_sign};
use crate::float::order::ONE;
use crate::float::same::{lemma_zero_product, lemma_zero_quotient};
use crate::text::{decimal, push_decimal};

verus! {

/// What measuring plans has cost, and what it has been spared.
#[derive(Clone, Copy, Debug)]
pub struct PerformanceMetrics {
    /// Total execution time.
    pub total_time: Duration,
    /// Number of plans measured.
    pub plans_measured: usize,
    /// Number of cache hits.
    pub cache_hits: usize,
    /// Number of cache misses.
    pub cache_misses: usize,
    /// Number of early stopping events.
    pub early_stops: usize,
    /// Total time saved by cache hits (estimated).
    pub cache_time_saved: Duration,
    /// Total time saved by early stopping (estimated).
    pub early_stopping_time_saved: Duration,
}

impl Default for PerformanceMetrics {
    fn default() -> (r: PerformanceMetrics)
        ensures
            r.is_zero(),
    {
        PerformanceMetrics {
            total_time: Duration::from_secs(0),
            plans_measured: 0,
            cache_hits: 0,
            cache_misses: 0,
            early_stops: 0,
            cache_time_saved: Duration::from_secs(0),
            early_stopping_time_saved: Duration::from_secs(0),
        }
    }
}

impl PerformanceMetrics {
    /// Whether nothing has been measured.
    pub open spec fn is_zero(self) -> bool {
        &&& self.total_time@ == 0
        &&& self.plans_measured == 0
        &&& self.cache_hits == 0
        &&& self.cache_misses == 0
        &&& self.early_stops == 0
        &&& self.cache_time_saved@ == 0
        &&& self.early_stopping_time_saved@ == 0
    }

    /// Whether these metrics are those of `a` and `b` together.
    pub open spec fn is_sum(self, a: PerformanceMetrics, b: PerformanceMetrics) -> bool {
        &&& self.total_time@ == a.total_time@ + b.total_time@
        &&& self.plans_measured == a.plans_measured + b.plans_measured
        &&& self.cache_hits == a.cache_hits + b.cache_hits
        &&& self.cache_misses == a.cache_misses + b.cache_misses
        &&& self.early_stops == a.early_stops + b.early_stops
        &&& self.cache_time_saved@ == a.cache_time_saved@ + b.cache_time_saved@
        &&& self.early_stopping_time_saved@ == a.early_stopping_time_saved@
            + b.early_stopping_time_saved@
    }

    /// Whether these metrics and `other` together fit into their counters.
    pub open spec fn fits(self, other: PerformanceMetrics) -> bool {
        &&& self.total_time@ + other.total_time@ < LIMIT
        &&& self.plans_measured + other.plans_measured <= usize::MAX
        &&& self.cache_hits + other.cache_hits <= usize::MAX
        &&& self.cache_misses + other.cache_misses <= usize::MAX
        &&& self.early_stops + other.early_stops <= usize::MAX
        &&& self.cache_time_saved@ + other.cache_time_saved@ < LIMIT
        &&& self.early_stopping_time_saved@ + other.early_stopping_time_saved@ < LIMIT
    }

    /// The percentage of the lookups that found an outcome.
    pub open spec fn hit_percentage(self) -> Float64 {
        if self.cache_hits + self.cache_misses > 0 {
            of_nat(self.cache_hits as nat).quotient(
                of_nat((self.cache_hits + self.cache_misses) as nat),
            ).product(Float64 { bits: HUNDRED })
        } else {
            Float64 { bits: 0 }
        }
    }

    /// The report on these metrics.
    pub open spec fn report_text(self) -> Seq<char> {
        "\nPerformance Metrics:\nTotal execution time: "@ + seconds(self.total_time@).fixed(2)
            + "s\nPlans measured: "@ + decimal(self.plans_measured as nat)
            + "\nCache hit rate: "@ + self.hit_percentage().fixed(2) + "%\nCache hits: "@ + decimal(
            self.cache_hits as nat,
        ) + "\nCache misses: "@ + decimal(self.cache_misses as nat) + "\nEarly stopping events: "@
            + decimal(self.early_stops as nat) + "\nEstimated time saved by caching: "@ + seconds(
            self.cache_time_saved@,
        ).fixed(2) + "s\nEstimated time saved by early stopping: "@ + seconds(
            self.early_stopping_time_saved@,
        ).fixed(2) + "s\n"@
    }

    /// Metrics before anything has been measured.
    pub fn new() -> (r: PerformanceMetrics)
        ensures
            r.is_zero(),
    {
        PerformanceMetrics::default()
    }

    /// The report on these metrics.
    pub fn report(&self) -> (r: String)
        requires
            self.cache_hits + self.cache_misses <= usize::MAX,
        ensures
            r@ == self.report_text(),
    {
        let lookups: usize = self.cache_hits + self.cache_misses;
        let cache_hit_rate: Float64 = if lookups > 0 {
            Float64::from_u64(self.cache_hits as u64).over(Float64::from_u64(lookups as u64)).times(
                Float64 { bits: HUNDRED },
            )
        } else {
            Float64 { bits: 0 }
        };
        let mut out: String = "\nPerformance Metrics:\nTotal execution time: ".to_owned();
        self.total_time.as_secs_f64().push_fixed(&mut out, 2);
        out.append("s\nPlans measured: ");
        push_decimal(&mut out, self.plans_measured as u128);
        out.append("\nCache hit rate: ");
        cache_hit_rate.push_fixed(&mut out, 2);
        out.append("%\nCache hits: ");
        push_decimal(&mut out, self.cache_hits as u128);
        out.append("\nCache misses: ");
        push_decimal(&mut out, self.cache_misses as u128);
        out.append("\nEarly stopping events: ");
        push_decimal(&mut out, self.early_stops as u128);
        out.append("\nEstimated time saved by caching: ");
        self.cache_time_saved.as_secs_f64().push_fixed(&mut out, 2);
        out.append("s\nEstimated time saved by early stopping: ");
        self.early_stopping_time_saved.as_secs_f64().push_fixed(&mut out, 2);
        out.append("s\n");
        out
    }

    /// Adds other metrics to these.
    pub fn combine(&mut self, other: &PerformanceMetrics)
        requires
            old(self).fits(*other),
        ensures
            final(self).is_sum(*old(self), *other),
    {
        self.total_time = self.total_time.plus(other.total_time);
        self.plans_measured = self.plans_measured + other.plans_measured;
        self.cache_hits = self.cache_hits + other.cache_hits;
        self.cache_misses = self.cache_misses + other.cache_misses;
        self.early_stops = self.early_stops + other.early_stops;
        self.cache_time_saved = self.cache_time_saved.plus(other.cache_time_saved);
        self.early_stopping_time_saved = self.early_stopping_time_saved.plus(
            other.early_stopping_time_saved,
        );
    }
}

/// The metrics as they stand.
pub fn get_performance_metrics(metrics: &PerformanceMetrics) -> (r: PerformanceMetrics)
    ensures
        r == *metrics,
{
    *metrics
}

/// Starts the metrics anew.
pub fn reset_performance_metrics(metrics: &mut PerformanceMetrics)
    ensures
        final(metrics).is_zero(),
{
    *metrics = PerformanceMetrics::new();
}

/// The report on the metrics as they stand.
pub fn report_performance_metrics(metrics: &PerformanceMetrics) -> (r: String)
    requires
        metrics.cache_hits + metrics.cache_misses <= usize::MAX,
    ensures
        r@ == metrics.report_text(),
{
    metrics.report()
}

/// Adding fresh metrics changes nothing.
pub proof fn lemma_fresh_is_neutral(
    a: PerformanceMetrics,
    zero: PerformanceMetrics,
    sum: PerformanceMetrics,
)
    requires
        zero.is_zero(),
        sum.is_sum(a, zero),
    ensures
        sum == a,
{
    Duration::lemma_same(sum.total_time, a.total_time);
    Duration::lemma_same(sum.cache_time_saved, a.cache_time_saved);
    Duration::lemma_same(sum.early_stopping_time_saved, a.early_stopping_time_saved);
}

/// In which order metrics are added does not matter.
pub proof fn lemma_sum_commutes(
    a: PerformanceMetrics,
    b: PerformanceMetrics,
    ab: PerformanceMetrics,
    ba: PerformanceMetrics,
)
    requires
        ab.is_sum(a, b),
        ba.is_sum(b, a),
    ensures
        ab == ba,
{
    Duration::lemma_same(ab.total_time, ba.total_time);
    Duration::lemma_same(ab.cache_time_saved, ba.cache_time_saved);
    Duration::lemma_same(ab.early_stopping_time_saved, ba.early_stopping_time_saved);
}

/// The hit percentage is that of the lookups which found an outcome: zero where none did or there
/// were none, and one hundred where all did.
pub proof fn lemma_hit_percentage(m: PerformanceMetrics)
    requires
        m.cache_hits + m.cache_misses <= usize::MAX,
    ensures
        m.cache_hits == 0 ==> m.hit_percentage() == (Float64 { bits: 0 }),
        m.cache_hits > 0 && m.cache_misses == 0 ==> m.hit_percentage() == (Float64 {
            bits: HUNDRED,
        }),
        m.cache_hits + m.cache_misses > 0 ==> m.hit_percentage() == of_nat(
            m.cache_hits as nat,
        ).quotient(of_nat((m.cache_hits + m.cache_misses) as nat)).product(
            Float64 { bits: HUNDRED },
        ),
{
    let n = (m.cache_hits + m.cache_misses) as nat;
    lemma_one();
    lemma_known_numbers();
    lemma_sign(Float64 { bits: 0 });
    if n > 0 {
        lemma_of_nat(n);
        if m.cache_hits == 0 {
            assert(0 * one_unit() == 0) by (nonlinear_arith);
            lemma_nearest_zero(1);
            lemma_zero_quotient(of_nat(n));
            lemma_zero_product(Float64 { bits: HUNDRED });
        } else if m.cache_misses == 0 {
            lemma_quotient_same(of_nat(n));
            lemma_full_accuracy();
            lemma_product_commutes(Float64 { bits: ONE }, Float64 { bits: HUNDRED });
        }
    }
}

/// Metrics that were added up can be told apart again: two parts of the same sum that agree in one
/// part agree in the other.
pub proof fn lemma_sum_cancels(
    a: PerformanceMetrics,
    b: PerformanceMetrics,
    c: PerformanceMetrics,
    sum: PerformanceMetrics,
)
    requires
        sum.is_sum(a, b),
        sum.is_sum(a, c),
    ensures
        b == c,
{
    Duration::lemma_same(b.total_time, c.total_time);
    Duration::lemma_same(b.cache_time_saved, c.cache_time_saved);
    Duration::lemma_same(b.early_stopping_time_saved, c.early_stopping_time_saved);
}

} // verus!
