//! Statistics over repeated runs of one plan.
use std::cmp::Ordering;
use vstd::prelude::*;
use vstd::arithmetic::div_mod::{lemma_fundamental_div_mod, lemma_fundamental_div_mod_converse};
use vstd::seq_lib::to_multiset_remove;
use crate::benchmark::spread::lemma_measurable;
use crate::duration::{
    is_span, lemma_seconds, nearest_nanos, seconds, Duration, LIMIT, NANOS_PER_SEC,
};
use crate::float::arith::{lemma_nearest_zero, of_nat, one_unit};
use crate::float::encoding::{Float64, BINADE};
use crate::float::integers::{
    lemma_integer, lemma_integer_difference, lemma_integer_quotient, lemma_integer_root,
    lemma_integer_square, lemma_integer_sum,
};
use crate::float::monotone::{lemma_of_nat, lemma_one, lemma_sign};
use crate::float::same::{
    alike, lemma_difference_alike, lemma_difference_self, lemma_larger_alike,
    lemma_quotient_alike, lemma_smaller_alike, lemma_zero_product, lemma_zero_quotient,
};
use crate::float::sums::{lemma_difference_rounded, lemma_rounded_encoded, lemma_sum_rounded};
use crate::spans::lemma_whole_seconds;

verus! {

/// Encoding of one half.
pub const HALF: u64 = 0x3fe0_0000_0000_0000;

/// Encoding of one hundred.
pub const HUNDRED: u64 = 0x4059_0000_0000_0000;

/// Statistics over the runs of a plan.
#[derive(Debug)]
pub struct RuntimeStats {
    /// Individual measurements.
    pub measurements: Vec<Duration>,
    /// Mean runtime.
    pub mean: Duration,
    /// Standard deviation.
    pub stddev: Duration,
    /// Minimum runtime.
    pub min: Duration,
    /// Maximum runtime.
    pub max: Duration,
    /// Coefficient of variation: the standard deviation as a percentage of the mean.
    pub cv_percent: Float64,
}

/// What statistics hold.
#[verifier::ext_equal]
pub struct RuntimeModel {
    /// Individual measurements.
    pub measurements: Seq<Duration>,
    /// Mean runtime.
    pub mean: Duration,
    /// Standard deviation.
    pub stddev: Duration,
    /// Minimum runtime.
    pub min: Duration,
    /// Maximum runtime.
    pub max: Duration,
    /// Coefficient of variation.
    pub cv_percent: Float64,
}

impl View for RuntimeStats {
    type V = RuntimeModel;

    open spec fn view(&self) -> RuntimeModel {
        RuntimeModel {
            measurements: self.measurements@,
            mean: self.mean,
            stddev: self.stddev,
            min: self.min,
            max: self.max,
            cv_percent: self.cv_percent,
        }
    }
}

impl Clone for RuntimeStats {
    fn clone(&self) -> (r: RuntimeStats)
        ensures
            r@ == self@,
    {
        RuntimeStats {
            measurements: self.measurements.clone(),
            mean: self.mean,
            stddev: self.stddev,
            min: self.min,
            max: self.max,
            cv_percent: self.cv_percent,
        }
    }
}

/// All measurements together, in nanoseconds.
pub open spec fn total_nanos(s: Seq<Duration>) -> nat
    decreases s.len(),
{
    if s.len() == 0 {
        0
    } else {
        total_nanos(s.drop_last()) + s.last()@
    }
}

/// What the sum is divided by for the mean: the number of measurements as a 32 bit number.
pub open spec fn divisor(s: Seq<Duration>) -> nat {
    s.len() % 0x1_0000_0000
}

/// The mean, in whole nanoseconds.
pub open spec fn mean_nanos(s: Seq<Duration>) -> nat {
    total_nanos(s) / divisor(s)
}

/// The squares of the distances of the first `n` measurements from `mean` seconds, added up in
/// order.
pub open spec fn squared_deviations(s: Seq<Duration>, mean: Float64, n: nat) -> Float64
    decreases n,
{
    if n == 0 {
        Float64 { bits: 0 }
    } else {
        let d = seconds(s[n - 1]@).difference(mean);
        squared_deviations(s, mean, (n - 1) as nat).sum(d.product(d))
    }
}

/// The standard deviation, in seconds.
pub open spec fn deviation_secs(s: Seq<Duration>) -> Float64 {
    squared_deviations(s, seconds(mean_nanos(s)), s.len()).quotient(of_nat(s.len())).root()
}

/// The standard deviation as a percentage of the mean.
pub open spec fn variation_percent(s: Seq<Duration>) -> Float64 {
    let mean = seconds(mean_nanos(s));
    if (Float64 { bits: 0 }).below(mean) {
        deviation_secs(s).quotient(mean).product(Float64 { bits: HUNDRED })
    } else {
        Float64 { bits: 0 }
    }
}

/// Whether the measurements have a mean and a standard deviation that are spans of time.
pub open spec fn measurable(s: Seq<Duration>) -> bool {
    s.len() > 0 ==> divisor(s) > 0 && total_nanos(s) < LIMIT && is_span(deviation_secs(s))
}

/// Whether `d` is the least of the measurements.
pub open spec fn is_least(d: Duration, s: Seq<Duration>) -> bool {
    &&& forall|i: int| 0 <= i < s.len() ==> d@ <= #[trigger] s[i]@
    &&& exists|i: int| 0 <= i < s.len() && #[trigger] s[i] == d
}

/// Whether `d` is the greatest of the measurements.
pub open spec fn is_greatest(d: Duration, s: Seq<Duration>) -> bool {
    &&& forall|i: int| 0 <= i < s.len() ==> #[trigger] s[i]@ <= d@
    &&& exists|i: int| 0 <= i < s.len() && #[trigger] s[i] == d
}

/// Whether two intervals overlap, by at least `threshold` of the narrower one. Each is given by the
/// number in its middle and by its ends. Two intervals without width overlap where they are the
/// same.
#[verifier::opaque]
pub open spec fn bounds_overlap(
    a: (Float64, Float64, Float64),
    b: (Float64, Float64, Float64),
    same: bool,
    threshold: Float64,
) -> bool {
    let zero = Float64 { bits: 0 };
    let (mid_a, low_a, high_a) = a;
    let (mid_b, low_b, high_b) = b;
    let range_a = high_a.difference(low_a);
    let range_b = high_b.difference(low_b);
    let narrower = range_a.smaller(range_b);
    if high_a.below(low_b) || high_b.below(low_a) {
        false
    } else if narrower.same_number(zero) {
        if range_a.same_number(zero) && range_b.same_number(zero) {
            same
        } else if range_a.same_number(zero) {
            low_b.at_most(mid_a) && mid_a.at_most(high_b)
        } else if range_b.same_number(zero) {
            low_a.at_most(mid_b) && mid_b.at_most(high_a)
        } else {
            false
        }
    } else {
        threshold.at_most(
            high_a.smaller(high_b).difference(low_a.larger(low_b)).quotient(narrower),
        )
    }
}

/// A mean in seconds, and the ends of the interval of one deviation around it.
pub open spec fn interval(mean: nat, dev: nat) -> (Float64, Float64, Float64) {
    (
        seconds(mean),
        seconds(mean).difference(seconds(dev)),
        seconds(mean).sum(seconds(dev)),
    )
}

/// Whether the intervals of one standard deviation around two means overlap, by at least
/// `threshold` of the narrower one.
#[verifier::opaque]
pub open spec fn intervals_overlap(
    mean_a: nat,
    dev_a: nat,
    mean_b: nat,
    dev_b: nat,
    threshold: Float64,
) -> bool {
    bounds_overlap(interval(mean_a, dev_a), interval(mean_b, dev_b), mean_a == mean_b, threshold)
}

impl RuntimeStats {
    /// Whether this describes `s`.
    pub open spec fn describes(self, s: Seq<Duration>) -> bool {
        &&& self.measurements@ == s
        &&& if s.len() == 0 {
            &&& self.mean@ == 0
            &&& self.stddev@ == 0
            &&& self.min@ == 0
            &&& self.max@ == 0
            &&& self.cv_percent == (Float64 { bits: 0 })
        } else {
            &&& self.mean@ == mean_nanos(s)
            &&& self.stddev@ == nearest_nanos(deviation_secs(s))
            &&& is_least(self.min, s)
            &&& is_greatest(self.max, s)
            &&& self.cv_percent == variation_percent(s)
        }
    }

    /// Whether two runtimes are level: they come of the same measurements, or their intervals
    /// overlap by at least `threshold` of the narrower one.
    pub open spec fn level(self, other: RuntimeStats, threshold: Float64) -> bool {
        ||| self.measurements@ == other.measurements@
        ||| intervals_overlap(self.mean@, self.stddev@, other.mean@, other.stddev@, threshold)
    }

    /// Whether this runtime counts as shorter than `other`, given the threshold from which they are
    /// level.
    pub open spec fn ahead(self, other: RuntimeStats, threshold: Float64) -> bool {
        !self.level(other, threshold) && self.mean@ < other.mean@
    }

    /// Whether this runtime counts as longer than `other`, given the threshold from which they are
    /// level.
    pub open spec fn behind(self, other: RuntimeStats, threshold: Float64) -> bool {
        !self.level(other, threshold) && self.mean@ > other.mean@
    }

    /// Whether two runtimes count as the same: they are level where the threshold is one half.
    pub open spec fn same_runtime(self, other: RuntimeStats) -> bool {
        self.level(other, Float64 { bits: HALF })
    }

    /// Whether this runtime counts as shorter than `other`.
    pub open spec fn faster(self, other: RuntimeStats) -> bool {
        self.ahead(other, Float64 { bits: HALF })
    }

    /// Whether this runtime counts as longer than `other`.
    pub open spec fn slower(self, other: RuntimeStats) -> bool {
        self.behind(other, Float64 { bits: HALF })
    }

    /// Statistics over `measurements`, where their mean and deviation are spans of time.
    pub fn checked_new(measurements: Vec<Duration>) -> (r: Option<RuntimeStats>)
        ensures
            match r {
                Some(stats) => measurable(measurements@) && stats.describes(measurements@),
                None => !measurable(measurements@),
            },
    {
        let zero: Duration = Duration::from_secs(0);
        let count: usize = measurements.len();
        if count == 0 {
            return Some(
                RuntimeStats {
                    measurements,
                    mean: zero,
                    stddev: zero,
                    min: zero,
                    max: zero,
                    cv_percent: Float64 { bits: 0 },
                },
            );
        }
        let ghost s = measurements@;
        let n: u32 = (count as u64 % 0x1_0000_0000) as u32;
        if n == 0 {
            return None;
        }
        let sum: Duration = match total(&measurements) {
            Some(sum) => sum,
            None => {
                return None;
            },
        };
        let (min, max): (Duration, Duration) = extremes(&measurements);
        let mean: Duration = sum.part(n);
        let mean_secs: Float64 = mean.as_secs_f64();
        let mut squares: Float64 = Float64 { bits: 0 };
        let mut j: usize = 0;
        while j < count
            invariant
                j <= count,
                count == measurements.len(),
                s == measurements@,
                squares == squared_deviations(s, mean_secs, j as nat),
            decreases count - j,
        {
            let d: Float64 = measurements[j].as_secs_f64().minus(mean_secs);
            squares = squares.plus(d.times(d));
            j = j + 1;
        }
        let stddev_secs: Float64 = squares.over(Float64::from_u64(count as u64)).sqrt();
        let stddev: Duration = match Duration::try_from_secs_f64(stddev_secs) {
            Some(d) => d,
            None => {
                return None;
            },
        };
        let cv_percent: Float64 = if (Float64 { bits: 0 }).lt(mean_secs) {
            stddev_secs.over(mean_secs).times(Float64 { bits: HUNDRED })
        } else {
            Float64 { bits: 0 }
        };
        Some(RuntimeStats { measurements, mean, stddev, min, max, cv_percent })
    }

    /// Statistics over `measurements`, which together are a span of time. Where there are more than
    /// can be counted in 32 bits, their mean and deviation have to be spans of time too.
    pub fn new(measurements: Vec<Duration>) -> (r: RuntimeStats)
        requires
            total_nanos(measurements@) < LIMIT,
            measurements@.len() >= 0x1_0000_0000 ==> measurable(measurements@),
        ensures
            r.describes(measurements@),
    {
        proof {
            if measurements@.len() < 0x1_0000_0000 {
                lemma_measurable(measurements@);
            }
        }
        RuntimeStats::checked_new(measurements).unwrap()
    }

    /// The statistics of a single run.
    pub fn from_duration(duration: Duration) -> (r: RuntimeStats)
        ensures
            r.measurements@ == seq![duration],
            r.mean == duration,
            r.stddev@ == 0,
            r.min == duration,
            r.max == duration,
            r.cv_percent == (Float64 { bits: 0 }),
    {
        let mut measurements: Vec<Duration> = Vec::new();
        measurements.push(duration);
        RuntimeStats {
            measurements,
            mean: duration,
            stddev: Duration::from_secs(0),
            min: duration,
            max: duration,
            cv_percent: Float64 { bits: 0 },
        }
    }

    /// Whether this runtime's interval overlaps with another's by at least
    /// `significance_threshold` of the narrower one.
    pub fn overlaps_with(&self, other: &RuntimeStats, significance_threshold: Float64) -> (r: bool)
        ensures
            r == intervals_overlap(
                self.mean@,
                self.stddev@,
                other.mean@,
                other.stddev@,
                significance_threshold,
            ),
    {
        proof {
            reveal(intervals_overlap);
            reveal(bounds_overlap);
        }
        let zero: Float64 = Float64 { bits: 0 };
        let self_mean: Float64 = self.mean.as_secs_f64();
        let other_mean: Float64 = other.mean.as_secs_f64();
        let self_low: Float64 = self_mean.minus(self.stddev.as_secs_f64());
        let self_high: Float64 = self_mean.plus(self.stddev.as_secs_f64());
        let other_low: Float64 = other_mean.minus(other.stddev.as_secs_f64());
        let other_high: Float64 = other_mean.plus(other.stddev.as_secs_f64());
        if self_high.lt(other_low) || other_high.lt(self_low) {
            return false;
        }
        let overlap_start: Float64 = self_low.max(other_low);
        let overlap_end: Float64 = self_high.min(other_high);
        let overlap_length: Float64 = overlap_end.minus(overlap_start);
        let self_range: Float64 = self_high.minus(self_low);
        let other_range: Float64 = other_high.minus(other_low);
        let min_range: Float64 = self_range.min(other_range);
        if min_range.num_eq(zero) {
            if self_range.num_eq(zero) && other_range.num_eq(zero) {
                return self.mean.same(&other.mean);
            }
            if self_range.num_eq(zero) {
                return other_low.le(self_mean) && self_mean.le(other_high);
            }
            if other_range.num_eq(zero) {
                return self_low.le(other_mean) && other_mean.le(self_high);
            }
            return false;
        }
        significance_threshold.le(overlap_length.over(min_range))
    }

    /// Whether two runtimes are level.
    pub fn is_level(&self, other: &RuntimeStats, threshold: Float64) -> (r: bool)
        ensures
            r == self.level(*other, threshold),
    {
        same_measurements(&self.measurements, &other.measurements) || self.overlaps_with(
            other,
            threshold,
        )
    }

    /// Whether this runtime counts as shorter than `other`, given the threshold from which they are
    /// level.
    pub fn is_ahead(&self, other: &RuntimeStats, threshold: Float64) -> (r: bool)
        ensures
            r == self.ahead(*other, threshold),
    {
        !self.is_level(other, threshold) && self.mean.shorter(&other.mean)
    }

    /// Whether this runtime counts as longer than `other`, given the threshold from which they are
    /// level.
    pub fn is_behind(&self, other: &RuntimeStats, threshold: Float64) -> (r: bool)
        ensures
            r == self.behind(*other, threshold),
    {
        !self.is_level(other, threshold) && other.mean.shorter(&self.mean)
    }

    /// Whether two runtimes count as the same.
    pub fn same_as(&self, other: &RuntimeStats) -> (r: bool)
        ensures
            r == self.same_runtime(*other),
    {
        self.is_level(other, Float64 { bits: HALF })
    }

    /// The order of two runtimes.
    pub fn cmp(&self, other: &RuntimeStats) -> (r: Ordering)
        ensures
            r == runtime_order(*self, *other),
    {
        if self.is_ahead(other, Float64 { bits: HALF }) {
            Ordering::Less
        } else if self.is_behind(other, Float64 { bits: HALF }) {
            Ordering::Greater
        } else {
            Ordering::Equal
        }
    }
}

/// The order of two runtimes: equal where they count as the same, otherwise that of the means.
pub open spec fn runtime_order(a: RuntimeStats, b: RuntimeStats) -> Ordering {
    if a.faster(b) {
        Ordering::Less
    } else if a.slower(b) {
        Ordering::Greater
    } else {
        Ordering::Equal
    }
}

impl PartialEq for RuntimeStats {
    fn eq(&self, other: &RuntimeStats) -> (r: bool) {
        self.same_as(other)
    }
}

impl vstd::std_specs::cmp::PartialEqSpecImpl for RuntimeStats {
    open spec fn obeys_eq_spec() -> bool {
        true
    }

    open spec fn eq_spec(&self, other: &RuntimeStats) -> bool {
        self.same_runtime(*other)
    }
}

impl PartialOrd for RuntimeStats {
    fn partial_cmp(&self, other: &RuntimeStats) -> (r: Option<Ordering>) {
        Some(self.cmp(other))
    }
}

impl vstd::std_specs::cmp::PartialOrdSpecImpl for RuntimeStats {
    open spec fn obeys_partial_cmp_spec() -> bool {
        true
    }

    open spec fn partial_cmp_spec(&self, other: &RuntimeStats) -> Option<Ordering> {
        Some(runtime_order(*self, *other))
    }
}

/// All measurements together, where that is a span of time.
fn total(measurements: &Vec<Duration>) -> (r: Option<Duration>)
    ensures
        match r {
            Some(sum) => sum@ == total_nanos(measurements@) && total_nanos(measurements@) < LIMIT,
            None => total_nanos(measurements@) >= LIMIT,
        },
{
    let ghost s = measurements@;
    let mut sum: Duration = Duration::from_secs(0);
    let mut i: usize = 0;
    assert(s.take(0) =~= Seq::<Duration>::empty());
    while i < measurements.len()
        invariant
            i <= measurements.len(),
            s == measurements@,
            sum@ == total_nanos(s.take(i as int)),
            sum@ < LIMIT,
        decreases measurements.len() - i,
    {
        proof {
            assert(s.take(i + 1).drop_last() =~= s.take(i as int));
            lemma_total_monotone(s, (i + 1) as nat);
        }
        match sum.checked_add(measurements[i]) {
            Some(more) => {
                sum = more;
            },
            None => {
                return None;
            },
        }
        i = i + 1;
    }
    assert(s.take(i as int) =~= s);
    Some(sum)
}

/// The least and the greatest of the measurements.
fn extremes(measurements: &Vec<Duration>) -> (r: (Duration, Duration))
    requires
        measurements@.len() > 0,
    ensures
        is_least(r.0, measurements@),
        is_greatest(r.1, measurements@),
{
    let ghost s = measurements@;
    let mut least: usize = 0;
    let mut greatest: usize = 0;
    let mut i: usize = 1;
    while i < measurements.len()
        invariant
            1 <= i <= measurements.len(),
            s == measurements@,
            least < i,
            greatest < i,
            forall|k: int| 0 <= k < i ==> s[least as int]@ <= #[trigger] s[k]@,
            forall|k: int| 0 <= k < i ==> #[trigger] s[k]@ <= s[greatest as int]@,
        decreases measurements.len() - i,
    {
        if measurements[i].shorter(&measurements[least]) {
            least = i;
        }
        if measurements[greatest].shorter(&measurements[i]) {
            greatest = i;
        }
        i = i + 1;
    }
    assert(s[least as int] == measurements@[least as int]);
    (measurements[least], measurements[greatest])
}

/// Whether two lists hold the same spans in the same order.
fn same_measurements(a: &Vec<Duration>, b: &Vec<Duration>) -> (r: bool)
    ensures
        r == (a@ == b@),
{
    if a.len() != b.len() {
        return false;
    }
    let mut i: usize = 0;
    while i < a.len()
        invariant
            i <= a.len(),
            a.len() == b.len(),
            forall|k: int| 0 <= k < i ==> a@[k] == b@[k],
        decreases a.len() - i,
    {
        if !a[i].same(&b[i]) {
            assert(a@[i as int] != b@[i as int]);
            return false;
        }
        i = i + 1;
    }
    assert(a@ =~= b@);
    true
}

/// Whether intervals overlap does not depend on which comes first.
pub proof fn lemma_overlap_symmetric(
    mean_a: nat,
    dev_a: nat,
    mean_b: nat,
    dev_b: nat,
    threshold: Float64,
)
    ensures
        intervals_overlap(mean_a, dev_a, mean_b, dev_b, threshold) == intervals_overlap(
            mean_b,
            dev_b,
            mean_a,
            dev_a,
            threshold,
        ),
{
    reveal(intervals_overlap);
    reveal(bounds_overlap);
    let low_a = seconds(mean_a).difference(seconds(dev_a));
    let high_a = seconds(mean_a).sum(seconds(dev_a));
    let low_b = seconds(mean_b).difference(seconds(dev_b));
    let high_b = seconds(mean_b).sum(seconds(dev_b));
    let range_a = high_a.difference(low_a);
    let range_b = high_b.difference(low_b);
    lemma_overlap_share_symmetric(low_a, high_a, low_b, high_b, range_a, range_b, threshold);
}

proof fn lemma_overlap_share_symmetric(
    low_a: Float64,
    high_a: Float64,
    low_b: Float64,
    high_b: Float64,
    range_a: Float64,
    range_b: Float64,
    threshold: Float64,
)
    ensures
        alike(range_a.smaller(range_b), range_b.smaller(range_a)),
        !range_a.smaller(range_b).same_number(Float64 { bits: 0 }) ==> threshold.at_most(
            high_a.smaller(high_b).difference(low_a.larger(low_b)).quotient(
                range_a.smaller(range_b),
            ),
        ) == threshold.at_most(
            high_b.smaller(high_a).difference(low_b.larger(low_a)).quotient(
                range_b.smaller(range_a),
            ),
        ),
{
    let narrower = range_a.smaller(range_b);
    lemma_smaller_alike(range_a, range_b);
    lemma_smaller_alike(high_a, high_b);
    lemma_larger_alike(low_a, low_b);
    lemma_difference_alike(
        high_a.smaller(high_b),
        low_a.larger(low_b),
        high_b.smaller(high_a),
        low_b.larger(low_a),
    );
    if !narrower.same_number(Float64 { bits: 0 }) {
        lemma_sign(narrower);
        lemma_quotient_alike(
            high_a.smaller(high_b).difference(low_a.larger(low_b)),
            narrower,
            high_b.smaller(high_a).difference(low_b.larger(low_a)),
            range_b.smaller(range_a),
        );
    }
}

/// Which runtimes are level, shorter or longer does not depend on which comes first: two runtimes
/// are level both ways, and one is shorter than the other exactly if the other is longer. Every
/// runtime is level with itself.
pub proof fn lemma_level_order(a: RuntimeStats, b: RuntimeStats, threshold: Float64)
    ensures
        a.level(a, threshold),
        a.level(b, threshold) == b.level(a, threshold),
        a.ahead(b, threshold) == b.behind(a, threshold),
        !(a.ahead(b, threshold) && b.ahead(a, threshold)),
{
    lemma_overlap_symmetric(a.mean@, a.stddev@, b.mean@, b.stddev@, threshold);
}

proof fn lemma_total_between(s: Seq<Duration>, least: nat, greatest: nat)
    requires
        forall|i: int| 0 <= i < s.len() ==> least <= #[trigger] s[i]@ <= greatest,
    ensures
        s.len() * least <= total_nanos(s) <= s.len() * greatest,
    decreases s.len(),
{
    if s.len() > 0 {
        let n = (s.len() - 1) as nat;
        assert forall|i: int| 0 <= i < n implies least <= #[trigger] s.drop_last()[i]@
            <= greatest by {
            assert(s.drop_last()[i] == s[i]);
        }
        lemma_total_between(s.drop_last(), least, greatest);
        assert(least <= s[n as int]@ <= greatest);
        assert(s.len() * least == n * least + least && s.len() * greatest == n * greatest
            + greatest) by (nonlinear_arith)
            requires
                s.len() == n + 1,
        ;
    }
}

proof fn lemma_mean_nanos_between(s: Seq<Duration>, least: nat, greatest: nat)
    requires
        0 < s.len() < 0x1_0000_0000,
        forall|i: int| 0 <= i < s.len() ==> least <= #[trigger] s[i]@ <= greatest,
    ensures
        least <= mean_nanos(s) <= greatest,
{
    let n = s.len();
    let t = total_nanos(s);
    lemma_total_between(s, least, greatest);
    lemma_fundamental_div_mod(t as int, n as int);
    let q = t / n;
    let r = t % n;
    assert(divisor(s) == n);
    assert(least <= q <= greatest) by (nonlinear_arith)
        requires
            t == n * q + r,
            0 <= r < n,
            n * least <= t <= n * greatest,
    ;
}

/// The mean lies between the least and the greatest measurement.
pub proof fn lemma_mean_between(stats: RuntimeStats, s: Seq<Duration>)
    requires
        stats.describes(s),
        s.len() < 0x1_0000_0000,
    ensures
        stats.min@ <= stats.mean@ <= stats.max@,
{
    if s.len() > 0 {
        lemma_mean_nanos_between(s, stats.min@, stats.max@);
    }
}

/// The deviation of a number from itself is zero.
proof fn lemma_no_deviation(x: Float64)
    requires
        x.finite(),
        !x.negative(),
    ensures
        (Float64 { bits: 0 }).sum(x.difference(x).product(x.difference(x))).quotient(
            of_nat(1),
        ).root() == (Float64 { bits: 0 }),
{
    let zero = Float64 { bits: 0 };
    lemma_difference_self(x);
    lemma_sign(zero);
    lemma_zero_product(zero);
    assert(zero.sum(zero) == zero);
    lemma_one();
    lemma_of_nat(1);
    lemma_zero_quotient(of_nat(1));
}

/// No deviation is no percentage of anything.
proof fn lemma_no_variation(x: Float64)
    requires
        x.finite(),
    ensures
        (Float64 { bits: 0 }).below(x) ==> (Float64 { bits: 0 }).quotient(x).product(
            Float64 { bits: HUNDRED },
        ) == (Float64 { bits: 0 }),
{
    lemma_sign(Float64 { bits: 0 });
    if (Float64 { bits: 0 }).below(x) {
        lemma_zero_quotient(x);
        lemma_zero_product(Float64 { bits: HUNDRED });
    }
}

/// The deviation and the variation of a single measurement are zero.
pub proof fn lemma_single_deviation(d: Duration)
    requires
        d@ < LIMIT,
    ensures
        mean_nanos(seq![d]) == d@,
        deviation_secs(seq![d]) == (Float64 { bits: 0 }),
        variation_percent(seq![d]) == (Float64 { bits: 0 }),
{
    let s = seq![d];
    let x = seconds(d@);
    assert(s.drop_last() =~= Seq::<Duration>::empty());
    assert(total_nanos(s.drop_last()) == 0);
    assert(divisor(s) == 1);
    lemma_seconds(d@);
    lemma_no_deviation(x);
    lemma_no_variation(x);
    let e = x.difference(x);
    assert(squared_deviations(s, x, 0) == (Float64 { bits: 0 }));
    assert(squared_deviations(s, x, 1) == (Float64 { bits: 0 }).sum(e.product(e)));
}

/// No seconds are a span of no nanoseconds.
pub proof fn lemma_no_span()
    ensures
        is_span(Float64 { bits: 0 }),
        nearest_nanos(Float64 { bits: 0 }) == 0,
{
    lemma_sign(Float64 { bits: 0 });
    lemma_one();
    assert(0 * NANOS_PER_SEC as nat == 0) by (nonlinear_arith);
    lemma_fundamental_div_mod_converse(0, one_unit() as int, 0, 0);
}

/// The statistics over a single measurement are those of a single run.
pub proof fn lemma_single_run(d: Duration, stats: RuntimeStats)
    requires
        d@ < LIMIT,
        stats.describes(seq![d]),
    ensures
        measurable(seq![d]),
        stats.mean == d,
        stats.stddev@ == 0,
        stats.min == d,
        stats.max == d,
        stats.cv_percent == (Float64 { bits: 0 }),
{
    let s = seq![d];
    lemma_single_deviation(d);
    lemma_no_span();
    Duration::lemma_same(stats.mean, d);
    assert(total_nanos(s) == d@) by {
        assert(s.drop_last() =~= Seq::<Duration>::empty());
        assert(total_nanos(s.drop_last()) == 0);
    }
}

proof fn lemma_total_remove(s: Seq<Duration>, k: int)
    requires
        0 <= k < s.len(),
    ensures
        total_nanos(s) == total_nanos(s.remove(k)) + s[k]@,
    decreases s.len(),
{
    if k == s.len() - 1 {
        assert(s.remove(k) =~= s.drop_last());
    } else {
        lemma_total_remove(s.drop_last(), k);
        assert(s.remove(k).drop_last() =~= s.drop_last().remove(k));
        assert(s.remove(k).last() == s.last());
    }
}

/// The order of measurements does not matter to what they take together.
proof fn lemma_total_any_order(s: Seq<Duration>, t: Seq<Duration>)
    requires
        s.to_multiset() == t.to_multiset(),
    ensures
        s.len() == t.len(),
        total_nanos(s) == total_nanos(t),
    decreases s.len(),
{
    s.to_multiset_ensures();
    t.to_multiset_ensures();
    if s.len() > 0 {
        let x = s.last();
        assert(s[s.len() - 1] == x);
        assert(s.to_multiset().count(x) > 0);
        assert(t.contains(x));
        let k = choose|k: int| 0 <= k < t.len() && t[k] == x;
        to_multiset_remove(t, k);
        to_multiset_remove(s, s.len() - 1);
        assert(s.remove(s.len() - 1) =~= s.drop_last());
        lemma_total_any_order(s.drop_last(), t.remove(k));
        lemma_total_remove(t, k);
    }
}

/// The same measurements have the same mean, minimum and maximum in any order.
pub proof fn lemma_any_order(
    a: RuntimeStats,
    s: Seq<Duration>,
    b: RuntimeStats,
    t: Seq<Duration>,
)
    requires
        a.describes(s),
        b.describes(t),
        s.to_multiset() == t.to_multiset(),
    ensures
        a.mean == b.mean,
        a.min == b.min,
        a.max == b.max,
{
    lemma_total_any_order(s, t);
    s.to_multiset_ensures();
    t.to_multiset_ensures();
    if s.len() > 0 {
        lemma_extremes_any_order(a, s, b, t);
        lemma_extremes_any_order(b, t, a, s);
    }
    Duration::lemma_same(a.mean, b.mean);
    Duration::lemma_same(a.min, b.min);
    Duration::lemma_same(a.max, b.max);
}

proof fn lemma_extremes_any_order(
    a: RuntimeStats,
    s: Seq<Duration>,
    b: RuntimeStats,
    t: Seq<Duration>,
)
    requires
        is_least(a.min, s),
        is_greatest(a.max, s),
        is_least(b.min, t),
        is_greatest(b.max, t),
        s.to_multiset() == t.to_multiset(),
    ensures
        b.min@ <= a.min@,
        a.max@ <= b.max@,
{
    s.to_multiset_ensures();
    t.to_multiset_ensures();
    let i = choose|i: int| 0 <= i < s.len() && #[trigger] s[i] == a.min;
    assert(s.contains(a.min));
    assert(s.to_multiset().count(a.min) > 0);
    assert(t.contains(a.min));
    let j = choose|j: int| 0 <= j < t.len() && t[j] == a.min;
    assert(b.min@ <= t[j]@);
    let i = choose|i: int| 0 <= i < s.len() && #[trigger] s[i] == a.max;
    assert(s.contains(a.max));
    assert(s.to_multiset().count(a.max) > 0);
    assert(t.contains(a.max));
    let j = choose|j: int| 0 <= j < t.len() && t[j] == a.max;
    assert(t[j]@ <= b.max@);
}

/// A part of the measurements does not take longer than all of them.
proof fn lemma_total_monotone(s: Seq<Duration>, n: nat)
    requires
        n <= s.len(),
    ensures
        total_nanos(s.take(n as int)) <= total_nanos(s),
    decreases s.len() - n,
{
    if n == s.len() {
        assert(s.take(n as int) =~= s);
    } else {
        lemma_total_monotone(s, n + 1);
        assert(s.take((n + 1) as int).drop_last() =~= s.take(n as int));
    }
}

/// As many times the mean as there are measurements is what they take together, but for less than a
/// nanosecond for each.
pub proof fn lemma_mean(s: Seq<Duration>)
    requires
        0 < s.len() < 0x1_0000_0000,
    ensures
        s.len() * mean_nanos(s) <= total_nanos(s) < s.len() * (mean_nanos(s) + 1),
{
    let n = s.len();
    let t = total_nanos(s);
    lemma_fundamental_div_mod(t as int, n as int);
    let q = t / n;
    let r = t % n;
    assert(n * q <= t < n * (q + 1)) by (nonlinear_arith)
        requires
            t == n * q + r,
            0 <= r < n,
    ;
}

/// What two lists of measurements take together is what each takes, added up.
pub proof fn lemma_total_joined(s: Seq<Duration>, t: Seq<Duration>)
    ensures
        total_nanos(s + t) == total_nanos(s) + total_nanos(t),
        forall|d: Duration| total_nanos(#[trigger] seq![d]) == d@,
    decreases t.len(),
{
    assert forall|d: Duration| total_nanos(#[trigger] seq![d]) == d@ by {
        assert(seq![d].drop_last() =~= Seq::<Duration>::empty());
        assert(total_nanos(seq![d].drop_last()) == 0);
    }
    if t.len() == 0 {
        assert(s + t =~= s);
    } else {
        lemma_total_joined(s, t.drop_last());
        assert((s + t).drop_last() =~= s + t.drop_last());
        assert((s + t).last() == t.last());
    }
}

proof fn lemma_same_squares(s: Seq<Duration>, x: Float64, k: nat)
    requires
        k <= s.len(),
        x.finite(),
        !x.negative(),
        forall|i: int| 0 <= i < s.len() ==> seconds((#[trigger] s[i])@) == x,
    ensures
        squared_deviations(s, x, k) == (Float64 { bits: 0 }),
    decreases k,
{
    if k > 0 {
        lemma_same_squares(s, x, (k - 1) as nat);
        assert(seconds(s[k - 1]@) == x);
        lemma_zero_step(x);
        let d = x.difference(x);
        assert(squared_deviations(s, x, k) == (Float64 { bits: 0 }).sum(d.product(d)));
    }
}

proof fn lemma_zero_step(x: Float64)
    requires
        x.finite(),
        !x.negative(),
    ensures
        (Float64 { bits: 0 }).sum(x.difference(x).product(x.difference(x))) == (Float64 { bits: 0 }),
{
    let zero = Float64 { bits: 0 };
    lemma_difference_self(x);
    lemma_sign(zero);
    lemma_zero_product(zero);
    assert(zero.sum(zero) == zero);
}

/// Measurements that all took the same have that as their mean, and neither deviation nor
/// variation.
pub proof fn lemma_same_measurements(s: Seq<Duration>, d: Duration, stats: RuntimeStats)
    requires
        0 < s.len() < 0x1_0000_0000,
        d@ < LIMIT,
        forall|i: int| 0 <= i < s.len() ==> #[trigger] s[i] == d,
        stats.describes(s),
    ensures
        stats.mean@ == d@,
        stats.stddev@ == 0,
        stats.min == d,
        stats.max == d,
        stats.cv_percent == (Float64 { bits: 0 }),
{
    let n = s.len();
    let x = seconds(d@);
    lemma_mean_nanos_between(s, d@, d@);
    lemma_seconds(d@);
    assert forall|i: int| 0 <= i < n implies seconds((#[trigger] s[i])@) == x by {
        assert(s[i] == d);
    }
    lemma_same_squares(s, x, n);
    lemma_one();
    lemma_of_nat(n);
    lemma_sign(Float64 { bits: 0 });
    lemma_zero_quotient(of_nat(n));
    lemma_no_variation(x);
    lemma_no_span();
}

/// A runtime without deviation and one with a deviation are level exactly if the former lies within
/// the interval of the latter.
pub proof fn lemma_point_in_interval(mean_a: nat, mean_b: nat, dev_b: nat, threshold: Float64)
    requires
        mean_a < LIMIT,
        mean_b < LIMIT,
        dev_b < LIMIT,
        ({
            let b = interval(mean_b, dev_b);
            let width = b.2.difference(b.1);
            b.1.finite() && b.2.finite() && width.finite() && width.value() > 0
        }),
    ensures
        intervals_overlap(mean_a, 0, mean_b, dev_b, threshold) <==> {
            &&& seconds(mean_b).difference(seconds(dev_b)).value() <= seconds(mean_a).value()
            &&& seconds(mean_a).value() <= seconds(mean_b).sum(seconds(dev_b)).value()
        },
{
    let a = interval(mean_a, 0);
    let b = interval(mean_b, dev_b);
    lemma_seconds(mean_a);
    lemma_no_width(seconds(mean_a));
    lemma_seconds_zero();
    lemma_point_bounds(a, b, mean_a == mean_b, threshold);
    reveal(intervals_overlap);
}

proof fn lemma_point_bounds(
    a: (Float64, Float64, Float64),
    b: (Float64, Float64, Float64),
    same: bool,
    threshold: Float64,
)
    requires
        a.0.finite() && a.1.finite() && a.2.finite(),
        b.1.finite() && b.2.finite(),
        a.1.value() == a.0.value() == a.2.value(),
        a.2.difference(a.1).same_number(Float64 { bits: 0 }),
        b.2.difference(b.1).finite(),
        b.2.difference(b.1).value() > 0,
    ensures
        bounds_overlap(a, b, same, threshold) <==> b.1.value() <= a.0.value() <= b.2.value(),
{
    let zero = Float64 { bits: 0 };
    let narrow = a.2.difference(a.1);
    let wide = b.2.difference(b.1);
    lemma_sign(zero);
    assert(narrow.smaller(wide) == narrow);
    assert(!wide.same_number(zero));
    reveal(bounds_overlap);
}

proof fn lemma_seconds_zero()
    ensures
        seconds(0) == (Float64 { bits: 0 }),
{
    let g = NANOS_PER_SEC as nat;
    let zero = Float64 { bits: 0 };
    lemma_one();
    assert(0nat / g == 0 && 0nat % g == 0);
    assert(0 * one_unit() == 0) by (nonlinear_arith);
    lemma_nearest_zero(1);
    assert(of_nat(0) == zero);
    lemma_of_nat(g);
    lemma_sign(zero);
    lemma_zero_quotient(of_nat(g));
}

proof fn lemma_no_width(x: Float64)
    requires
        x.finite(),
        !x.negative(),
    ensures
        x.sum(Float64 { bits: 0 }).value() == x.value(),
        x.difference(Float64 { bits: 0 }).value() == x.value(),
        x.sum(Float64 { bits: 0 }).finite(),
        x.difference(Float64 { bits: 0 }).finite(),
        x.sum(Float64 { bits: 0 }).difference(x.difference(Float64 { bits: 0 })).same_number(
            Float64 { bits: 0 },
        ),
{
    let zero = Float64 { bits: 0 };
    lemma_sign(zero);
    lemma_rounded_encoded(x);
    lemma_sum_rounded(x, zero, x.magnitude());
    lemma_difference_rounded(x, zero, x.magnitude());
    let a = x.sum(zero);
    let b = x.difference(zero);
    assert(b.negated().value() == -b.value());
}

/// Runtimes without any deviation overlap exactly if they are the same.
pub proof fn lemma_points_overlap(mean_a: nat, mean_b: nat, threshold: Float64)
    requires
        mean_a < LIMIT,
        mean_b < LIMIT,
    ensures
        intervals_overlap(mean_a, 0, mean_b, 0, threshold) <==> mean_a == mean_b,
{
    lemma_seconds_zero();
    lemma_seconds(mean_a);
    lemma_seconds(mean_b);
    lemma_no_width(seconds(mean_a));
    lemma_no_width(seconds(mean_b));
    lemma_sign(Float64 { bits: 0 });
    lemma_two_points(
        interval(mean_a, 0),
        interval(mean_b, 0),
        mean_a == mean_b,
        threshold,
    );
    reveal(intervals_overlap);
}

proof fn lemma_two_points(
    a: (Float64, Float64, Float64),
    b: (Float64, Float64, Float64),
    same: bool,
    threshold: Float64,
)
    requires
        a.1.finite() && a.2.finite() && a.1.value() == a.2.value(),
        b.1.finite() && b.2.finite() && b.1.value() == b.2.value(),
        a.2.difference(a.1).same_number(Float64 { bits: 0 }),
        b.2.difference(b.1).same_number(Float64 { bits: 0 }),
        same ==> a.1.value() == b.1.value(),
    ensures
        bounds_overlap(a, b, same, threshold) <==> same,
{
    let zero = Float64 { bits: 0 };
    let range_a = a.2.difference(a.1);
    let range_b = b.2.difference(b.1);
    assert(range_a.smaller(range_b).same_number(zero));
    reveal(bounds_overlap);
}

/// The deviation of measurements that each lie as many whole seconds above or below their mean is
/// that distance, and their variation is its share of the mean in percent.
pub proof fn lemma_deviation_is_distance(s: Seq<Duration>, mean: nat, d: nat)
    requires
        s.len() > 0,
        mean + d < 2 * BINADE,
        s.len() < 2 * BINADE,
        d * d < 2 * BINADE,
        (d * d) * s.len() < 2 * BINADE,
        mean_nanos(s) == mean * NANOS_PER_SEC,
        forall|i: int|
            0 <= i < s.len() ==> {
                ||| (#[trigger] s[i])@ == (mean + d) * NANOS_PER_SEC
                ||| s[i]@ == (mean - d) * NANOS_PER_SEC
            },
    ensures
        deviation_secs(s) == of_nat(d),
        nearest_nanos(deviation_secs(s)) == d * NANOS_PER_SEC,
        mean > 0 ==> variation_percent(s) == of_nat(d).quotient(of_nat(mean)).product(
            Float64 { bits: HUNDRED },
        ),
        mean == 0 ==> variation_percent(s) == (Float64 { bits: 0 }),
{
    let zero = Float64 { bits: 0 };
    let at = seconds(mean_nanos(s));
    lemma_whole_seconds(mean);
    lemma_whole_seconds(d);
    assert(at == of_nat(mean));
    assert(deviation_secs(s) == of_nat(d)) by {
        lemma_squares_of_distance(s, mean, d, s.len());
        lemma_integer_quotient(d * d, s.len());
        lemma_integer_root(d);
    }
    assert(seconds(d * NANOS_PER_SEC as nat) == of_nat(d));
    assert(zero.below(at) <==> mean > 0) by {
        lemma_integer(mean);
        lemma_sign(zero);
        lemma_one();
        assert(mean > 0 ==> mean * one_unit() > 0) by (nonlinear_arith)
            requires
                one_unit() > 0,
        ;
        assert(0 * one_unit() == 0) by (nonlinear_arith);
    }
}

proof fn lemma_squares_of_distance(s: Seq<Duration>, mean: nat, d: nat, n: nat)
    requires
        n <= s.len(),
        mean + d < 2 * BINADE,
        d * d < 2 * BINADE,
        (d * d) * s.len() < 2 * BINADE,
        forall|i: int|
            0 <= i < s.len() ==> {
                ||| (#[trigger] s[i])@ == (mean + d) * NANOS_PER_SEC
                ||| s[i]@ == (mean - d) * NANOS_PER_SEC
            },
    ensures
        squared_deviations(s, of_nat(mean), n) == of_nat((d * d) * n),
    decreases n,
{
    let q = d * d;
    if n == 0 {
        assert(q * 0 == 0) by (nonlinear_arith);
        lemma_integer(0);
    } else {
        let k = (n - 1) as nat;
        lemma_squares_of_distance(s, mean, d, k);
        let x = s[n - 1]@;
        if x == (mean + d) * NANOS_PER_SEC {
            lemma_whole_seconds(mean + d);
            lemma_integer_difference(mean + d, mean);
        } else {
            assert(mean >= d) by (nonlinear_arith)
                requires
                    x == (mean - d) * NANOS_PER_SEC,
                    x >= 0,
                    NANOS_PER_SEC > 0,
            ;
            lemma_whole_seconds((mean - d) as nat);
            lemma_integer_difference((mean - d) as nat, mean);
        }
        if d == 0 {
            lemma_integer(0);
        }
        lemma_integer_square(seconds(x).difference(of_nat(mean)), d);
        assert(q * k + q == q * n && q * n <= q * s.len()) by (nonlinear_arith)
            requires
                n == k + 1,
                n <= s.len(),
        ;
        lemma_integer_sum(q * k, q);
    }
}

} // verus!
