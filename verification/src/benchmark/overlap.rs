//! When runtimes count as the same.
use std::cmp::Ordering;
use vstd::prelude::*;
use vstd::arithmetic::power2::pow2;
use vstd::arithmetic::power2::{
    lemma2_to64_rest, lemma_pow2_adds, lemma_pow2_pos, lemma_pow2_unfold,
};
use crate::benchmark::stats::{
    bounds_overlap, interval, intervals_overlap, lemma_level_order, lemma_overlap_symmetric,
    runtime_order, RuntimeStats, HALF,
};
use crate::duration::{lemma_seconds, seconds, LIMIT};
use crate::float::encoding::{lemma_magnitude_value_monotone, magnitude_value, Float64, BINADE};
use crate::float::monotone::{lemma_one, lemma_quotient_same, lemma_sign};
use crate::float::order::ONE;
use crate::float::sums::{
    lemma_difference_rounded, lemma_rounded_encoded, lemma_rounded_monotone, lemma_sum_rounded,
    rounded,
};

verus! {

/// Intervals that overlap enough for a threshold do so for every smaller one.
pub proof fn lemma_overlap_monotone(
    mean_a: nat,
    dev_a: nat,
    mean_b: nat,
    dev_b: nat,
    threshold: Float64,
    smaller: Float64,
)
    requires
        smaller.at_most(threshold),
        intervals_overlap(mean_a, dev_a, mean_b, dev_b, threshold),
    ensures
        intervals_overlap(mean_a, dev_a, mean_b, dev_b, smaller),
{
    reveal(intervals_overlap);
    reveal(bounds_overlap);
}

/// Intervals of which one ends before the other begins do not overlap, whatever the threshold.
pub proof fn lemma_disjoint(mean_a: nat, dev_a: nat, mean_b: nat, dev_b: nat, threshold: Float64)
    requires
        seconds(mean_a).sum(seconds(dev_a)).below(seconds(mean_b).difference(seconds(dev_b))),
    ensures
        !intervals_overlap(mean_a, dev_a, mean_b, dev_b, threshold),
        !intervals_overlap(mean_b, dev_b, mean_a, dev_a, threshold),
{
    reveal(intervals_overlap);
    reveal(bounds_overlap);
}

/// The magnitude of `2^68`, beyond which no end of an interval and no width lies.
spec fn beyond() -> nat {
    0x4430_0000_0000_0000
}

proof fn lemma_beyond()
    ensures
        magnitude_value(beyond()) == 8 * pow2(1139),
        pow2(1139) > 0,
{
    let m = beyond();
    assert(m / BINADE as nat == 1091 && m % BINADE as nat == 0);
    lemma2_to64_rest();
    lemma_pow2_adds(52, 1090);
    lemma_pow2_unfold(1142);
    lemma_pow2_unfold(1141);
    lemma_pow2_unfold(1140);
    lemma_pow2_pos(1139);
}

/// The interval of `dev` around `mean`, whose ends are numbers with `mean` between them, and its
/// width.
proof fn lemma_interval(mean: nat, dev: nat)
    requires
        mean < LIMIT,
        dev < LIMIT,
    ensures
        ({
            let x = seconds(mean);
            let d = seconds(dev);
            let low = x.difference(d);
            let high = x.sum(d);
            let range = high.difference(low);
            &&& low.finite() && high.finite() && range.finite() && x.finite()
            &&& low.value() == rounded(x.value() - d.value())
            &&& high.value() == rounded(x.value() + d.value())
            &&& range.value() == rounded(high.value() - low.value())
            &&& low.value() <= x.value() <= high.value()
            &&& 0 <= range.value()
        }),
{
    lemma_seconds(mean);
    lemma_seconds(dev);
    lemma_ends(seconds(mean), seconds(dev));
}

proof fn lemma_ends(x: Float64, d: Float64)
    requires
        x.finite(),
        d.finite(),
        0 <= x.value() <= pow2(1139),
        0 <= d.value() <= pow2(1139),
    ensures
        ({
            let low = x.difference(d);
            let high = x.sum(d);
            let range = high.difference(low);
            &&& low.finite() && high.finite() && range.finite()
            &&& low.value() == rounded(x.value() - d.value())
            &&& high.value() == rounded(x.value() + d.value())
            &&& range.value() == rounded(high.value() - low.value())
            &&& low.value() <= x.value() <= high.value()
            &&& 0 <= range.value()
        }),
{
    let low = x.difference(d);
    let high = x.sum(d);
    lemma_beyond();
    lemma_difference_rounded(x, d, beyond());
    lemma_sum_rounded(x, d, beyond());
    lemma_rounded_encoded(x);
    lemma_rounded_monotone(x.value() - d.value(), x.value());
    lemma_rounded_monotone(x.value(), x.value() + d.value());
    lemma_ends_bounded(x.value(), d.value());
    lemma_difference_rounded(high, low, beyond());
    lemma_rounded_encoded(Float64 { bits: 0 });
    lemma_sign(Float64 { bits: 0 });
    lemma_rounded_monotone(0, high.value() - low.value());
}

/// What the encodings of `2^66` and of `-2^65` stand for.
proof fn lemma_far_ends()
    ensures
        (Float64 { bits: 0x4410_0000_0000_0000 }).value() == 2 * pow2(1139),
        !(Float64 { bits: 0x4410_0000_0000_0000 }).nan(),
        (Float64 { bits: 0xc400_0000_0000_0000 }).value() == -pow2(1139),
        !(Float64 { bits: 0xc400_0000_0000_0000 }).nan(),
{
    let m: nat = 0x4410_0000_0000_0000;
    let n: nat = 0x4400_0000_0000_0000;
    assert(m / BINADE as nat == 1089 && m % BINADE as nat == 0);
    assert(n / BINADE as nat == 1088 && n % BINADE as nat == 0);
    lemma2_to64_rest();
    lemma_pow2_adds(52, 1088);
    lemma_pow2_adds(52, 1087);
    lemma_pow2_unfold(1140);
}

/// Sums and differences of what is not far from zero are not either.
proof fn lemma_ends_bounded(x: int, d: int)
    requires
        0 <= x <= pow2(1139),
        0 <= d <= pow2(1139),
    ensures
        rounded(x + d) <= 2 * pow2(1139),
        -pow2(1139) <= rounded(x - d),
{
    let top = Float64 { bits: 0x4410_0000_0000_0000 };
    let bottom = Float64 { bits: 0xc400_0000_0000_0000 };
    lemma_far_ends();
    lemma_rounded_encoded(top);
    lemma_rounded_encoded(bottom);
    lemma_rounded_monotone(x + d, top.value());
    lemma_rounded_monotone(bottom.value(), x - d);
}

/// Intervals around the same mean overlap by the whole of the narrower one.
pub proof fn lemma_same_mean_overlaps(mean: nat, dev_a: nat, dev_b: nat, threshold: Float64)
    requires
        mean < LIMIT,
        dev_a < LIMIT,
        dev_b < LIMIT,
        threshold.at_most(Float64 { bits: ONE }),
    ensures
        intervals_overlap(mean, dev_a, mean, dev_b, threshold),
{
    if seconds(dev_a).value() <= seconds(dev_b).value() {
        lemma_inner_overlaps(mean, dev_a, dev_b, threshold);
    } else {
        lemma_inner_overlaps(mean, dev_b, dev_a, threshold);
        lemma_overlap_symmetric(mean, dev_b, mean, dev_a, threshold);
    }
}

/// Of two intervals around the same mean, that of the smaller deviation lies within the other.
proof fn lemma_nested(mean: nat, dev_a: nat, dev_b: nat)
    requires
        mean < LIMIT,
        dev_a < LIMIT,
        dev_b < LIMIT,
        seconds(dev_a).value() <= seconds(dev_b).value(),
    ensures
        ({
            let x = seconds(mean);
            let low_a = x.difference(seconds(dev_a));
            let high_a = x.sum(seconds(dev_a));
            let low_b = x.difference(seconds(dev_b));
            let high_b = x.sum(seconds(dev_b));
            let range_a = high_a.difference(low_a);
            let range_b = high_b.difference(low_b);
            &&& low_b.value() <= low_a.value() <= x.value() <= high_a.value() <= high_b.value()
            &&& 0 <= range_a.value() <= range_b.value()
        }),
{
    let x = seconds(mean).value();
    let a = seconds(dev_a).value();
    let b = seconds(dev_b).value();
    lemma_interval(mean, dev_a);
    lemma_interval(mean, dev_b);
    lemma_rounded_monotone(x - b, x - a);
    lemma_rounded_monotone(x + a, x + b);
    lemma_rounded_monotone(rounded(x + a) - rounded(x - a), rounded(x + b) - rounded(x - b));
}

/// An interval that lies within another overlaps with it by its whole width.
proof fn lemma_inner_bounds(
    mid: Float64,
    low_a: Float64,
    high_a: Float64,
    low_b: Float64,
    high_b: Float64,
    threshold: Float64,
)
    requires
        mid.finite() && low_a.finite() && high_a.finite() && high_a.difference(low_a).finite(),
        low_b.finite() && high_b.finite() && high_b.difference(low_b).finite(),
        low_b.value() <= low_a.value() <= mid.value() <= high_a.value() <= high_b.value(),
        0 <= high_a.difference(low_a).value() <= high_b.difference(low_b).value(),
        threshold.at_most(Float64 { bits: ONE }),
    ensures
        bounds_overlap((mid, low_a, high_a), (mid, low_b, high_b), true, threshold),
{
    reveal(bounds_overlap);
    let range_a = high_a.difference(low_a);
    let range_b = high_b.difference(low_b);
    assert(range_a.smaller(range_b) == range_a);
    assert(high_a.smaller(high_b) == high_a);
    assert(low_a.larger(low_b) == low_a);
    lemma_sign(Float64 { bits: 0 });
    if range_a.value() > 0 {
        lemma_quotient_same(range_a);
    }
}

proof fn lemma_inner_overlaps(mean: nat, dev_a: nat, dev_b: nat, threshold: Float64)
    requires
        mean < LIMIT,
        dev_a < LIMIT,
        dev_b < LIMIT,
        seconds(dev_a).value() <= seconds(dev_b).value(),
        threshold.at_most(Float64 { bits: ONE }),
    ensures
        intervals_overlap(mean, dev_a, mean, dev_b, threshold),
{
    let a = interval(mean, dev_a);
    let b = interval(mean, dev_b);
    lemma_interval(mean, dev_a);
    lemma_interval(mean, dev_b);
    lemma_nested(mean, dev_a, dev_b);
    lemma_inner_bounds(a.0, a.1, a.2, b.1, b.2, threshold);
    reveal(intervals_overlap);
}

/// Statistics overlap with themselves, for thresholds up to one.
pub proof fn lemma_overlaps_itself(a: RuntimeStats, threshold: Float64)
    requires
        a.mean@ < LIMIT,
        a.stddev@ < LIMIT,
        threshold.at_most(Float64 { bits: ONE }),
    ensures
        intervals_overlap(a.mean@, a.stddev@, a.mean@, a.stddev@, threshold),
{
    lemma_same_mean_overlaps(a.mean@, a.stddev@, a.stddev@, threshold);
}

/// Two runtimes compare as equal exactly if they count as the same; otherwise they compare as their
/// means do, which then differ. Comparing them the other way round gives the reverse.
pub proof fn lemma_runtime_order(a: RuntimeStats, b: RuntimeStats)
    requires
        a.mean@ < LIMIT,
        a.stddev@ < LIMIT,
        b.mean@ < LIMIT,
        b.stddev@ < LIMIT,
    ensures
        a.mean@ == b.mean@ ==> a.same_runtime(b),
        runtime_order(a, b) == Ordering::Equal <==> a.same_runtime(b),
        !a.same_runtime(b) ==> (runtime_order(a, b) == Ordering::Less <==> a.mean@ < b.mean@),
        !a.same_runtime(b) ==> (runtime_order(a, b) == Ordering::Greater <==> a.mean@ > b.mean@),
        runtime_order(b, a) == Ordering::Equal <==> runtime_order(a, b) == Ordering::Equal,
        runtime_order(b, a) == Ordering::Less <==> runtime_order(a, b) == Ordering::Greater,
        runtime_order(b, a) == Ordering::Greater <==> runtime_order(a, b) == Ordering::Less,
{
    let half = Float64 { bits: HALF };
    lemma_level_order(a, b, half);
    lemma_level_order(b, a, half);
    if a.mean@ == b.mean@ {
        lemma_one();
        lemma_magnitude_value_monotone(half.magnitude(), (Float64 { bits: ONE }).magnitude());
        lemma_same_mean_overlaps(a.mean@, a.stddev@, b.stddev@, half);
    }
}

} // verus!
