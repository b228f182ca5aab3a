//! What the score of plans in reverse order is.
use vstd::prelude::*;
use crate::benchmark::accuracy::{
    cheapest, dearest, longest, pair_term, ran, ranges, rank_score, row_sum, rows_sum, shortest,
    squared_share, weight, Ranges,
};
use crate::benchmark::types::MeasuredPlan;
use crate::duration::{lemma_seconds, seconds, LIMIT};
use crate::float::arith::abs_nat;
use crate::float::encoding::{Float64, BINADE, INFINITE};
use crate::float::monotone::lemma_sign;
use crate::float::order::ONE;
use crate::float::rounding::nearest_magnitude;
use crate::float::same::{alike, lemma_alike, lemma_difference_alike};
use crate::float::sums::lemma_finite_sum;

verus! {

proof fn lemma_of(negative: bool, m: nat)
    requires
        m <= INFINITE,
    ensures
        Float64::of(negative, m).magnitude() == m,
        Float64::of(negative, m).negative() == negative,
        !Float64::of(negative, m).nan(),
{
}

/// A difference taken the other way round has the same magnitude, and the opposite sign unless it
/// is that of the same number.
proof fn lemma_difference_reversed(a: Float64, b: Float64)
    requires
        a.finite(),
        b.finite(),
    ensures
        a.difference(b).magnitude() == b.difference(a).magnitude(),
        !a.difference(b).nan(),
        !b.difference(a).nan(),
        !a.same_number(b) ==> a.difference(b).negative() != b.difference(a).negative(),
{
    assert(a.negated().value() == -a.value());
    assert(b.negated().value() == -b.value());
    let v = a.value() - b.value();
    assert(abs_nat(v) == abs_nat(-v));
    let m = nearest_magnitude(abs_nat(v), 1);
    assert(m <= INFINITE);
    lemma_of(true, m);
    lemma_of(false, m);
    lemma_of(true, 0);
    lemma_of(false, 0);
}

/// The magnitude of a quotient does not depend on signs.
proof fn lemma_quotient_magnitude(a: Float64, b: Float64, d: Float64)
    requires
        a.magnitude() == b.magnitude(),
    ensures
        a.quotient(d).magnitude() == b.quotient(d).magnitude(),
{
    assert(abs_nat(a.value()) == abs_nat(b.value()));
}

/// The square of a number does not depend on its sign.
proof fn lemma_square_magnitude(a: Float64, b: Float64)
    requires
        a.magnitude() == b.magnitude(),
    ensures
        a.product(a) == b.product(b),
{
    assert(abs_nat(a.value()) == abs_nat(b.value()));
}

/// A product does not depend on which factor comes first.
pub proof fn lemma_product_commutes(a: Float64, b: Float64)
    ensures
        a.product(b) == b.product(a),
{
    let x = abs_nat(a.value());
    let y = abs_nat(b.value());
    assert(x * y == y * x) by (nonlinear_arith);
}

/// The squares of distances do not depend on the direction.
proof fn lemma_share_reversed(from: Float64, to: Float64, range: Float64, other: Float64)
    requires
        from.finite(),
        to.finite(),
        alike(range, other),
    ensures
        squared_share(from, to, range) == squared_share(to, from, other),
{
    let zero = Float64 { bits: 0 };
    lemma_difference_reversed(to, from);
    if zero.below(range) {
        lemma_alike(range, other);
        lemma_sign(range);
        lemma_sign(zero);
        assert(range == other);
        let d = to.difference(from);
        let e = from.difference(to);
        lemma_quotient_magnitude(d, e, range);
        lemma_square_magnitude(d.quotient(range), e.quotient(range));
    }
}

/// Times one, with a sign.
proof fn lemma_signed(t: Float64, s: bool)
    ensures
        t.product(Float64::of(s, ONE as nat)).nan() && t.product(
            Float64::of(!s, ONE as nat),
        ).nan() || t.product(Float64::of(!s, ONE as nat)) == t.product(
            Float64::of(s, ONE as nat),
        ).negated(),
{
    let a = Float64::of(s, ONE as nat);
    let b = Float64::of(!s, ONE as nat);
    lemma_of(s, ONE as nat);
    lemma_of(!s, ONE as nat);
    assert(abs_nat(a.value()) == abs_nat(b.value()));
}

/// Two ranges of runtimes and costs that are the same numbers.
pub open spec fn same_ranges(c: Ranges, d: Ranges) -> bool {
    &&& c.min_r == d.min_r
    &&& c.range_r == d.range_r
    &&& alike(c.range_e, d.range_e)
}

/// Whether one number is the other with the opposite sign, or neither is a number.
pub open spec fn opposite(a: Float64, b: Float64) -> bool {
    a == b.negated() || (a.nan() && b.nan())
}

/// Two plans with different costs contribute the opposite when their order is reversed.
pub proof fn lemma_pair_reversed(a: (nat, Float64), b: (nat, Float64), c: Ranges, d: Ranges)
    requires
        a.0 < LIMIT,
        b.0 < LIMIT,
        a.1.finite(),
        b.1.finite(),
        !a.1.same_number(b.1),
        same_ranges(c, d),
    ensures
        opposite(pair_term(b, a, d), pair_term(a, b, c)),
{
    let ra = seconds(a.0);
    let rb = seconds(b.0);
    lemma_seconds(a.0);
    lemma_seconds(b.0);
    assert(alike(c.range_r, d.range_r));
    lemma_share_reversed(ra, rb, c.range_r, d.range_r);
    lemma_share_reversed(a.1, b.1, c.range_e, d.range_e);
    lemma_product_commutes(weight(c.min_r, ra), weight(c.min_r, rb));
    lemma_difference_reversed(a.1, b.1);
    let t = weight(c.min_r, ra).product(weight(c.min_r, rb)).product(
        squared_share(ra, rb, c.range_r).sum(squared_share(a.1, b.1, c.range_e)).root(),
    );
    lemma_signed(t, b.1.difference(a.1).negative());
    reveal(pair_term);
}

/// Whether plans have runtimes that are spans of time, and costs that are finite numbers.
pub open spec fn ordinary(p: Seq<(nat, Float64)>) -> bool {
    forall|i: int| 0 <= i < p.len() ==> (#[trigger] p[i]).0 < LIMIT && p[i].1.finite()
}

proof fn lemma_shortest(p: Seq<(nat, Float64)>, n: nat)
    requires
        0 < n <= p.len(),
    ensures
        forall|i: int| 0 <= i < n ==> shortest(p, n) <= (#[trigger] p[i]).0,
        exists|i: int| 0 <= i < n && (#[trigger] p[i]).0 == shortest(p, n),
    decreases n,
{
    if n == 1 {
        assert(p[0].0 == shortest(p, n));
    } else {
        lemma_shortest(p, (n - 1) as nat);
        let i = choose|i: int|
            0 <= i < n - 1 && (#[trigger] p[i]).0 == shortest(p, (n - 1) as nat);
        assert(p[i].0 == shortest(p, n) || p[n - 1].0 == shortest(p, n));
    }
}

proof fn lemma_longest(p: Seq<(nat, Float64)>, n: nat)
    requires
        0 < n <= p.len(),
        ordinary(p),
    ensures
        forall|i: int| 0 <= i < n ==> seconds((#[trigger] p[i]).0).value() <= longest(p, n).value(),
        exists|i: int| 0 <= i < n && seconds((#[trigger] p[i]).0) == longest(p, n),
    decreases n,
{
    assert(p[n - 1].0 < LIMIT);
    lemma_seconds(p[n - 1].0);
    if n == 1 {
        assert(seconds(p[0].0) == longest(p, n));
    } else {
        lemma_longest(p, (n - 1) as nat);
        let i = choose|i: int|
            0 <= i < n - 1 && seconds((#[trigger] p[i]).0) == longest(p, (n - 1) as nat);
        lemma_seconds(p[i].0);
        assert(seconds(p[i].0) == longest(p, n) || seconds(p[n - 1].0) == longest(p, n));
    }
}

proof fn lemma_cheapest(p: Seq<(nat, Float64)>, n: nat)
    requires
        0 < n <= p.len(),
        ordinary(p),
    ensures
        forall|i: int| 0 <= i < n ==> cheapest(p, n).value() <= (#[trigger] p[i]).1.value(),
        exists|i: int| 0 <= i < n && (#[trigger] p[i]).1 == cheapest(p, n),
    decreases n,
{
    assert(p[n - 1].1.finite());
    if n == 1 {
        assert(p[0].1 == cheapest(p, n));
    } else {
        lemma_cheapest(p, (n - 1) as nat);
        let i = choose|i: int|
            0 <= i < n - 1 && (#[trigger] p[i]).1 == cheapest(p, (n - 1) as nat);
        assert(p[i].1 == cheapest(p, n) || p[n - 1].1 == cheapest(p, n));
    }
}

proof fn lemma_dearest(p: Seq<(nat, Float64)>, n: nat)
    requires
        0 < n <= p.len(),
        ordinary(p),
    ensures
        forall|i: int| 0 <= i < n ==> (#[trigger] p[i]).1.value() <= dearest(p, n).value(),
        exists|i: int| 0 <= i < n && (#[trigger] p[i]).1 == dearest(p, n),
    decreases n,
{
    assert(p[n - 1].1.finite());
    if n == 1 {
        assert(p[0].1 == dearest(p, n));
    } else {
        lemma_dearest(p, (n - 1) as nat);
        let i = choose|i: int|
            0 <= i < n - 1 && (#[trigger] p[i]).1 == dearest(p, (n - 1) as nat);
        assert(p[i].1 == dearest(p, n) || p[n - 1].1 == dearest(p, n));
    }
}

/// Of two lists of which one is the other in reverse, each item of one is in the other.
proof fn lemma_mirrored(p: Seq<(nat, Float64)>, i: int)
    requires
        0 <= i < p.len(),
    ensures
        p.reverse()[p.len() - 1 - i] == p[i],
        p.reverse()[i] == p[p.len() - 1 - i],
{
}

proof fn lemma_ordinary_reversed(p: Seq<(nat, Float64)>)
    requires
        ordinary(p),
    ensures
        ordinary(p.reverse()),
{
    let q = p.reverse();
    assert forall|i: int| 0 <= i < q.len() implies (#[trigger] q[i]).0 < LIMIT
        && q[i].1.finite() by {
        lemma_mirrored(p, i);
        assert(p[p.len() - 1 - i].0 < LIMIT);
    }
}

/// Runtimes and costs with the same extremes range over the same.
proof fn lemma_ranges_alike(p: Seq<(nat, Float64)>, q: Seq<(nat, Float64)>)
    requires
        p.len() == q.len(),
        shortest(p, p.len()) == shortest(q, p.len()),
        longest(p, p.len()) == longest(q, p.len()),
        alike(cheapest(p, p.len()), cheapest(q, p.len())),
        alike(dearest(p, p.len()), dearest(q, p.len())),
    ensures
        same_ranges(ranges(p), ranges(q)),
{
    let n = p.len();
    lemma_difference_alike(dearest(p, n), cheapest(p, n), dearest(q, n), cheapest(q, n));
}

/// Runtimes and costs range over the same in either order.
pub proof fn lemma_ranges_reversed(p: Seq<(nat, Float64)>)
    requires
        p.len() > 0,
        ordinary(p),
    ensures
        same_ranges(ranges(p), ranges(p.reverse())),
{
    let q = p.reverse();
    lemma_ordinary_reversed(p);
    assert(q.reverse() =~= p);
    lemma_extremes_mirrored(p, q);
    lemma_extremes_mirrored(q, p);
    lemma_same_longest(p, q);
    lemma_same_costs(p, q);
    lemma_ranges_alike(p, q);
}

proof fn lemma_same_longest(p: Seq<(nat, Float64)>, q: Seq<(nat, Float64)>)
    requires
        0 < p.len() == q.len(),
        ordinary(p),
        ordinary(q),
        longest(p, p.len()).value() == longest(q, p.len()).value(),
    ensures
        longest(p, p.len()) == longest(q, p.len()),
{
    let n = p.len();
    lemma_longest(p, n);
    lemma_longest(q, n);
    let i = choose|i: int| 0 <= i < n && seconds((#[trigger] p[i]).0) == longest(p, n);
    let j = choose|j: int| 0 <= j < n && seconds((#[trigger] q[j]).0) == longest(q, n);
    lemma_seconds(p[i].0);
    lemma_seconds(q[j].0);
    lemma_same_encoding(longest(p, n), longest(q, n));
}

proof fn lemma_same_encoding(a: Float64, b: Float64)
    requires
        a.finite(),
        b.finite(),
        !a.negative(),
        !b.negative(),
        a.value() == b.value(),
    ensures
        a == b,
{
    lemma_alike(a, b);
}

proof fn lemma_same_costs(p: Seq<(nat, Float64)>, q: Seq<(nat, Float64)>)
    requires
        0 < p.len() == q.len(),
        ordinary(p),
        ordinary(q),
        cheapest(p, p.len()).value() == cheapest(q, p.len()).value(),
        dearest(p, p.len()).value() == dearest(q, p.len()).value(),
    ensures
        alike(cheapest(p, p.len()), cheapest(q, p.len())),
        alike(dearest(p, p.len()), dearest(q, p.len())),
{
    let n = p.len();
    lemma_cheapest(p, n);
    lemma_cheapest(q, n);
    lemma_dearest(p, n);
    lemma_dearest(q, n);
}

proof fn lemma_extremes_mirrored(p: Seq<(nat, Float64)>, q: Seq<(nat, Float64)>)
    requires
        p.len() > 0,
        q == p.reverse(),
        ordinary(p),
        ordinary(q),
    ensures
        shortest(p, p.len()) <= shortest(q, p.len()),
        longest(q, p.len()).value() <= longest(p, p.len()).value(),
        cheapest(p, p.len()).value() <= cheapest(q, p.len()).value(),
        dearest(q, p.len()).value() <= dearest(p, p.len()).value(),
{
    let n = p.len();
    lemma_shortest(p, n);
    lemma_shortest(q, n);
    lemma_longest(p, n);
    lemma_longest(q, n);
    lemma_cheapest(p, n);
    lemma_cheapest(q, n);
    lemma_dearest(p, n);
    lemma_dearest(q, n);
    let i = choose|i: int| 0 <= i < n && (#[trigger] q[i]).0 == shortest(q, n);
    lemma_mirrored(p, i);
    assert(shortest(p, n) <= p[n - 1 - i].0);
    let i = choose|i: int| 0 <= i < n && seconds((#[trigger] q[i]).0) == longest(q, n);
    lemma_mirrored(p, i);
    assert(seconds(p[n - 1 - i].0).value() <= longest(p, n).value());
    let i = choose|i: int| 0 <= i < n && (#[trigger] q[i]).1 == cheapest(q, n);
    lemma_mirrored(p, i);
    assert(cheapest(p, n).value() <= p[n - 1 - i].1.value());
    let i = choose|i: int| 0 <= i < n && (#[trigger] q[i]).1 == dearest(q, n);
    lemma_mirrored(p, i);
    assert(p[n - 1 - i].1.value() <= dearest(p, n).value());
}

/// `f(0) + .. + f(n - 1)`.
pub open spec fn total(f: spec_fn(int) -> int, n: nat) -> int
    decreases n,
{
    if n == 0 {
        0
    } else {
        total(f, (n - 1) as nat) + f(n - 1)
    }
}

/// What `g` gives for all pairs below `a` and `b`, added up.
pub open spec fn square(g: spec_fn(int, int) -> int, a: nat, b: nat) -> int {
    total(|i: int| total(|j: int| g(i, j), b), a)
}

proof fn lemma_total_same(f: spec_fn(int) -> int, g: spec_fn(int) -> int, n: nat)
    requires
        forall|k: int| 0 <= k < n ==> #[trigger] f(k) == g(k),
    ensures
        total(f, n) == total(g, n),
    decreases n,
{
    if n > 0 {
        lemma_total_same(f, g, (n - 1) as nat);
        assert(f(n - 1) == g(n - 1));
    }
}

proof fn lemma_total_first(f: spec_fn(int) -> int, n: nat)
    requires
        n > 0,
    ensures
        total(f, n) == f(0) + total(|k: int| f(k + 1), (n - 1) as nat),
    decreases n,
{
    let g = |k: int| f(k + 1);
    if n == 1 {
        assert(total(f, 0) == 0);
        assert(total(g, 0) == 0);
    } else {
        lemma_total_first(f, (n - 1) as nat);
        assert(g(n - 2) == f(n - 1));
    }
}

/// A total taken from the end, with the opposite sign.
proof fn lemma_total_opposite(f: spec_fn(int) -> int, g: spec_fn(int) -> int, n: nat)
    requires
        forall|k: int| 0 <= k < n ==> #[trigger] g(k) == -f(n - 1 - k),
    ensures
        total(g, n) == -total(f, n),
    decreases n,
{
    if n > 0 {
        let h = |k: int| f(k + 1);
        assert forall|k: int| 0 <= k < n - 1 implies #[trigger] g(k) == -h(n - 2 - k) by {
            assert(h(n - 2 - k) == f(n - 1 - k));
        }
        lemma_total_opposite(h, g, (n - 1) as nat);
        lemma_total_first(f, n);
        assert(g(n - 1) == -f(0));
    }
}

proof fn lemma_total_plus(
    f: spec_fn(int) -> int,
    g: spec_fn(int) -> int,
    h: spec_fn(int) -> int,
    n: nat,
)
    requires
        forall|k: int| 0 <= k < n ==> #[trigger] h(k) == f(k) + g(k),
    ensures
        total(h, n) == total(f, n) + total(g, n),
    decreases n,
{
    if n > 0 {
        lemma_total_plus(f, g, h, (n - 1) as nat);
        assert(h(n - 1) == f(n - 1) + g(n - 1));
    }
}

proof fn lemma_total_zero(f: spec_fn(int) -> int, n: nat)
    requires
        forall|k: int| 0 <= k < n ==> #[trigger] f(k) == 0,
    ensures
        total(f, n) == 0,
    decreases n,
{
    if n > 0 {
        lemma_total_zero(f, (n - 1) as nat);
        assert(f(n - 1) == 0);
    }
}

/// Adding up by rows gives the same as adding up by columns.
proof fn lemma_square_swapped(g: spec_fn(int, int) -> int, a: nat, b: nat)
    ensures
        square(g, a, b) == square(|i: int, j: int| g(j, i), b, a),
    decreases a,
{
    let t = |i: int, j: int| g(j, i);
    let columns = |i: int| total(|j: int| t(i, j), a);
    if a == 0 {
        assert forall|i: int| 0 <= i < b implies #[trigger] columns(i) == 0 by {}
        lemma_total_zero(columns, b);
    } else {
        let c = (a - 1) as nat;
        lemma_square_swapped(g, c, b);
        let before = |i: int| total(|j: int| t(i, j), c);
        let last = |j: int| g(c as int, j);
        assert forall|i: int| 0 <= i < b implies #[trigger] columns(i) == before(i) + last(i) by {
            let f = |j: int| t(i, j);
            assert(total(f, a) == total(f, c) + f(a - 1));
        }
        lemma_total_plus(before, last, columns, b);
        let rows = |i: int| total(|j: int| g(i, j), b);
        assert(total(rows, a) == total(rows, c) + rows(a - 1));
        lemma_total_same(last, |j: int| g(a - 1, j), b);
    }
}

/// Where `h` gives for each pair the opposite of what `g` gives for the pair at the other end,
/// their sums are opposite.
proof fn lemma_square_opposite(
    g: spec_fn(int, int) -> int,
    h: spec_fn(int, int) -> int,
    n: nat,
)
    requires
        forall|i: int, j: int|
            0 <= i < n && 0 <= j < n ==> #[trigger] h(i, j) == -g(n - 1 - j, n - 1 - i),
    ensures
        square(h, n, n) == -square(g, n, n),
{
    let t = |i: int, j: int| g(j, i);
    lemma_square_swapped(g, n, n);
    let rows = |i: int| total(|j: int| h(i, j), n);
    let columns = |i: int| total(|j: int| t(i, j), n);
    assert forall|i: int| 0 <= i < n implies #[trigger] rows(i) == -columns(n - 1 - i) by {
        let f = |j: int| t(n - 1 - i, j);
        let e = |j: int| h(i, j);
        assert forall|j: int| 0 <= j < n implies #[trigger] e(j) == -f(n - 1 - j) by {
            assert(h(i, j) == -g(n - 1 - j, n - 1 - i));
        }
        lemma_total_opposite(f, e, n);
    }
    lemma_total_opposite(columns, rows, n);
}

/// What a pair contributes to the score, in units of `2^-1074`: nothing where the first does not
/// come before the second, where the costs are the same, or where it is not a finite number.
pub open spec fn contribution(p: Seq<(nat, Float64)>, c: Ranges, i: int, j: int) -> int {
    if i < j && !p[i].1.same_number(p[j].1) && pair_term(p[i], p[j], c).finite() {
        pair_term(p[i], p[j], c).value()
    } else {
        0
    }
}

/// What all pairs contribute to the score, added up without rounding.
pub open spec fn exact_score(p: Seq<(nat, Float64)>) -> int {
    square(|i: int, j: int| contribution(p, ranges(p), i, j), p.len(), p.len())
}

/// Without rounding, plans in reverse order have the opposite score.
pub proof fn lemma_exact_score_reversed(p: Seq<(nat, Float64)>)
    requires
        ordinary(p),
    ensures
        exact_score(p.reverse()) == -exact_score(p),
{
    let q = p.reverse();
    let n = p.len();
    let c = ranges(p);
    let d = ranges(q);
    if n > 0 {
        lemma_ranges_reversed(p);
    }
    let g = |i: int, j: int| contribution(p, c, i, j);
    let h = |i: int, j: int| contribution(q, d, i, j);
    assert forall|i: int, j: int| 0 <= i < n && 0 <= j < n implies #[trigger] h(i, j) == -g(
        n - 1 - j,
        n - 1 - i,
    ) by {
        lemma_mirrored(p, i);
        lemma_mirrored(p, j);
        let a = p[n - 1 - j];
        let b = p[n - 1 - i];
        assert(a.0 < LIMIT && b.0 < LIMIT);
        if i < j && !a.1.same_number(b.1) {
            lemma_pair_reversed(a, b, c, d);
            lemma_opposite_value(pair_term(b, a, d), pair_term(a, b, c));
        }
    }
    lemma_square_opposite(g, h, n);
}

proof fn lemma_opposite_value(a: Float64, b: Float64)
    requires
        opposite(a, b),
    ensures
        a.finite() == b.finite(),
        a.finite() ==> a.value() == -b.value(),
{
}

proof fn lemma_ran_joined(a: Seq<MeasuredPlan>, b: Seq<MeasuredPlan>)
    ensures
        ran(a + b) == ran(a) + ran(b),
    decreases b.len(),
{
    if b.len() == 0 {
        assert(a + b =~= a);
        assert(ran(a) + ran(b) =~= ran(a));
    } else {
        lemma_ran_joined(a, b.drop_last());
        assert((a + b).drop_last() =~= a + b.drop_last());
        assert((a + b).last() == b.last());
        assert(ran(a + b) =~= ran(a) + ran(b));
    }
}

/// The plans that ran of plans in reverse order are those that ran, in reverse order.
pub proof fn lemma_ran_reversed(plans: Seq<MeasuredPlan>)
    ensures
        ran(plans.reverse()) == ran(plans).reverse(),
    decreases plans.len(),
{
    if plans.len() == 0 {
        assert(plans.reverse() =~= plans);
        assert(ran(plans).reverse() =~= ran(plans));
    } else {
        let last = seq![plans.last()];
        let rest = plans.drop_last();
        lemma_ran_reversed(rest);
        lemma_ran_joined(last, rest.reverse());
        assert(plans.reverse() =~= last + rest.reverse());
        assert(last.drop_last() =~= Seq::<MeasuredPlan>::empty());
        assert(ran(last.drop_last()) =~= Seq::<(nat, Float64)>::empty());
        assert(ran(plans).reverse() =~= ran(last) + ran(rest).reverse());
    }
}

/// The exact results of the additions of a row of the score, by their distances from zero.
pub open spec fn row_slack(
    p: Seq<(nat, Float64)>,
    c: Ranges,
    start: Float64,
    i: int,
    j: int,
) -> nat
    decreases j - i,
{
    if j <= i + 1 {
        0
    } else {
        let before = row_slack(p, c, start, i, j - 1);
        if p[i].1.same_number(p[j - 1].1) {
            before
        } else {
            before + abs_nat(
                row_sum(p, c, start, i, j - 1).value() + pair_term(p[i], p[j - 1], c).value(),
            )
        }
    }
}

/// The exact results of the additions of the first `i` rows of the score, by their distances from
/// zero.
pub open spec fn rows_slack(p: Seq<(nat, Float64)>, c: Ranges, i: int) -> nat
    decreases i,
{
    if i <= 0 {
        0
    } else {
        rows_slack(p, c, i - 1) + row_slack(p, c, rows_sum(p, c, i - 1), i - 1, p.len() as int)
    }
}

/// The exact results of all additions that make up a score, by their distances from zero. Each
/// addition is rounded by at most one part in `2^53` of its result.
pub open spec fn score_slack(p: Seq<(nat, Float64)>) -> nat {
    rows_slack(p, ranges(p), p.len() as int)
}

proof fn lemma_triangle(k: nat, x: int, y: int, z: int, a: nat, b: nat)
    requires
        k * abs_nat(x - y) <= a,
        k * abs_nat(y - z) <= b,
    ensures
        k * abs_nat(x - z) <= a + b,
{
    let u = abs_nat(x - y);
    let v = abs_nat(y - z);
    let w = abs_nat(x - z);
    assert(k * w <= k * u + k * v) by (nonlinear_arith)
        requires
            w <= u + v,
    ;
}

/// What the pairs of plan `i` with the others contribute.
spec fn contributions(p: Seq<(nat, Float64)>, c: Ranges, i: int) -> spec_fn(int) -> int {
    |j: int| contribution(p, c, i, j)
}

proof fn lemma_row_rounding(
    p: Seq<(nat, Float64)>,
    c: Ranges,
    start: Float64,
    i: int,
    j: int,
)
    requires
        0 <= i < j <= p.len(),
        row_sum(p, c, start, i, j).finite(),
    ensures
        start.finite(),
        2 * BINADE as nat * abs_nat(
            row_sum(p, c, start, i, j).value() - (start.value() + total(
                contributions(p, c, i),
                j as nat,
            )),
        ) <= row_slack(p, c, start, i, j),
    decreases j - i,
{
    let f = contributions(p, c, i);
    let k = 2 * BINADE as nat;
    if j == i + 1 {
        assert forall|l: int| 0 <= l < j implies #[trigger] f(l) == 0 by {}
        lemma_total_zero(f, j as nat);
        assert(k * 0 == 0) by (nonlinear_arith);
    } else {
        let before = row_sum(p, c, start, i, j - 1);
        assert(total(f, j as nat) == total(f, (j - 1) as nat) + f(j - 1));
        if p[i].1.same_number(p[j - 1].1) {
            lemma_row_rounding(p, c, start, i, j - 1);
            assert(f(j - 1) == 0);
        } else {
            let term = pair_term(p[i], p[j - 1], c);
            lemma_finite_sum(before, term);
            lemma_row_rounding(p, c, start, i, j - 1);
            assert(f(j - 1) == term.value());
            let exact = start.value() + total(f, (j - 1) as nat);
            assert((before.value() + term.value()) - (exact + term.value()) == before.value()
                - exact);
            lemma_triangle(
                k,
                before.sum(term).value(),
                before.value() + term.value(),
                exact + term.value(),
                abs_nat(before.value() + term.value()),
                row_slack(p, c, start, i, j - 1),
            );
        }
    }
}

/// The exact sums of rows.
spec fn row_totals(p: Seq<(nat, Float64)>, c: Ranges) -> spec_fn(int) -> int {
    |i: int| total(contributions(p, c, i), p.len())
}

proof fn lemma_rows_rounding(p: Seq<(nat, Float64)>, c: Ranges, i: int)
    requires
        0 <= i <= p.len(),
        rows_sum(p, c, i).finite(),
    ensures
        2 * BINADE as nat * abs_nat(
            rows_sum(p, c, i).value() - total(row_totals(p, c), i as nat),
        ) <= rows_slack(p, c, i),
    decreases i,
{
    let f = row_totals(p, c);
    let k = 2 * BINADE as nat;
    if i == 0 {
        assert((Float64 { bits: 0 }).value() == 0);
        assert(k * 0 == 0) by (nonlinear_arith);
    } else {
        let start = rows_sum(p, c, i - 1);
        let n = p.len() as int;
        lemma_row_rounding(p, c, start, i - 1, n);
        lemma_rows_rounding(p, c, i - 1);
        assert(total(f, i as nat) == total(f, (i - 1) as nat) + f(i - 1));
        let row = f(i - 1);
        assert(row == total(contributions(p, c, i - 1), p.len()));
        assert((start.value() + row) - (total(f, (i - 1) as nat) + row) == start.value() - total(
            f,
            (i - 1) as nat,
        ));
        lemma_triangle(
            k,
            rows_sum(p, c, i).value(),
            start.value() + row,
            total(f, (i - 1) as nat) + row,
            row_slack(p, c, start, i - 1, n),
            rows_slack(p, c, i - 1),
        );
    }
}

/// A score that is a finite number is off from the exact score by no more than the rounding of its
/// additions: one part in `2^53` of what each of them gives.
pub proof fn lemma_score_rounding(p: Seq<(nat, Float64)>)
    requires
        rank_score(p).finite(),
    ensures
        2 * BINADE as nat * abs_nat(rank_score(p).value() - exact_score(p)) <= score_slack(p),
{
    reveal(rank_score);
    let c = ranges(p);
    let n = p.len();
    lemma_rows_rounding(p, c, n as int);
    let g = |i: int, j: int| contribution(p, c, i, j);
    let rows = |i: int| total(|j: int| g(i, j), n);
    assert forall|i: int| 0 <= i < n implies #[trigger] row_totals(p, c)(i) == rows(i) by {
        let f = contributions(p, c, i);
        let h = |j: int| g(i, j);
        assert forall|j: int| 0 <= j < n implies #[trigger] f(j) == h(j) by {}
        lemma_total_same(f, h, n);
    }
    lemma_total_same(row_totals(p, c), rows, n);
}

/// Plans in reverse order have the opposite score, but for rounding: two scores that are finite
/// numbers add up to no more than the rounding of their additions.
pub proof fn lemma_score_reversed(plans: Seq<MeasuredPlan>)
    requires
        ordinary(ran(plans)),
        rank_score(ran(plans)).finite(),
        rank_score(ran(plans.reverse())).finite(),
    ensures
        2 * BINADE as nat * abs_nat(
            rank_score(ran(plans)).value() + rank_score(ran(plans.reverse())).value(),
        ) <= score_slack(ran(plans)) + score_slack(ran(plans.reverse())),
{
    let p = ran(plans);
    let q = ran(plans.reverse());
    lemma_ran_reversed(plans);
    lemma_score_rounding(p);
    lemma_score_rounding(q);
    lemma_exact_score_reversed(p);
    let s = rank_score(p).value();
    let t = rank_score(q).value();
    let e = exact_score(p);
    assert(abs_nat(e - (-t)) == abs_nat(t - (-e)));
    lemma_triangle(2 * BINADE as nat, s, e, -t, score_slack(p), score_slack(q));
    assert(s - (-t) == s + t);
}

} // verus!
