//! Combinations of alternatives, and of rules.
use itertools::Itertools;
use vstd::prelude::*;
use vstd::set_lib::lemma_len_subset;

verus! {

/// What lists hold.
pub open spec fn rows(s: Seq<Vec<usize>>) -> Seq<Seq<usize>> {
    Seq::new(s.len(), |i: int| s[i]@)
}

/// Each of the rows with each of the items behind it, row by row.
pub open spec fn extended(rows: Seq<Seq<usize>>, items: Seq<usize>) -> Seq<Seq<usize>>
    decreases rows.len(),
{
    if rows.len() == 0 {
        Seq::empty()
    } else {
        extended(rows.drop_last(), items) + Seq::new(
            items.len(),
            |i: int| rows.last().push(items[i]),
        )
    }
}

/// All rows with one item of each list, in the order of the lists; the last item changes first.
pub open spec fn product(lists: Seq<Seq<usize>>) -> Seq<Seq<usize>>
    decreases lists.len(),
{
    if lists.len() == 0 {
        seq![Seq::empty()]
    } else {
        extended(product(lists.drop_last()), lists.last())
    }
}

/// All rows with one item of each list.
///
/// `multi_cartesian_product` of `itertools::Itertools`: the rows, and their order.
#[verifier::external_body]
pub(crate) fn cartesian_product(lists: &Vec<Vec<usize>>) -> (r: Vec<Vec<usize>>)
    ensures
        rows(r@) == product(rows(lists@)),
{
    lists.iter().cloned().multi_cartesian_product().collect()
}

/// A product has as many rows as there are ways to pick, and each row has one item of each list.
pub proof fn lemma_product_rows(lists: Seq<Seq<usize>>)
    ensures
        forall|i: int|
            0 <= i < product(lists).len() ==> {
                &&& (#[trigger] product(lists)[i]).len() == lists.len()
                &&& forall|k: int|
                    0 <= k < lists.len() ==> lists[k].contains(#[trigger] product(lists)[i][k])
            },
    decreases lists.len(),
{
    if lists.len() > 0 {
        let before = product(lists.drop_last());
        lemma_product_rows(lists.drop_last());
        lemma_extended_rows(before, lists.last());
        assert forall|i: int| 0 <= i < product(lists).len() implies {
            &&& (#[trigger] product(lists)[i]).len() == lists.len()
            &&& forall|k: int|
                0 <= k < lists.len() ==> lists[k].contains(#[trigger] product(lists)[i][k])
        } by {
            let row = product(lists)[i];
            assert(is_extension(row, before, lists.last()));
            let (a, b) = choose|a: int, b: int|
                0 <= a < before.len() && 0 <= b < lists.last().len() && row
                    == (#[trigger] before[a]).push(#[trigger] lists.last()[b]);
            assert forall|k: int| 0 <= k < lists.len() implies lists[k].contains(
                #[trigger] row[k],
            ) by {
                if k < lists.len() - 1 {
                    assert(lists.drop_last()[k].contains(before[a][k]));
                } else {
                    assert(row[k] == lists.last()[b]);
                }
            }
        }
    }
}

/// Whether `row` is one of the rows with one of the items behind it.
spec fn is_extension(row: Seq<usize>, rows: Seq<Seq<usize>>, items: Seq<usize>) -> bool {
    exists|a: int, b: int|
        0 <= a < rows.len() && 0 <= b < items.len() && row == (#[trigger] rows[a]).push(
            #[trigger] items[b],
        )
}

proof fn lemma_extended_rows(rows: Seq<Seq<usize>>, items: Seq<usize>)
    ensures
        extended(rows, items).len() == rows.len() * items.len(),
        forall|i: int|
            0 <= i < extended(rows, items).len() ==> is_extension(
                #[trigger] extended(rows, items)[i],
                rows,
                items,
            ),
    decreases rows.len(),
{
    if rows.len() == 0 {
        assert(0 * items.len() == 0) by (nonlinear_arith);
    } else {
        let before = extended(rows.drop_last(), items);
        lemma_extended_rows(rows.drop_last(), items);
        let n = (rows.len() - 1) as nat;
        assert((n + 1) * items.len() == n * items.len() + items.len()) by (nonlinear_arith);
        assert forall|i: int| 0 <= i < extended(rows, items).len() implies is_extension(
            #[trigger] extended(rows, items)[i],
            rows,
            items,
        ) by {
            if i < before.len() {
                assert(is_extension(before[i], rows.drop_last(), items));
                let (a, b) = choose|a: int, b: int|
                    0 <= a < rows.drop_last().len() && 0 <= b < items.len() && before[i] == (
                    #[trigger] rows.drop_last()[a]).push(#[trigger] items[b]);
                assert(extended(rows, items)[i] == rows[a].push(items[b]));
            } else {
                let b = i - before.len();
                assert(extended(rows, items)[i] == rows[rows.len() - 1].push(items[b]));
            }
        }
    }
}

/// Whether `s` picks some of `n` items: their indices, from the least to the greatest.
pub open spec fn is_pick(s: Seq<usize>, n: nat) -> bool {
    &&& forall|i: int| 0 <= i < s.len() ==> (#[trigger] s[i]) < n
    &&& forall|i: int, j: int| 0 <= i < j < s.len() ==> s[i] < s[j]
}

/// Whether pick `a` comes before pick `b`: it has fewer items, or as many and a lesser one where
/// they first differ.
pub open spec fn pick_before(a: Seq<usize>, b: Seq<usize>) -> bool {
    ||| a.len() < b.len()
    ||| a.len() == b.len() && exists|i: int|
        0 <= i < a.len() && a.take(i) == b.take(i) && #[trigger] a[i] < b[i]
}

/// Whether `k` picks come before `s`.
pub open spec fn is_nth_pick(s: Seq<usize>, n: nat, k: nat) -> bool {
    &&& is_pick(s, n)
    &&& Set::new(|t: Seq<usize>| is_pick(t, n) && pick_before(t, s)).finite()
    &&& Set::new(|t: Seq<usize>| is_pick(t, n) && pick_before(t, s)).len() == k
}

/// The picks of some of `n` items that come before `s`.
spec fn picks_before(s: Seq<usize>, n: nat) -> Set<Seq<usize>> {
    Set::new(|t: Seq<usize>| is_pick(t, n) && pick_before(t, s))
}

proof fn lemma_pick_before_transitive(a: Seq<usize>, b: Seq<usize>, c: Seq<usize>)
    requires
        pick_before(a, b),
        pick_before(b, c),
    ensures
        pick_before(a, c),
{
    if a.len() == b.len() && b.len() == c.len() {
        let i = choose|i: int| 0 <= i < a.len() && a.take(i) == b.take(i) && #[trigger] a[i] < b[i];
        let j = choose|j: int| 0 <= j < b.len() && b.take(j) == c.take(j) && #[trigger] b[j] < c[j];
        let m = if i < j {
            i
        } else {
            j
        };
        assert(a.take(m) =~= a.take(i).take(m));
        assert(b.take(m) =~= b.take(i).take(m));
        assert(b.take(m) =~= b.take(j).take(m));
        assert(c.take(m) =~= c.take(j).take(m));
        if i < j {
            assert(b.take(j)[i] == c.take(j)[i]);
        } else if j < i {
            assert(a.take(i)[j] == b.take(i)[j]);
        }
        assert(a[m] < c[m]);
    }
}

/// Where two lists of the same length that agree on the first `m` items first differ.
proof fn lemma_first_difference(a: Seq<usize>, b: Seq<usize>, m: nat) -> (i: int)
    requires
        m <= a.len(),
        a.len() == b.len(),
        a.take(m as int) == b.take(m as int),
        a != b,
    ensures
        m <= i < a.len(),
        a.take(i) == b.take(i),
        a[i] != b[i],
    decreases a.len() - m,
{
    if m == a.len() {
        assert(a.take(m as int) =~= a);
        assert(b.take(m as int) =~= b);
        m as int
    } else if a[m as int] != b[m as int] {
        m as int
    } else {
        assert(a.take(m as int + 1) =~= a.take(m as int).push(a[m as int]));
        assert(b.take(m as int + 1) =~= b.take(m as int).push(b[m as int]));
        lemma_first_difference(a, b, m + 1)
    }
}

proof fn lemma_fewer_picks_before(a: Seq<usize>, b: Seq<usize>, n: nat)
    requires
        is_pick(a, n),
        pick_before(a, b),
        picks_before(a, n).finite(),
        picks_before(b, n).finite(),
    ensures
        picks_before(a, n).len() < picks_before(b, n).len(),
{
    let s = picks_before(a, n);
    let t = picks_before(b, n);
    assert forall|x: Seq<usize>| s.contains(x) implies #[trigger] t.contains(x) by {
        lemma_pick_before_transitive(x, a, b);
    }
    assert(!s.contains(a));
    assert(t.contains(a));
    assert(s.insert(a).subset_of(t));
    lemma_len_subset(s.insert(a), t);
}

/// No two different picks have as many picks before them.
pub proof fn lemma_nth_pick_unique(a: Seq<usize>, b: Seq<usize>, n: nat, k: nat)
    requires
        is_nth_pick(a, n, k),
        is_nth_pick(b, n, k),
    ensures
        a == b,
{
    if a != b {
        if a.len() == b.len() {
            assert(a.take(0) =~= b.take(0));
            let i = lemma_first_difference(a, b, 0);
            assert(a[i] < b[i] || b[i] < a[i]);
        }
        if pick_before(a, b) {
            lemma_fewer_picks_before(a, b, n);
        } else {
            lemma_fewer_picks_before(b, a, n);
        }
    }
}

/// The pick of some of `n` items that `k` picks come before.
///
/// `nth` of `powerset` of `itertools::Itertools`, on the indices of the items: all subsets come,
/// from the smallest to the largest, and those of one size by their items.
#[verifier::external_body]
pub(crate) fn nth_pick(n: usize, k: usize) -> (r: Option<Vec<usize>>)
    ensures
        match r {
            Some(s) => is_nth_pick(s@, n as nat, k as nat),
            None => forall|s: Seq<usize>| !is_nth_pick(s, n as nat, k as nat),
        },
{
    (0..n).powerset().nth(k)
}

/// The rows of a product come in the order of the lists: the item of the last list changes from row
/// to row, and the others change only when all items of the last list have been taken.
pub proof fn lemma_product_order(lists: Seq<Seq<usize>>, a: int, b: int)
    requires
        lists.len() > 0,
        0 <= a < product(lists.drop_last()).len(),
        0 <= b < lists.last().len(),
    ensures
        product(lists).len() == product(lists.drop_last()).len() * lists.last().len(),
        0 <= a * lists.last().len() + b < product(lists).len(),
        product(lists)[a * lists.last().len() + b] == product(lists.drop_last())[a].push(
            lists.last()[b],
        ),
        product(Seq::empty()) == seq![Seq::<usize>::empty()],
{
    lemma_extended_rows(product(lists.drop_last()), lists.last());
    lemma_extended_order(product(lists.drop_last()), lists.last(), a, b);
}

proof fn lemma_extended_order(rows: Seq<Seq<usize>>, items: Seq<usize>, a: int, b: int)
    requires
        0 <= a < rows.len(),
        0 <= b < items.len(),
    ensures
        0 <= a * items.len() + b < extended(rows, items).len(),
        extended(rows, items)[a * items.len() + b] == rows[a].push(items[b]),
    decreases rows.len(),
{
    let before = extended(rows.drop_last(), items);
    lemma_extended_rows(rows, items);
    lemma_extended_rows(rows.drop_last(), items);
    let n = items.len();
    if a < rows.len() - 1 {
        lemma_extended_order(rows.drop_last(), items, a, b);
    } else {
        assert(before.len() == a * n);
        assert(0 <= a * n) by (nonlinear_arith)
            requires
                a >= 0,
        ;
    }
}

/// The first pick is that of no items.
pub proof fn lemma_first_pick(n: nat)
    ensures
        is_nth_pick(Seq::empty(), n, 0),
{
    let none = Seq::<usize>::empty();
    assert(Set::new(|t: Seq<usize>| is_pick(t, n) && pick_before(t, none)) =~= Set::empty());
}

/// Picks of few items come before picks of more. Of two picks of as many items, the one with the
/// lesser item where they first differ comes first.
pub proof fn lemma_few_first(a: Seq<usize>, b: Seq<usize>, n: nat, i: nat, j: nat)
    requires
        is_nth_pick(a, n, i),
        is_nth_pick(b, n, j),
        i < j,
    ensures
        a.len() <= b.len(),
        a.len() == b.len() ==> exists|k: int|
            0 <= k < a.len() && #[trigger] a[k] < b[k] && forall|l: int|
                0 <= l < k ==> a[l] == b[l],
{
    if a != b && a.len() == b.len() {
        assert(a.take(0) =~= b.take(0));
        let k = lemma_first_difference(a, b, 0);
        assert(a[k] < b[k] || b[k] < a[k]);
    }
    if pick_before(b, a) {
        lemma_fewer_picks_before(b, a, n);
    }
    assert(pick_before(a, b));
    if a.len() == b.len() {
        let k = choose|k: int|
            0 <= k < a.len() && a.take(k) == b.take(k) && #[trigger] a[k] < b[k];
        assert forall|l: int| 0 <= l < k implies a[l] == b[l] by {
            assert(a.take(k)[l] == b.take(k)[l]);
        }
    }
}

} // verus!
