//! Sorting by an order in which items may be level.
use vstd::prelude::*;
use vstd::seq_lib::{to_multiset_build, to_multiset_remove};

verus! {

/// An order of items, in which one may have to come before another.
pub trait RankBy<T>: Sized {
    /// Whether an item has a place in the order.
    spec fn ready(&self, x: &T) -> bool;

    /// Whether `x` has to come before `y`.
    spec fn before(&self, x: &T, y: &T) -> bool;

    /// Whether `x` has to come before `y`.
    fn is_before(&self, x: &T, y: &T) -> (r: bool)
        requires
            self.ready(x),
            self.ready(y),
        ensures
            r == self.before(x, y),
    ;
}

/// Where `x` goes among the first `n` items of `s`: behind the last one that it does not have to
/// come before.
pub open spec fn place<T, R: RankBy<T>>(order: R, s: Seq<T>, x: T, n: nat) -> nat
    decreases n,
{
    if n == 0 || !order.before(&x, &s[n - 1]) {
        n
    } else {
        place(order, s, x, (n - 1) as nat)
    }
}

/// The items in their order; items that are level stay as they were.
pub open spec fn ranked<T, R: RankBy<T>>(order: R, s: Seq<T>) -> Seq<T>
    decreases s.len(),
{
    if s.len() == 0 {
        s
    } else {
        let t = ranked(order, s.drop_last());
        t.insert(place(order, t, s.last(), t.len()) as int, s.last())
    }
}

/// An item goes among the first `n`, behind one that it does not have to come before, and in front
/// of those that it has to come before.
pub proof fn lemma_place<T, R: RankBy<T>>(order: R, s: Seq<T>, x: T, n: nat)
    requires
        n <= s.len(),
    ensures
        place(order, s, x, n) <= n,
        place(order, s, x, n) > 0 ==> !order.before(&x, &s[place(order, s, x, n) - 1]),
        forall|i: int| place(order, s, x, n) <= i < n ==> #[trigger] order.before(&x, &s[i]),
    decreases n,
{
    if n > 0 && order.before(&x, &s[n - 1]) {
        lemma_place(order, s, x, (n - 1) as nat);
    }
}

/// Sorting keeps every item.
pub proof fn lemma_ranked_permutes<T, R: RankBy<T>>(order: R, s: Seq<T>)
    ensures
        ranked(order, s).len() == s.len(),
        ranked(order, s).to_multiset() == s.to_multiset(),
        forall|x: T| ranked(order, s).contains(x) == s.contains(x),
    decreases s.len(),
{
    if s.len() > 0 {
        let t = ranked(order, s.drop_last());
        let k = place(order, t, s.last(), t.len());
        lemma_ranked_permutes(order, s.drop_last());
        lemma_place(order, t, s.last(), t.len());
        let u = ranked(order, s);
        assert(u =~= t.insert(k as int, s.last()));
        assert(u.remove(k as int) =~= t);
        to_multiset_remove(u, k as int);
        to_multiset_build(s.drop_last(), s.last());
        assert(s.drop_last().push(s.last()) =~= s);
        assert(u[k as int] == s.last());
        u.to_multiset_ensures();
        assert(u.to_multiset().count(s.last()) > 0) by {
            assert(u.contains(s.last()));
        }
        assert(u.to_multiset() =~= u.to_multiset().remove(s.last()).insert(s.last()));
        s.to_multiset_ensures();
        assert forall|x: T| u.contains(x) == s.contains(x) by {
            assert(u.contains(x) <==> u.to_multiset().count(x) > 0);
            assert(s.contains(x) <==> s.to_multiset().count(x) > 0);
        }
    }
}

/// Where no two items have to come before each other, no item of the result has to come before the
/// one that stands next to it on the left.
pub proof fn lemma_ranked_neighbours<T, R: RankBy<T>>(order: R, s: Seq<T>)
    requires
        forall|x: T, y: T| #[trigger]
            order.before(&x, &y) && s.contains(x) && s.contains(y) ==> !order.before(&y, &x),
    ensures
        forall|i: int|
            0 <= i < s.len() - 1 ==> !order.before(
                #[trigger] &ranked(order, s)[i + 1],
                &ranked(order, s)[i],
            ),
    decreases s.len(),
{
    if s.len() > 0 {
        let t = ranked(order, s.drop_last());
        let x = s.last();
        let k = place(order, t, x, t.len());
        assert forall|a: T, b: T| #[trigger]
            order.before(&a, &b) && s.drop_last().contains(a) && s.drop_last().contains(
            b,
        ) implies !order.before(&b, &a) by {
            let i = choose|i: int| 0 <= i < s.drop_last().len() && s.drop_last()[i] == a;
            let j = choose|j: int| 0 <= j < s.drop_last().len() && s.drop_last()[j] == b;
            assert(s[i] == a);
            assert(s[j] == b);
        }
        lemma_ranked_neighbours(order, s.drop_last());
        lemma_place(order, t, x, t.len());
        lemma_ranked_permutes(order, s.drop_last());
        let u = ranked(order, s);
        assert(u =~= t.insert(k as int, x));
        assert forall|i: int| 0 <= i < s.len() - 1 implies !order.before(
            #[trigger] &u[i + 1],
            &u[i],
        ) by {
            if i + 1 < k {
                assert(u[i + 1] == t[i + 1]);
                assert(u[i] == t[i]);
            } else if i + 1 == k {
                assert(u[i + 1] == x);
                assert(u[i] == t[i]);
            } else if i == k {
                assert(u[i] == x);
                assert(u[i + 1] == t[i]);
                assert(order.before(&x, &t[i]));
                assert(t.contains(t[i]));
                assert(s.drop_last().contains(t[i]));
                let j = choose|j: int| 0 <= j < s.drop_last().len() && s.drop_last()[j] == t[i];
                assert(s[j] == t[i]);
                assert(s[s.len() - 1] == x);
                assert(s.contains(x) && s.contains(t[i]));
            } else {
                assert(u[i] == t[i - 1]);
                assert(u[i + 1] == t[i - 1 + 1]);
            }
        }
    }
}

/// Where level items have the same items before and behind them, no item of the result has to come
/// before any one that stands to its left.
pub proof fn lemma_ranked_sorted<T, R: RankBy<T>>(order: R, s: Seq<T>)
    requires
        forall|x: T, y: T| #[trigger]
            order.before(&x, &y) && s.contains(x) && s.contains(y) ==> !order.before(&y, &x),
        forall|x: T, y: T, z: T|
            #![trigger order.before(&x, &y), order.before(&y, &z)]
            s.contains(x) && s.contains(y) && s.contains(z) && !order.before(&x, &y)
                && !order.before(&y, &z) ==> !order.before(&x, &z),
    ensures
        forall|i: int, j: int|
            #![trigger ranked(order, s)[i], ranked(order, s)[j]]
            0 <= i < j < s.len() ==> !order.before(&ranked(order, s)[j], &ranked(order, s)[i]),
{
    lemma_ranked_neighbours(order, s);
    lemma_ranked_permutes(order, s);
    let u = ranked(order, s);
    assert forall|i: int, j: int|
        #![trigger u[i], u[j]]
        0 <= i < j < s.len() implies !order.before(&u[j], &u[i]) by {
        lemma_sorted_between(order, s, i, j);
    }
}

proof fn lemma_sorted_between<T, R: RankBy<T>>(order: R, s: Seq<T>, i: int, j: int)
    requires
        0 <= i < j < s.len(),
        ranked(order, s).len() == s.len(),
        forall|x: T| ranked(order, s).contains(x) == s.contains(x),
        forall|k: int|
            0 <= k < s.len() - 1 ==> !order.before(
                #[trigger] &ranked(order, s)[k + 1],
                &ranked(order, s)[k],
            ),
        forall|x: T, y: T, z: T|
            #![trigger order.before(&x, &y), order.before(&y, &z)]
            s.contains(x) && s.contains(y) && s.contains(z) && !order.before(&x, &y)
                && !order.before(&y, &z) ==> !order.before(&x, &z),
    ensures
        !order.before(&ranked(order, s)[j], &ranked(order, s)[i]),
    decreases j - i,
{
    let u = ranked(order, s);
    assert(!order.before(&u[j - 1 + 1], &u[j - 1]));
    if j - 1 > i {
        lemma_sorted_between(order, s, i, j - 1);
        assert(u.contains(u[j]) && u.contains(u[j - 1]) && u.contains(u[i]));
        assert(s.contains(u[j]) && s.contains(u[j - 1]) && s.contains(u[i]));
        let x = u[j];
        let y = u[j - 1];
        let z = u[i];
        assert(!order.before(&x, &y));
        assert(!order.before(&y, &z));
    }
}

/// Sorts items; those that are level stay as they were.
pub fn rank<T, R: RankBy<T>>(order: &R, items: Vec<T>) -> (r: Vec<T>)
    requires
        forall|i: int| 0 <= i < items@.len() ==> order.ready(#[trigger] &items@[i]),
    ensures
        r@ == ranked(*order, items@),
{
    let ghost s = items@;
    let mut r: Vec<T> = items;
    let mut i: usize = 0;
    assert(s.take(0) =~= Seq::<T>::empty());
    assert(r@ =~= ranked(*order, s.take(0)) + s.skip(0));
    while i < r.len()
        invariant
            i <= s.len(),
            r.len() == s.len(),
            r@ == ranked(*order, s.take(i as int)) + s.skip(i as int),
            forall|k: int| 0 <= k < s.len() ==> order.ready(#[trigger] &s[k]),
        decreases s.len() - i,
    {
        let ghost t = ranked(*order, s.take(i as int));
        proof {
            lemma_ranked_permutes(*order, s.take(i as int));
            assert(s.take(i + 1).drop_last() =~= s.take(i as int));
            assert(s.take(i + 1).last() == s[i as int]);
            assert forall|j: int| 0 <= j < t.len() implies order.ready(#[trigger] &t[j]) by {
                assert(t.contains(t[j]));
                assert(s.take(i as int).contains(t[j]));
                let k = choose|k: int| 0 <= k < s.take(i as int).len() && s.take(i as int)[k]
                    == t[j];
                assert(s[k] == t[j]);
            }
        }
        let x: T = r.remove(i);
        assert(x == s[i as int]);
        assert(r@ =~= t + s.skip(i + 1));
        let mut k: usize = i;
        while k > 0 && order.is_before(&x, &r[k - 1])
            invariant
                k <= i < s.len(),
                r@ == t + s.skip(i + 1),
                t.len() == i,
                order.ready(&x),
                forall|j: int| 0 <= j < t.len() ==> order.ready(#[trigger] &t[j]),
                place(*order, t, x, i as nat) == place(*order, t, x, k as nat),
            ensures
                k <= i,
                place(*order, t, x, i as nat) == k,
            decreases k,
        {
            k = k - 1;
        }
        r.insert(k, x);
        proof {
            assert(r@ =~= t.insert(k as int, x) + s.skip(i + 1));
            assert(ranked(*order, s.take(i + 1)) == t.insert(k as int, x));
        }
        i = i + 1;
    }
    assert(s.take(s.len() as int) =~= s);
    assert(r@ =~= ranked(*order, s)) by {
        lemma_ranked_permutes(*order, s);
    }
    r
}

/// Items of which none has to come before one that stands to its left stay as they are; so do items
/// that are all level.
pub proof fn lemma_ranked_stays<T, R: RankBy<T>>(order: R, s: Seq<T>)
    requires
        forall|i: int, j: int|
            #![trigger s[i], s[j]]
            0 <= i < j < s.len() ==> !order.before(&s[j], &s[i]),
    ensures
        ranked(order, s) == s,
    decreases s.len(),
{
    if s.len() > 0 {
        let t = s.drop_last();
        lemma_ranked_stays(order, t);
        if t.len() > 0 {
            assert(s[t.len() - 1] == t[t.len() - 1]);
        }
        assert(t.insert(t.len() as int, s.last()) =~= s);
    }
}

} // verus!
