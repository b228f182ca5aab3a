//! Sets of indices, and how many they hold.
use vstd::prelude::*;
use vstd::set_lib::lemma_len_subset;

verus! {

/// The indices below `n` for which `f` holds.
pub open spec fn those(f: spec_fn(int) -> bool, n: nat) -> Set<int> {
    Set::new(|i: int| 0 <= i < n && f(i))
}

/// There are no indices below zero, and with one more index there is one more exactly if it holds
/// for that one.
pub proof fn lemma_those(f: spec_fn(int) -> bool, n: nat)
    ensures
        those(f, n).finite(),
        n == 0 ==> those(f, n).len() == 0,
        n > 0 ==> those(f, n).len() == those(f, (n - 1) as nat).len() + if f(n - 1) {
            1nat
        } else {
            0nat
        },
        those(f, n).len() <= n,
    decreases n,
{
    if n == 0 {
        assert(those(f, n) =~= Set::<int>::empty());
    } else {
        let before = those(f, (n - 1) as nat);
        lemma_those(f, (n - 1) as nat);
        if f(n - 1) {
            assert(those(f, n) =~= before.insert(n - 1));
        } else {
            assert(those(f, n) =~= before);
        }
    }
}

/// Where everything that `f` holds for, `g` holds for too, there are not fewer of the latter; and
/// there are more where `g` holds for one more.
pub proof fn lemma_those_subset(f: spec_fn(int) -> bool, g: spec_fn(int) -> bool, n: nat)
    requires
        forall|i: int| 0 <= i < n && #[trigger] f(i) ==> g(i),
    ensures
        those(f, n).len() <= those(g, n).len(),
        (exists|i: int| 0 <= i < n && #[trigger] g(i) && !f(i)) ==> those(f, n).len() < those(
            g,
            n,
        ).len(),
{
    lemma_those(f, n);
    lemma_those(g, n);
    let a = those(f, n);
    let b = those(g, n);
    assert(a.subset_of(b));
    lemma_len_subset(a, b);
    if exists|i: int| 0 <= i < n && #[trigger] g(i) && !f(i) {
        let i = choose|i: int| 0 <= i < n && #[trigger] g(i) && !f(i);
        assert(a.insert(i).subset_of(b));
        lemma_len_subset(a.insert(i), b);
    }
}

} // verus!
