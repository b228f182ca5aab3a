//! Comparing plans down to one of their nodes.
use vstd::prelude::*;
use crate::common::plan::{forest_nodes, lemma_forest_nodes_step, plan_nodes, PlanNode};

verus! {

/// Whether two nodes have the same name and the same type.
pub open spec fn same_label(a: PlanNode, b: PlanNode) -> bool {
    a.name@ == b.name@ && a.type_id == b.type_id
}

/// Whether `a` and `b` agree outside of what lies below the node with preorder index `target`:
/// they have the same labels there and everywhere else, and everywhere else the same number of
/// inputs.
pub open spec fn agrees(a: PlanNode, b: PlanNode, target: int) -> bool
    decreases a,
{
    &&& same_label(a, b)
    &&& target == 0 || {
        &&& a.children@.len() == b.children@.len()
        &&& forest_agrees(a.children@, b.children@, target - 1)
    }
}

/// Whether the plans of `s` agree with those of `t`, with preorder indices that count through all
/// of `s`.
pub open spec fn forest_agrees(s: Seq<PlanNode>, t: Seq<PlanNode>, target: int) -> bool
    decreases s,
{
    s.len() == 0 || {
        &&& forest_agrees(s.drop_last(), t.drop_last(), target)
        &&& agrees(s.last(), t.last(), target - forest_nodes(s.drop_last()))
    }
}

/// How many nodes below the root a comparison in preorder goes on to, until it has seen all that
/// it has to see or finds a difference.
pub open spec fn steps(a: PlanNode, b: PlanNode, target: int) -> nat
    decreases a,
{
    if target == 0 || !same_label(a, b) || a.children@.len() != b.children@.len() {
        0
    } else {
        forest_steps(a.children@, b.children@, target - 1)
    }
}

/// How many nodes a comparison of several plans sees, until it has seen all that it has to see or
/// finds a difference.
pub open spec fn forest_steps(s: Seq<PlanNode>, t: Seq<PlanNode>, target: int) -> nat
    decreases s,
{
    if s.len() == 0 {
        0
    } else {
        let before = forest_steps(s.drop_last(), t.drop_last(), target);
        if forest_agrees(s.drop_last(), t.drop_last(), target) {
            before + 1 + steps(s.last(), t.last(), target - forest_nodes(s.drop_last()))
        } else {
            before
        }
    }
}

/// A target before the plan is as good as any other before it.
proof fn lemma_passed(a: PlanNode, b: PlanNode, t1: int, t2: int)
    requires
        t1 < 0,
        t2 < 0,
    ensures
        agrees(a, b, t1) == agrees(a, b, t2),
        steps(a, b, t1) == steps(a, b, t2),
    decreases a,
{
    if a.children@.len() == b.children@.len() {
        lemma_forest_passed(a.children@, b.children@, t1 - 1, t2 - 1);
    }
}

/// A target before the plans is as good as any other before them.
proof fn lemma_forest_passed(s: Seq<PlanNode>, t: Seq<PlanNode>, t1: int, t2: int)
    requires
        t1 < 0,
        t2 < 0,
    ensures
        forest_agrees(s, t, t1) == forest_agrees(s, t, t2),
        forest_steps(s, t, t1) == forest_steps(s, t, t2),
    decreases s,
{
    if s.len() > 0 {
        let n = forest_nodes(s.drop_last());
        lemma_forest_passed(s.drop_last(), t.drop_last(), t1, t2);
        lemma_passed(s.last(), t.last(), t1 - n, t2 - n);
    }
}

/// A comparison sees every node of plans that agree, but for those below the target.
pub proof fn lemma_steps(a: PlanNode, b: PlanNode, target: int)
    ensures
        steps(a, b, target) < plan_nodes(a),
        agrees(a, b, target) && !(0 <= target < plan_nodes(a)) ==> steps(a, b, target) + 1
            == plan_nodes(a),
        agrees(a, b, target) && 0 <= target < plan_nodes(a) ==> target <= steps(a, b, target),
    decreases a,
{
    if a.children@.len() == b.children@.len() {
        lemma_forest_steps(a.children@, b.children@, target - 1);
    }
}

/// A comparison sees every node of several plans that agree, but for those below the target.
pub proof fn lemma_forest_steps(s: Seq<PlanNode>, t: Seq<PlanNode>, target: int)
    ensures
        forest_steps(s, t, target) <= forest_nodes(s),
        forest_agrees(s, t, target) && !(0 <= target < forest_nodes(s)) ==> forest_steps(
            s,
            t,
            target,
        ) == forest_nodes(s),
        forest_agrees(s, t, target) && 0 <= target < forest_nodes(s) ==> target < forest_steps(
            s,
            t,
            target,
        ),
    decreases s,
{
    if s.len() > 0 {
        let n = forest_nodes(s.drop_last());
        lemma_forest_steps(s.drop_last(), t.drop_last(), target);
        lemma_steps(s.last(), t.last(), target - n);
    }
}

/// Plans that do not agree up to some input do not agree.
proof fn lemma_forest_prefix(s: Seq<PlanNode>, t: Seq<PlanNode>, target: int, i: int)
    requires
        0 <= i <= s.len(),
        s.len() == t.len(),
        !forest_agrees(s.take(i), t.take(i), target),
    ensures
        !forest_agrees(s, t, target),
        forest_steps(s, t, target) == forest_steps(s.take(i), t.take(i), target),
    decreases s.len(),
{
    if i == s.len() {
        assert(s.take(i) =~= s);
        assert(t.take(i) =~= t);
    } else {
        assert(s.drop_last().take(i) =~= s.take(i));
        assert(t.drop_last().take(i) =~= t.take(i));
        lemma_forest_prefix(s.drop_last(), t.drop_last(), target, i);
    }
}

/// Compares two plans as `partial_eq_plans` does, with a cursor that counts the nodes seen and
/// stands at the root.
pub fn partial_eq_plans_help(a: &PlanNode, b: &PlanNode, cur: &mut usize, target_i: usize) -> (r:
    bool)
    requires
        *old(cur) + plan_nodes(*a) <= usize::MAX,
    ensures
        r == agrees(*a, *b, target_i - *old(cur)),
        *final(cur) == *old(cur) + steps(*a, *b, target_i - *old(cur)),
    decreases *a,
{
    let same: bool = a.name == b.name && a.type_id == b.type_id;
    if *cur == target_i || !same {
        return same;
    }
    if a.children.len() != b.children.len() {
        return false;
    }
    let ghost start = *cur;
    let ghost target = target_i - *cur - 1;
    let ghost s = a.children@;
    let ghost t = b.children@;
    let mut i: usize = 0;
    assert(s.take(0) =~= Seq::<PlanNode>::empty());
    while i < a.children.len()
        invariant
            i <= a.children.len(),
            s == a.children@,
            t == b.children@,
            s.len() == t.len(),
            target == target_i - start - 1,
            target != -1,
            same_label(*a, *b),
            start + plan_nodes(*a) <= usize::MAX,
            start == *old(cur),
            *cur == start + forest_steps(s.take(i as int), t.take(i as int), target),
            forest_agrees(s.take(i as int), t.take(i as int), target),
        decreases a.children.len() - i,
    {
        let ghost before = forest_nodes(s.take(i as int));
        let ghost seen = forest_steps(s.take(i as int), t.take(i as int), target);
        proof {
            lemma_forest_nodes_step(s, i as int);
            lemma_forest_steps(s.take(i as int), t.take(i as int), target);
            assert(s.take(i + 1).drop_last() =~= s.take(i as int));
            assert(t.take(i + 1).drop_last() =~= t.take(i as int));
            assert(s.take(i + 1).last() == s[i as int]);
            assert(t.take(i + 1).last() == t[i as int]);
            assert(decreases_to!(*a => a.children@[i as int]));
            if 0 <= target < before {
                lemma_passed(s[i as int], t[i as int], target - seen, target - before);
            }
        }
        *cur = *cur + 1;
        let same_child: bool = partial_eq_plans_help(&a.children[i], &b.children[i], cur, target_i);
        assert(forest_agrees(s.take(i + 1), t.take(i + 1), target) == same_child);
        assert(*cur == start + forest_steps(s.take(i + 1), t.take(i + 1), target));
        if !same_child {
            proof {
                lemma_forest_prefix(s, t, target, i + 1);
            }
            return false;
        }
        i = i + 1;
    }
    assert(s.take(i as int) =~= s);
    assert(t.take(i as int) =~= t);
    true
}

/// Compares plan `a` to plan `b` down to the node at preorder index `target_i` of `a`: what lies
/// below that node may differ, while every other node has the same name, type and number of
/// inputs, and that node the same name and type.
pub fn partial_eq_plans(a: &PlanNode, b: &PlanNode, target_i: usize) -> (r: bool)
    requires
        plan_nodes(*a) <= usize::MAX,
    ensures
        r == agrees(*a, *b, target_i as int),
{
    let mut cur: usize = 0;
    partial_eq_plans_help(a, b, &mut cur, target_i)
}

/// Every plan agrees with itself, whatever the target.
pub proof fn lemma_agrees_reflexive(a: PlanNode, target: int)
    ensures
        agrees(a, a, target),
    decreases a,
{
    lemma_forest_agrees_reflexive(a.children@, target - 1);
}

proof fn lemma_forest_agrees_reflexive(s: Seq<PlanNode>, target: int)
    ensures
        forest_agrees(s, s, target),
    decreases s,
{
    if s.len() > 0 {
        lemma_forest_agrees_reflexive(s.drop_last(), target);
        lemma_agrees_reflexive(s.last(), target - forest_nodes(s.drop_last()));
    }
}

/// Plans that agree where nothing is left out agree down to every target.
pub proof fn lemma_agrees_everywhere(a: PlanNode, b: PlanNode, target: int)
    requires
        agrees(a, b, -1),
    ensures
        agrees(a, b, target),
    decreases a,
{
    if target != 0 {
        lemma_forest_agrees_everywhere(a.children@, b.children@, -2, target - 1);
    }
}

proof fn lemma_forest_agrees_everywhere(
    s: Seq<PlanNode>,
    t: Seq<PlanNode>,
    none: int,
    target: int,
)
    requires
        none < 0,
        s.len() == t.len(),
        forest_agrees(s, t, none),
    ensures
        forest_agrees(s, t, target),
    decreases s,
{
    if s.len() > 0 {
        let n = forest_nodes(s.drop_last());
        lemma_forest_agrees_everywhere(s.drop_last(), t.drop_last(), none, target);
        lemma_passed(s.last(), t.last(), none - n, -1);
        lemma_agrees_everywhere(s.last(), t.last(), target - n);
    }
}

/// Plans that agree where nothing is left out have as many nodes; plans that agree down to a node
/// both have that node.
pub proof fn lemma_agrees_nodes(a: PlanNode, b: PlanNode, target: int)
    requires
        agrees(a, b, target),
    ensures
        !(0 <= target < plan_nodes(a)) ==> plan_nodes(a) == plan_nodes(b),
        0 <= target < plan_nodes(a) ==> target < plan_nodes(b),
    decreases a,
{
    if target != 0 {
        lemma_forest_agrees_nodes(a.children@, b.children@, target - 1);
    }
}

proof fn lemma_forest_agrees_nodes(s: Seq<PlanNode>, t: Seq<PlanNode>, target: int)
    requires
        s.len() == t.len(),
        forest_agrees(s, t, target),
    ensures
        !(0 <= target < forest_nodes(s)) ==> forest_nodes(s) == forest_nodes(t),
        0 <= target < forest_nodes(s) ==> target < forest_nodes(t),
    decreases s,
{
    if s.len() > 0 {
        lemma_forest_agrees_nodes(s.drop_last(), t.drop_last(), target);
        lemma_agrees_nodes(s.last(), t.last(), target - forest_nodes(s.drop_last()));
    }
}

/// Which of two plans is compared to the other does not matter.
pub proof fn lemma_agrees_symmetric(a: PlanNode, b: PlanNode, target: int)
    requires
        agrees(a, b, target),
    ensures
        agrees(b, a, target),
    decreases a,
{
    if target != 0 {
        lemma_forest_agrees_symmetric(a.children@, b.children@, target - 1);
    }
}

proof fn lemma_forest_agrees_symmetric(s: Seq<PlanNode>, t: Seq<PlanNode>, target: int)
    requires
        s.len() == t.len(),
        forest_agrees(s, t, target),
    ensures
        forest_agrees(t, s, target),
    decreases s,
{
    if s.len() > 0 {
        let n = forest_nodes(s.drop_last());
        let m = forest_nodes(t.drop_last());
        lemma_forest_agrees_symmetric(s.drop_last(), t.drop_last(), target);
        lemma_forest_agrees_nodes(s.drop_last(), t.drop_last(), target);
        lemma_agrees_symmetric(s.last(), t.last(), target - n);
        if n != m {
            lemma_passed(t.last(), s.last(), target - n, target - m);
        }
    }
}

/// Changing what lies below the target does not change the answer: plans that agree down to a node
/// agree with the same plans down to it.
pub proof fn lemma_below_does_not_matter(a: PlanNode, other: PlanNode, b: PlanNode, target: int)
    requires
        agrees(a, other, target),
    ensures
        agrees(a, b, target) == agrees(other, b, target),
    decreases a,
{
    if target != 0 && a.children@.len() == b.children@.len() {
        lemma_forest_below_does_not_matter(a.children@, other.children@, b.children@, target - 1);
    }
}

proof fn lemma_forest_below_does_not_matter(
    s: Seq<PlanNode>,
    other: Seq<PlanNode>,
    t: Seq<PlanNode>,
    target: int,
)
    requires
        s.len() == other.len() == t.len(),
        forest_agrees(s, other, target),
    ensures
        forest_agrees(s, t, target) == forest_agrees(other, t, target),
    decreases s,
{
    if s.len() > 0 {
        let n = forest_nodes(s.drop_last());
        let m = forest_nodes(other.drop_last());
        lemma_forest_below_does_not_matter(
            s.drop_last(),
            other.drop_last(),
            t.drop_last(),
            target,
        );
        lemma_forest_agrees_nodes(s.drop_last(), other.drop_last(), target);
        lemma_below_does_not_matter(s.last(), other.last(), t.last(), target - n);
        if n != m {
            lemma_passed(other.last(), t.last(), target - n, target - m);
        }
    }
}

/// Plans agree down to the root exactly if the roots have the same name and the same type. Down to
/// any other node they agree exactly if besides there are as many inputs, and every input agrees
/// with the one at its place, down to the same node.
pub proof fn lemma_agrees_inputs(a: PlanNode, b: PlanNode, target: int)
    ensures
        agrees(a, b, 0) <==> a.name@ == b.name@ && a.type_id == b.type_id,
        target != 0 ==> (agrees(a, b, target) <==> {
            &&& a.name@ == b.name@
            &&& a.type_id == b.type_id
            &&& a.children@.len() == b.children@.len()
            &&& forall|k: int|
                0 <= k < a.children@.len() ==> agrees(
                    #[trigger] a.children@[k],
                    b.children@[k],
                    target - 1 - forest_nodes(a.children@.take(k)),
                )
        }),
{
    if a.children@.len() == b.children@.len() {
        lemma_forest_agrees_inputs(a.children@, b.children@, target - 1);
    }
}

proof fn lemma_forest_agrees_inputs(s: Seq<PlanNode>, t: Seq<PlanNode>, target: int)
    requires
        s.len() == t.len(),
    ensures
        forest_agrees(s, t, target) <==> forall|k: int|
            0 <= k < s.len() ==> agrees(
                #[trigger] s[k],
                t[k],
                target - forest_nodes(s.take(k)),
            ),
    decreases s.len(),
{
    if s.len() > 0 {
        let n = s.len() - 1;
        let rest = s.drop_last();
        lemma_forest_agrees_inputs(rest, t.drop_last(), target);
        assert(s.take(n) =~= rest);
        if forest_agrees(s, t, target) {
            assert forall|k: int| 0 <= k < s.len() implies agrees(
                #[trigger] s[k],
                t[k],
                target - forest_nodes(s.take(k)),
            ) by {
                if k < n {
                    assert(rest.take(k) =~= s.take(k));
                    assert(agrees(rest[k], t.drop_last()[k], target - forest_nodes(rest.take(k))));
                }
            }
        }
        if forall|k: int|
            0 <= k < s.len() ==> agrees(#[trigger] s[k], t[k], target - forest_nodes(s.take(k))) {
            assert forall|k: int| 0 <= k < rest.len() implies agrees(
                #[trigger] rest[k],
                t.drop_last()[k],
                target - forest_nodes(rest.take(k)),
            ) by {
                assert(rest.take(k) =~= s.take(k));
                assert(agrees(s[k], t[k], target - forest_nodes(s.take(k))));
            }
            assert(agrees(s[n], t[n], target - forest_nodes(s.take(n))));
        }
    }
}

} // verus!
