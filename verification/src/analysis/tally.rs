//! Counting which kinds of nodes and expressions have problems.
use vstd::prelude::*;
use crate::analysis::frequency::{
    counted, counted_all, has_room, lemma_counted_all_room, lemma_counted_all,
    lemma_counted_all_sound, lemma_counted_room, lemma_counted_sound, sound, Frequencies,
};
use crate::analysis::predicates::{
    distinct, get_pred_nodes, has_predicates, lemma_distinct, pred_names,
};
use crate::analysis::problems::{problems_at, NodeProblem, PlanProblems};
use crate::common::plan::{
    forest_nodes, lemma_forest_nodes_step, plan_nodes, PlanNode,
};
use crate::text::texts;

verus! {

/// The counts of kinds of nodes, and of kinds of expressions in their predicates.
pub struct Tally {
    /// Counts of kinds of nodes.
    pub nodes: Map<Seq<char>, (nat, nat)>,
    /// Counts of kinds of expressions.
    pub preds: Map<Seq<char>, (nat, nat)>,
}

/// The counts with one more node.
pub open spec fn counted_node(t: Tally, node: PlanNode, problem: bool) -> Tally {
    Tally {
        nodes: counted(t.nodes, node.name@, problem),
        preds: counted_all(t.preds, distinct(pred_names(node)), problem),
    }
}

/// Whether a crash is all that is wrong.
pub open spec fn only_crash(problems: Seq<NodeProblem>) -> bool {
    problems.len() == 1 && problems[0] == NodeProblem::Crash
}

/// Whether something other than a crash is wrong.
pub open spec fn misestimated(problems: Seq<NodeProblem>) -> bool {
    exists|i: int| 0 <= i < problems.len() && #[trigger] problems[i] != NodeProblem::Crash
}

/// The counts after the node at preorder index `at` and what lies below it, the index reached, and
/// whether the node is misestimated.
///
/// A node that merely crashed is not counted. Where only root problems matter, a node with a
/// misestimated input does not count as having a problem itself.
pub open spec fn tally(
    node: PlanNode,
    at: nat,
    found: Map<usize, Seq<NodeProblem>>,
    root_only: bool,
    t: Tally,
) -> (Tally, nat, bool)
    decreases node,
{
    let problems = problems_at(found, at);
    let below = tally_inputs(node.children@, at, found, root_only, t);
    if only_crash(problems) {
        (below.0, below.1, false)
    } else {
        let problem = misestimated(problems);
        (
            counted_node(below.0, node, problem && !(root_only && below.2)),
            below.1,
            problem,
        )
    }
}

/// The counts after the inputs of a node, the index reached, and whether any input is misestimated.
pub open spec fn tally_inputs(
    s: Seq<PlanNode>,
    at: nat,
    found: Map<usize, Seq<NodeProblem>>,
    root_only: bool,
    t: Tally,
) -> (Tally, nat, bool)
    decreases s,
{
    if s.len() == 0 {
        (t, at, false)
    } else {
        let before = tally_inputs(s.drop_last(), at, found, root_only, t);
        let last = tally(s.last(), before.1 + 1, found, root_only, before.0);
        (last.0, last.1, before.2 || last.2)
    }
}

/// Whether `n` more nodes can be counted.
pub open spec fn tally_room(t: Tally, n: nat) -> bool {
    has_room(t.nodes, n) && has_room(t.preds, n)
}

proof fn lemma_less_room(t: Tally, n: nat, m: nat)
    requires
        tally_room(t, n),
        m <= n,
    ensures
        tally_room(t, m),
{
}

/// The index reached is that of the last node: every node is visited, each at its own index.
pub proof fn lemma_tally_visits_all(
    node: PlanNode,
    at: nat,
    found: Map<usize, Seq<NodeProblem>>,
    root_only: bool,
    t: Tally,
)
    ensures
        tally(node, at, found, root_only, t).1 + 1 == at + plan_nodes(node),
        tally_inputs(node.children@, at, found, root_only, t).1 == at + forest_nodes(
            node.children@,
        ),
    decreases node,
{
    lemma_inputs_visit_all(node.children@, at, found, root_only, t);
}

proof fn lemma_inputs_visit_all(
    s: Seq<PlanNode>,
    at: nat,
    found: Map<usize, Seq<NodeProblem>>,
    root_only: bool,
    t: Tally,
)
    ensures
        tally_inputs(s, at, found, root_only, t).1 == at + forest_nodes(s),
    decreases s,
{
    if s.len() > 0 {
        lemma_inputs_visit_all(s.drop_last(), at, found, root_only, t);
        let before = tally_inputs(s.drop_last(), at, found, root_only, t);
        lemma_tally_visits_all(s.last(), before.1 + 1, found, root_only, before.0);
    }
}

/// The index reached lies among the nodes, and there is room for as many nodes less as there are.
pub proof fn lemma_tally_bounds(
    node: PlanNode,
    at: nat,
    found: Map<usize, Seq<NodeProblem>>,
    root_only: bool,
    t: Tally,
    spare: nat,
)
    requires
        tally_room(t, plan_nodes(node) + spare),
        plan_nodes(node) + spare <= usize::MAX,
    ensures
        at <= tally(node, at, found, root_only, t).1 < at + plan_nodes(node),
        tally_room(tally(node, at, found, root_only, t).0, spare),
    decreases node,
{
    let n = forest_nodes(node.children@);
    if only_crash(problems_at(found, at)) {
        lemma_less_room(t, plan_nodes(node) + spare, n + spare);
        lemma_tally_inputs_bounds(node.children@, at, found, root_only, t, spare);
    } else {
        lemma_tally_inputs_bounds(node.children@, at, found, root_only, t, spare + 1);
        let below = tally_inputs(node.children@, at, found, root_only, t);
        let problem = misestimated(problems_at(found, at)) && !(root_only && below.2);
        lemma_counted_room(below.0.nodes, node.name@, problem, spare);
        lemma_distinct(pred_names(node));
        lemma_counted_all_room(below.0.preds, distinct(pred_names(node)), problem, spare);
    }
}

proof fn lemma_tally_inputs_bounds(
    s: Seq<PlanNode>,
    at: nat,
    found: Map<usize, Seq<NodeProblem>>,
    root_only: bool,
    t: Tally,
    spare: nat,
)
    requires
        tally_room(t, forest_nodes(s) + spare),
        forest_nodes(s) + spare <= usize::MAX,
    ensures
        at <= tally_inputs(s, at, found, root_only, t).1 <= at + forest_nodes(s),
        tally_room(tally_inputs(s, at, found, root_only, t).0, spare),
    decreases s,
{
    if s.len() > 0 {
        let n = plan_nodes(s.last());
        lemma_tally_inputs_bounds(s.drop_last(), at, found, root_only, t, n + spare);
        let before = tally_inputs(s.drop_last(), at, found, root_only, t);
        lemma_tally_bounds(s.last(), before.1 + 1, found, root_only, before.0, spare);
    }
}

/// Whether all nodes of a plan have the predicates that their names promise.
pub open spec fn all_have_predicates(node: PlanNode) -> bool
    decreases node,
{
    has_predicates(node) && forest_has_predicates(node.children@)
}

/// Whether all nodes of several plans have the predicates that their names promise.
pub open spec fn forest_has_predicates(s: Seq<PlanNode>) -> bool
    decreases s,
{
    s.len() == 0 || (forest_has_predicates(s.drop_last()) && all_have_predicates(s.last()))
}

proof fn lemma_forest_has_predicates(s: Seq<PlanNode>, i: int)
    requires
        0 <= i < s.len(),
        forest_has_predicates(s),
    ensures
        all_have_predicates(s[i]),
    decreases s.len(),
{
    if i < s.len() - 1 {
        lemma_forest_has_predicates(s.drop_last(), i);
        assert(s.drop_last()[i] == s[i]);
    }
}

/// The problems found in a plan; none where it has not been looked at.
pub open spec fn found_in(problems: PlanProblems, plan_idx: usize) -> Map<usize, Seq<NodeProblem>> {
    if problems@.contains_key(plan_idx) {
        problems@[plan_idx]
    } else {
        Map::empty()
    }
}

/// What is wrong with a node: whether a crash is all, and whether something else is.
fn node_state(problems: &PlanProblems, plan_idx: usize, node_idx: usize) -> (r: (bool, bool))
    ensures
        r.0 == only_crash(problems_at(found_in(*problems, plan_idx), node_idx as nat)),
        r.1 == misestimated(problems_at(found_in(*problems, plan_idx), node_idx as nat)),
{
    match problems.get(&plan_idx) {
        Some(nodes) => match nodes.get(&node_idx) {
            Some(list) => {
                let just_crash: bool = list.len() == 1 && list[0] == NodeProblem::Crash;
                let mut other: bool = false;
                let mut i: usize = 0;
                while i < list.len()
                    invariant
                        i <= list.len(),
                        other == exists|k: int|
                            0 <= k < i && #[trigger] list@[k] != NodeProblem::Crash,
                    decreases list.len() - i,
                {
                    if list[i] != NodeProblem::Crash {
                        assert(list@[i as int] != NodeProblem::Crash);
                        other = true;
                    }
                    i = i + 1;
                }
                (just_crash, other)
            },
            None => (false, false),
        },
        None => (false, false),
    }
}

/// Counts one node.
fn count_node(
    node: &PlanNode,
    problem: bool,
    node_freqs: &mut Frequencies,
    pred_freqs: &mut Frequencies,
)
    requires
        has_predicates(*node),
        has_room(old(node_freqs)@, 1),
        has_room(old(pred_freqs)@, 1),
    ensures
        final(node_freqs)@ == counted(old(node_freqs)@, node.name@, problem),
        final(pred_freqs)@ == counted_all(
            old(pred_freqs)@,
            distinct(pred_names(*node)),
            problem,
        ),
{
    node_freqs.count(&node.name, problem);
    let kinds: Vec<String> = get_pred_nodes(node);
    let ghost s = texts(kinds@);
    let ghost m = pred_freqs@;
    proof {
        lemma_distinct(pred_names(*node));
    }
    let mut i: usize = 0;
    assert(s.take(0) =~= Seq::<Seq<char>>::empty());
    while i < kinds.len()
        invariant
            i <= kinds.len(),
            s == texts(kinds@),
            s.no_duplicates(),
            has_room(m, 1),
            pred_freqs@ == counted_all(m, s.take(i as int), problem),
        decreases kinds.len() - i,
    {
        proof {
            assert(s.take(i + 1).drop_last() =~= s.take(i as int));
            assert(s.take(i + 1).last() == kinds@[i as int]@);
            lemma_counted_all(m, s.take(i as int), problem);
            assert(!s.take(i as int).contains(s[i as int]));
            assert(pred_freqs@.contains_key(s[i as int]) == m.contains_key(s[i as int]));
        }
        pred_freqs.count(&kinds[i], problem);
        i = i + 1;
    }
    assert(s.take(i as int) =~= s);
}

/// Counts the nodes of a plan, by their kind and by the kinds of expressions in their predicates,
/// and how many of them have problems. Returns whether the root is misestimated.
pub fn collect_freq_info(
    plan_idx: usize,
    node_idx: &mut usize,
    node: &PlanNode,
    problems: &PlanProblems,
    node_freqs: &mut Frequencies,
    pred_freqs: &mut Frequencies,
    root_only: bool,
) -> (r: bool)
    requires
        *old(node_idx) + plan_nodes(*node) <= usize::MAX,
        all_have_predicates(*node),
        tally_room(
            (Tally { nodes: old(node_freqs)@, preds: old(pred_freqs)@ }),
            plan_nodes(*node),
        ),
    ensures
        (
            (Tally { nodes: final(node_freqs)@, preds: final(pred_freqs)@ }),
            *final(node_idx) as nat,
            r,
        ) == tally(
            *node,
            *old(node_idx) as nat,
            found_in(*problems, plan_idx),
            root_only,
            (Tally { nodes: old(node_freqs)@, preds: old(pred_freqs)@ }),
        ),
        *final(node_idx) + 1 == *old(node_idx) + plan_nodes(*node),
    decreases *node,
{
    proof {
        lemma_tally_visits_all(
            *node,
            *node_idx as nat,
            found_in(*problems, plan_idx),
            root_only,
            Tally { nodes: node_freqs@, preds: pred_freqs@ },
        );
    }
    let ghost t = Tally { nodes: node_freqs@, preds: pred_freqs@ };
    let ghost at = *node_idx as nat;
    let ghost found = found_in(*problems, plan_idx);
    let ghost s = node.children@;
    let ghost total = plan_nodes(*node);
    let (just_crash, has_problem): (bool, bool) = node_state(problems, plan_idx, *node_idx);
    assert(s.take(0) =~= Seq::<PlanNode>::empty());
    let mut i: usize = 0;
    let mut bad_child: bool = false;
    while i < node.children.len()
        invariant
            i <= node.children.len(),
            s == node.children@,
            forest_has_predicates(s),
            found == found_in(*problems, plan_idx),
            total == plan_nodes(*node),
            at + total <= usize::MAX,
            tally_room(t, total),
            (
                (Tally { nodes: node_freqs@, preds: pred_freqs@ }),
                *node_idx as nat,
                bad_child,
            ) == tally_inputs(s.take(i as int), at, found, root_only, t),
        decreases node.children.len() - i,
    {
        let ghost n = forest_nodes(s.take(i as int));
        proof {
            lemma_forest_nodes_step(s, i as int);
            lemma_forest_has_predicates(s, i as int);
            assert(decreases_to!(*node => node.children@[i as int]));
            assert(s.take(i + 1).drop_last() =~= s.take(i as int));
            assert(s.take(i + 1).last() == s[i as int]);
            let rest = plan_nodes(s[i as int]);
            lemma_less_room(t, total, n + rest);
            lemma_tally_inputs_bounds(s.take(i as int), at, found, root_only, t, rest);
        }
        *node_idx = *node_idx + 1;
        let bad: bool = collect_freq_info(
            plan_idx,
            node_idx,
            &node.children[i],
            problems,
            node_freqs,
            pred_freqs,
            root_only,
        );
        bad_child = bad_child || bad;
        i = i + 1;
    }
    assert(s.take(i as int) =~= s);
    if just_crash {
        return false;
    }
    proof {
        lemma_tally_inputs_bounds(s, at, found, root_only, t, 1);
    }
    count_node(node, has_problem && !(root_only && bad_child), node_freqs, pred_freqs);
    has_problem
}

/// Whether no kind has a problem more often than it occurs.
pub open spec fn tally_sound(t: Tally) -> bool {
    sound(t.nodes) && sound(t.preds)
}

/// Counting keeps it so that no kind of node or expression has a problem more often than it occurs.
pub proof fn lemma_tally_sound(
    node: PlanNode,
    at: nat,
    found: Map<usize, Seq<NodeProblem>>,
    root_only: bool,
    t: Tally,
)
    requires
        tally_sound(t),
    ensures
        tally_sound(tally(node, at, found, root_only, t).0),
    decreases node,
{
    lemma_tally_inputs_sound(node.children@, at, found, root_only, t);
    if !only_crash(problems_at(found, at)) {
        let below = tally_inputs(node.children@, at, found, root_only, t);
        let problem = misestimated(problems_at(found, at)) && !(root_only && below.2);
        lemma_counted_sound(below.0.nodes, node.name@, problem);
        lemma_counted_all_sound(below.0.preds, distinct(pred_names(node)), problem);
    }
}

proof fn lemma_tally_inputs_sound(
    s: Seq<PlanNode>,
    at: nat,
    found: Map<usize, Seq<NodeProblem>>,
    root_only: bool,
    t: Tally,
)
    requires
        tally_sound(t),
    ensures
        tally_sound(tally_inputs(s, at, found, root_only, t).0),
    decreases s,
{
    if s.len() > 0 {
        lemma_tally_inputs_sound(s.drop_last(), at, found, root_only, t);
        let before = tally_inputs(s.drop_last(), at, found, root_only, t);
        lemma_tally_sound(s.last(), before.1 + 1, found, root_only, before.0);
    }
}

/// The counts of a kind: how often it has a problem, and occurs.
pub open spec fn counts_of(m: Map<Seq<char>, (nat, nat)>, kind: Seq<char>) -> (nat, nat) {
    if m.contains_key(kind) {
        m[kind]
    } else {
        (0, 0)
    }
}

/// How many nodes of a kind are misestimated, and how many there are, of those from preorder index
/// `at` on that did not merely crash.
pub open spec fn kind_counts(
    node: PlanNode,
    at: nat,
    found: Map<usize, Seq<NodeProblem>>,
    kind: Seq<char>,
) -> (nat, nat)
    decreases node,
{
    let problems = problems_at(found, at);
    let below = forest_kind_counts(node.children@, at, found, kind);
    if only_crash(problems) || node.name@ != kind {
        below
    } else {
        (
            below.0 + if misestimated(problems) {
                1nat
            } else {
                0nat
            },
            below.1 + 1,
        )
    }
}

/// The same of the inputs of the node at preorder index `at`.
pub open spec fn forest_kind_counts(
    s: Seq<PlanNode>,
    at: nat,
    found: Map<usize, Seq<NodeProblem>>,
    kind: Seq<char>,
) -> (nat, nat)
    decreases s,
{
    if s.len() == 0 {
        (0, 0)
    } else {
        let before = forest_kind_counts(s.drop_last(), at, found, kind);
        let last = kind_counts(s.last(), at + forest_nodes(s.drop_last()) + 1, found, kind);
        (before.0 + last.0, before.1 + last.1)
    }
}

/// Every node that did not merely crash is counted as one of its kind. Where all problems matter,
/// every misestimated one is counted as having a problem.
pub proof fn lemma_tally_counts_all(
    node: PlanNode,
    at: nat,
    found: Map<usize, Seq<NodeProblem>>,
    root_only: bool,
    t: Tally,
    kind: Seq<char>,
)
    ensures
        ({
            let before = counts_of(t.nodes, kind);
            let after = counts_of(tally(node, at, found, root_only, t).0.nodes, kind);
            let there = kind_counts(node, at, found, kind);
            &&& after.1 == before.1 + there.1
            &&& !root_only ==> after.0 == before.0 + there.0
            &&& before.0 <= after.0 <= before.0 + there.0
        }),
    decreases node,
{
    lemma_inputs_count_all(node.children@, at, found, root_only, t, kind);
}

proof fn lemma_inputs_count_all(
    s: Seq<PlanNode>,
    at: nat,
    found: Map<usize, Seq<NodeProblem>>,
    root_only: bool,
    t: Tally,
    kind: Seq<char>,
)
    ensures
        ({
            let before = counts_of(t.nodes, kind);
            let after = counts_of(tally_inputs(s, at, found, root_only, t).0.nodes, kind);
            let there = forest_kind_counts(s, at, found, kind);
            &&& after.1 == before.1 + there.1
            &&& !root_only ==> after.0 == before.0 + there.0
            &&& before.0 <= after.0 <= before.0 + there.0
        }),
    decreases s,
{
    if s.len() > 0 {
        lemma_inputs_count_all(s.drop_last(), at, found, root_only, t, kind);
        lemma_inputs_visit_all(s.drop_last(), at, found, root_only, t);
        let before = tally_inputs(s.drop_last(), at, found, root_only, t);
        lemma_tally_counts_all(s.last(), before.1 + 1, found, root_only, before.0, kind);
    }
}

/// Whether some input of the node at preorder index `at` is misestimated: the input `k` stands
/// behind the nodes of the inputs before it.
pub open spec fn bad_input(node: PlanNode, at: nat, found: Map<usize, Seq<NodeProblem>>) -> bool {
    exists|k: int|
        0 <= k < node.children@.len() && misestimated(
            problems_at(found, at + 1 + #[trigger] forest_nodes(node.children@.take(k))),
        )
}

proof fn lemma_bad_input(
    s: Seq<PlanNode>,
    at: nat,
    found: Map<usize, Seq<NodeProblem>>,
    root_only: bool,
    t: Tally,
)
    ensures
        tally_inputs(s, at, found, root_only, t).2 <==> exists|k: int|
            0 <= k < s.len() && misestimated(
                problems_at(found, at + 1 + #[trigger] forest_nodes(s.take(k))),
            ),
    decreases s.len(),
{
    if s.len() > 0 {
        let n = s.len() - 1;
        let rest = s.drop_last();
        let before = tally_inputs(rest, at, found, root_only, t);
        lemma_bad_input(rest, at, found, root_only, t);
        lemma_inputs_visit_all(rest, at, found, root_only, t);
        assert(s.take(n) =~= rest);
        let last = problems_at(found, before.1 + 1);
        assert(at + 1 + forest_nodes(s.take(n)) == before.1 + 1);
        if only_crash(last) {
            assert(!misestimated(last));
        }
        assert(tally(s.last(), before.1 + 1, found, root_only, before.0).2 == misestimated(last));
        if misestimated(last) {
            assert(misestimated(problems_at(found, at + 1 + forest_nodes(s.take(n)))));
        }
        if before.2 {
            let k = choose|k: int|
                0 <= k < rest.len() && misestimated(
                    problems_at(found, at + 1 + #[trigger] forest_nodes(rest.take(k))),
                );
            assert(rest.take(k) =~= s.take(k));
            assert(misestimated(problems_at(found, at + 1 + forest_nodes(s.take(k)))));
        }
        if exists|k: int|
            0 <= k < s.len() && misestimated(
                problems_at(found, at + 1 + #[trigger] forest_nodes(s.take(k))),
            ) {
            let k = choose|k: int|
                0 <= k < s.len() && misestimated(
                    problems_at(found, at + 1 + #[trigger] forest_nodes(s.take(k))),
                );
            if k < n {
                assert(rest.take(k) =~= s.take(k));
                assert(misestimated(problems_at(found, at + 1 + forest_nodes(rest.take(k)))));
            }
        }
    }
}

/// A node at preorder index `at` that did not merely crash is counted once among those of its kind,
/// on top of what lies below it. It counts as having a problem exactly if it is misestimated and,
/// where only root problems matter, none of its inputs is. A node that merely crashed is not
/// counted.
pub proof fn lemma_node_counted(
    node: PlanNode,
    at: nat,
    found: Map<usize, Seq<NodeProblem>>,
    root_only: bool,
    t: Tally,
    kind: Seq<char>,
)
    ensures
        ({
            let below = counts_of(
                tally_inputs(node.children@, at, found, root_only, t).0.nodes,
                kind,
            );
            let after = counts_of(tally(node, at, found, root_only, t).0.nodes, kind);
            let problems = problems_at(found, at);
            let crashed = problems == seq![NodeProblem::Crash];
            let problem = misestimated(problems) && !(root_only && bad_input(node, at, found));
            &&& crashed || node.name@ != kind ==> after == below
            &&& !crashed && node.name@ == kind ==> after == (
                below.0 + if problem {
                    1nat
                } else {
                    0nat
                },
                below.1 + 1,
            )
            &&& tally(node, at, found, root_only, t).2 == misestimated(problems)
        }),
{
    let problems = problems_at(found, at);
    lemma_bad_input(node.children@, at, found, root_only, t);
    assert(only_crash(problems) <==> problems =~= seq![NodeProblem::Crash]);
    if only_crash(problems) {
        assert(!misestimated(problems));
    }
}

/// A kind of expression is counted once for each node that did not merely crash and whose
/// predicates hold it, in the same way.
pub proof fn lemma_node_expressions_counted(
    node: PlanNode,
    at: nat,
    found: Map<usize, Seq<NodeProblem>>,
    root_only: bool,
    t: Tally,
    kind: Seq<char>,
)
    ensures
        ({
            let below = counts_of(
                tally_inputs(node.children@, at, found, root_only, t).0.preds,
                kind,
            );
            let after = counts_of(tally(node, at, found, root_only, t).0.preds, kind);
            let problems = problems_at(found, at);
            let crashed = problems == seq![NodeProblem::Crash];
            let problem = misestimated(problems) && !(root_only && bad_input(node, at, found));
            &&& crashed || !pred_names(node).contains(kind) ==> after == below
            &&& !crashed && pred_names(node).contains(kind) ==> after == (
                below.0 + if problem {
                    1nat
                } else {
                    0nat
                },
                below.1 + 1,
            )
        }),
{
    let problems = problems_at(found, at);
    lemma_bad_input(node.children@, at, found, root_only, t);
    assert(only_crash(problems) <==> problems =~= seq![NodeProblem::Crash]);
    lemma_distinct(pred_names(node));
    let kinds = distinct(pred_names(node));
    assert(kinds.contains(kind) == pred_names(node).contains(kind));
    let below = tally_inputs(node.children@, at, found, root_only, t);
    let problem = misestimated(problems) && !(root_only && below.2);
    lemma_counted_all(below.0.preds, kinds, problem);
    if !only_crash(problems) {
        let after = counted_all(below.0.preds, kinds, problem);
        assert(kinds.contains(kind) ==> after.contains_key(kind));
        assert(!kinds.contains(kind) ==> after.contains_key(kind)
            == below.0.preds.contains_key(kind));
    }
}

/// Inputs are counted one after the other, each at the preorder index behind the nodes of those
/// before it.
pub proof fn lemma_inputs_counted(
    s: Seq<PlanNode>,
    at: nat,
    found: Map<usize, Seq<NodeProblem>>,
    root_only: bool,
    t: Tally,
)
    requires
        s.len() > 0,
    ensures
        tally_inputs(s, at, found, root_only, t).0 == tally(
            s.last(),
            at + 1 + forest_nodes(s.drop_last()),
            found,
            root_only,
            tally_inputs(s.drop_last(), at, found, root_only, t).0,
        ).0,
        tally_inputs(Seq::empty(), at, found, root_only, t).0 == t,
{
    lemma_inputs_visit_all(s.drop_last(), at, found, root_only, t);
}

/// A problem other than a crash is one that is a misestimated cardinality or cost.
pub proof fn lemma_misestimated(problems: Seq<NodeProblem>)
    ensures
        misestimated(problems) <==> exists|i: int|
            0 <= i < problems.len() && (#[trigger] problems[i] is CardinalityMisestimation
                || problems[i] is CostMisestimation),
{
    if misestimated(problems) {
        let i = choose|i: int|
            0 <= i < problems.len() && #[trigger] problems[i] != NodeProblem::Crash;
        assert(problems[i] is CardinalityMisestimation || problems[i] is CostMisestimation);
    }
}

} // verus!
