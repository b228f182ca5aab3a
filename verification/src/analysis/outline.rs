//! Texts of plans with the problems of their nodes.
use vstd::prelude::*;
use vstd::string::*;
use crate::analysis::problems::{NodeProblem, NodeProblems};
use crate::common::listing::{
    lemma_lines_joined, lemma_lines_single, lemma_placed_all_len, lines, placed, placed_all,
};
use crate::common::plan::{forest_nodes, lemma_forest_nodes_step, plan_nodes, PlanNode};
use crate::float::encoding::Float64;
use crate::text::{decimal, push_decimal, push_repeated, repeated};

verus! {

/// Whether `show` gives one text for each number.
pub open spec fn shows<F: Fn(Float64) -> String>(show: F) -> bool {
    &&& forall|x: Float64| #[trigger] call_requires(show, (x,))
    &&& forall|x: Float64, s: String, t: String|
        #[trigger] call_ensures(show, (x,), s) && #[trigger] call_ensures(show, (x,), t) ==> s@
            == t@
}

/// The text that `show` gives for a number.
pub open spec fn shown<F: Fn(Float64) -> String>(show: F, x: Float64) -> Seq<char> {
    (choose|s: String| call_ensures(show, (x,), s))@
}

/// The text that `show` gives for a number.
fn show_number<F: Fn(Float64) -> String>(show: &F, x: Float64) -> (r: String)
    requires
        shows(*show),
    ensures
        r@ == shown(*show, x),
{
    let r: String = show(x);
    assert(call_ensures(*show, (x,), r));
    r
}

/// The text of a problem.
pub open spec fn problem_text<F: Fn(Float64) -> String>(p: NodeProblem, show: F) -> Seq<char> {
    match p {
        NodeProblem::Crash => "Crash"@,
        NodeProblem::CardinalityMisestimation(estimated, actual, q) => {
            "CardinalityMisestimation("@ + decimal(estimated as nat) + ", "@ + decimal(
                actual as nat,
            ) + ", "@ + shown(show, q) + ")"@
        },
        NodeProblem::CostMisestimation(millis, cost, by_cost, by_time) => {
            "CostMisestimation("@ + decimal(millis as nat) + ", "@ + shown(show, cost) + ", "@
                + decimal(by_cost as nat) + ", "@ + decimal(by_time as nat) + ")"@
        },
    }
}

/// Appends the text of a problem.
fn push_problem<F: Fn(Float64) -> String>(out: &mut String, p: &NodeProblem, show: &F)
    requires
        shows(*show),
    ensures
        final(out)@ == old(out)@ + problem_text(*p, *show),
{
    match p {
        NodeProblem::Crash => {
            out.append("Crash");
        },
        NodeProblem::CardinalityMisestimation(estimated, actual, q) => {
            out.append("CardinalityMisestimation(");
            push_decimal(out, *estimated as u128);
            out.append(", ");
            push_decimal(out, *actual as u128);
            out.append(", ");
            out.append(show_number(show, *q).as_str());
            out.append(")");
        },
        NodeProblem::CostMisestimation(millis, cost, by_cost, by_time) => {
            out.append("CostMisestimation(");
            push_decimal(out, *millis);
            out.append(", ");
            out.append(show_number(show, *cost).as_str());
            out.append(", ");
            push_decimal(out, *by_cost as u128);
            out.append(", ");
            push_decimal(out, *by_time as u128);
            out.append(")");
        },
    }
    assert(out@ =~= old(out)@ + problem_text(*p, *show));
}

/// The texts of problems, with commas between them.
pub open spec fn joined_problems<F: Fn(Float64) -> String>(
    s: Seq<NodeProblem>,
    show: F,
) -> Seq<char>
    decreases s.len(),
{
    if s.len() == 0 {
        Seq::empty()
    } else if s.len() == 1 {
        problem_text(s[0], show)
    } else {
        joined_problems(s.drop_last(), show) + ", "@ + problem_text(s.last(), show)
    }
}

/// The text of the problems of a node.
pub open spec fn problems_text<F: Fn(Float64) -> String>(
    s: Seq<NodeProblem>,
    show: F,
) -> Seq<char> {
    "["@ + joined_problems(s, show) + "]"@
}

/// Appends the text of the problems of a node.
fn push_problems<F: Fn(Float64) -> String>(out: &mut String, list: &Vec<NodeProblem>, show: &F)
    requires
        shows(*show),
    ensures
        final(out)@ == old(out)@ + problems_text(list@, *show),
{
    let ghost s = list@;
    out.append("[");
    let ghost start = out@;
    let mut i: usize = 0;
    assert(s.take(0) =~= Seq::<NodeProblem>::empty());
    assert(out@ =~= start + joined_problems(s.take(0), *show));
    while i < list.len()
        invariant
            i <= list.len(),
            s == list@,
            shows(*show),
            out@ == start + joined_problems(s.take(i as int), *show),
        decreases list.len() - i,
    {
        if i > 0 {
            out.append(", ");
        }
        push_problem(out, &list[i], show);
        proof {
            assert(s.take(i + 1).drop_last() =~= s.take(i as int));
            assert(out@ =~= start + joined_problems(s.take(i + 1), *show));
        }
        i = i + 1;
    }
    assert(s.take(i as int) =~= s);
    out.append("]");
    assert(out@ =~= old(out)@ + problems_text(s, *show));
}

/// What stands behind the name of the node at preorder index `at`: its problems, if there are any
/// entered for it.
pub open spec fn remark<F: Fn(Float64) -> String>(
    found: Option<Map<usize, Seq<NodeProblem>>>,
    at: nat,
    show: F,
) -> Seq<char> {
    match found {
        Some(m) if at <= usize::MAX && m.contains_key(at as usize) => problems_text(
            m[at as usize],
            show,
        ),
        _ => Seq::empty(),
    }
}

/// The names of the nodes of a plan with their problems, one node on each line, indented by how
/// deep it lies.
pub open spec fn problem_outline<F: Fn(Float64) -> String>(
    node: PlanNode,
    depth: nat,
    found: Option<Map<usize, Seq<NodeProblem>>>,
    at: nat,
    show: F,
) -> Seq<char>
    decreases node,
{
    repeated("  "@, depth) + node.name@ + " | "@ + remark(found, at, show) + "\n"@ + problem_forest(
        node.children@,
        depth + 1,
        found,
        at + 1,
        show,
    )
}

/// The outlines of several plans with their problems.
pub open spec fn problem_forest<F: Fn(Float64) -> String>(
    s: Seq<PlanNode>,
    depth: nat,
    found: Option<Map<usize, Seq<NodeProblem>>>,
    at: nat,
    show: F,
) -> Seq<char>
    decreases s,
{
    if s.len() == 0 {
        Seq::empty()
    } else {
        problem_forest(s.drop_last(), depth, found, at, show) + problem_outline(
            s.last(),
            depth,
            found,
            at + forest_nodes(s.drop_last()),
            show,
        )
    }
}

/// The problems entered for a plan.
pub open spec fn entered(found: Option<&NodeProblems>) -> Option<Map<usize, Seq<NodeProblem>>> {
    match found {
        Some(m) => Some(m@),
        None => None,
    }
}

/// Appends the outline of a plan with the problems of its nodes, the first of which stands at
/// preorder index `idx`.
pub fn dump_plan_help<F: Fn(Float64) -> String>(
    out: &mut String,
    node: &PlanNode,
    depth: usize,
    found: Option<&NodeProblems>,
    idx: &mut usize,
    show: &F,
)
    requires
        depth + plan_nodes(*node) <= usize::MAX,
        *old(idx) + plan_nodes(*node) <= usize::MAX,
        shows(*show),
    ensures
        final(out)@ == old(out)@ + problem_outline(
            *node,
            depth as nat,
            entered(found),
            *old(idx) as nat,
            *show,
        ),
        *final(idx) == *old(idx) + plan_nodes(*node),
    decreases *node,
{
    let ghost m = entered(found);
    let ghost at = *idx as nat;
    let ghost deeper = (depth + 1) as nat;
    push_repeated(out, "  ", depth);
    out.append(node.name.as_str());
    out.append(" | ");
    match found {
        Some(problems) => match problems.get(idx) {
            Some(list) => {
                push_problems(out, list, show);
            },
            None => {},
        },
        None => {},
    }
    out.append("\n");
    *idx = *idx + 1;
    let ghost start = out@;
    let ghost s = node.children@;
    assert(start =~= old(out)@ + (repeated("  "@, depth as nat) + node.name@ + " | "@ + remark(
        m,
        at,
        *show,
    ) + "\n"@));
    let mut i: usize = 0;
    assert(s.take(0) =~= Seq::<PlanNode>::empty());
    assert(start + problem_forest(s.take(0), deeper, m, at + 1, *show) =~= start);
    while i < node.children.len()
        invariant
            i <= node.children.len(),
            s == node.children@,
            m == entered(found),
            deeper == depth + 1,
            depth + plan_nodes(*node) <= usize::MAX,
            at + plan_nodes(*node) <= usize::MAX,
            shows(*show),
            *idx == at + 1 + forest_nodes(s.take(i as int)),
            out@ == start + problem_forest(s.take(i as int), deeper, m, at + 1, *show),
        decreases node.children.len() - i,
    {
        proof {
            lemma_forest_nodes_step(s, i as int);
            assert(decreases_to!(*node => node.children@[i as int]));
            assert(s.take(i + 1).drop_last() =~= s.take(i as int));
        }
        dump_plan_help(out, &node.children[i], depth + 1, found, idx, show);
        assert(out@ =~= start + problem_forest(s.take(i + 1), deeper, m, at + 1, *show));
        i = i + 1;
    }
    assert(s.take(i as int) =~= s);
    assert(out@ =~= old(out)@ + problem_outline(*node, depth as nat, m, at, *show));
}

/// A node's line in an outline with problems: its name and the problems at its index.
pub open spec fn problem_line<F: Fn(Float64) -> String>(
    found: Option<Map<usize, Seq<NodeProblem>>>,
    show: F,
) -> spec_fn(PlanNode, nat, nat) -> Seq<char> {
    |node: PlanNode, depth: nat, at: nat|
        repeated("  "@, depth) + node.name@ + " | "@ + remark(found, at, show) + "\n"@
}

/// An outline with problems has a line for each node, in preorder. The node's problems are those at
/// its preorder index, counted from `at` on.
pub proof fn lemma_problem_lines<F: Fn(Float64) -> String>(
    node: PlanNode,
    depth: nat,
    found: Option<Map<usize, Seq<NodeProblem>>>,
    at: nat,
    show: F,
)
    ensures
        problem_outline(node, depth, found, at, show) == lines(
            placed(node, depth),
            at,
            problem_line(found, show),
        ),
    decreases node,
{
    let line = problem_line(found, show);
    lemma_problem_forest_lines(node.children@, depth + 1, found, at + 1, show);
    lemma_lines_single(node, depth, at, line);
    lemma_lines_joined(seq![(node, depth)], placed_all(node.children@, depth + 1), at, line);
}

proof fn lemma_problem_forest_lines<F: Fn(Float64) -> String>(
    s: Seq<PlanNode>,
    depth: nat,
    found: Option<Map<usize, Seq<NodeProblem>>>,
    at: nat,
    show: F,
)
    ensures
        problem_forest(s, depth, found, at, show) == lines(
            placed_all(s, depth),
            at,
            problem_line(found, show),
        ),
    decreases s,
{
    let line = problem_line(found, show);
    if s.len() > 0 {
        let before = placed_all(s.drop_last(), depth);
        lemma_placed_all_len(s.drop_last(), depth);
        lemma_problem_forest_lines(s.drop_last(), depth, found, at, show);
        lemma_problem_lines(s.last(), depth, found, at + before.len(), show);
        lemma_lines_joined(before, placed(s.last(), depth), at, line);
    } else {
        assert(Seq::<Seq<char>>::empty().flatten() =~= Seq::<char>::empty());
        assert(lines(placed_all(s, depth), at, line) =~= Seq::<char>::empty());
    }
}

/// The text of a node's problems has each of them, in their order, with a comma and a blank in
/// front of all but the first.
pub proof fn lemma_problems_text<F: Fn(Float64) -> String>(s: Seq<NodeProblem>, show: F)
    ensures
        problems_text(s, show) == "["@ + Seq::new(
            s.len(),
            |i: int|
                if i == 0 {
                    problem_text(s[i], show)
                } else {
                    ", "@ + problem_text(s[i], show)
                },
        ).flatten() + "]"@,
{
    lemma_joined_problems(s, show);
}

proof fn lemma_joined_problems<F: Fn(Float64) -> String>(s: Seq<NodeProblem>, show: F)
    ensures
        joined_problems(s, show) == Seq::new(
            s.len(),
            |i: int|
                if i == 0 {
                    problem_text(s[i], show)
                } else {
                    ", "@ + problem_text(s[i], show)
                },
        ).flatten(),
    decreases s.len(),
{
    let all = Seq::new(
        s.len(),
        |i: int|
            if i == 0 {
                problem_text(s[i], show)
            } else {
                ", "@ + problem_text(s[i], show)
            },
    );
    all.lemma_flatten_and_flatten_alt_are_equivalent();
    if s.len() > 0 {
        let rest = s.drop_last();
        lemma_joined_problems(rest, show);
        let before = Seq::new(
            rest.len(),
            |i: int|
                if i == 0 {
                    problem_text(rest[i], show)
                } else {
                    ", "@ + problem_text(rest[i], show)
                },
        );
        before.lemma_flatten_and_flatten_alt_are_equivalent();
        assert(all.drop_last() =~= before);
        if s.len() == 1 {
            assert(before.flatten_alt() =~= Seq::<char>::empty());
            assert(all.flatten_alt() =~= problem_text(s[0], show));
        } else {
            assert(all.flatten_alt() =~= joined_problems(s, show));
        }
    } else {
        assert(all.flatten_alt() =~= Seq::<char>::empty());
    }
}

} // verus!
