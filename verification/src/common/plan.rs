//! Physical plans.
use std::collections::hash_map::DefaultHasher;
use vstd::prelude::*;
use vstd::string::*;
use crate::float::encoding::Float64;
use crate::hashing::{hash_text, text_writes};
use crate::text::{push_repeated, repeated, texts};

verus! {

/// An expression of a predicate.
#[derive(Debug)]
pub struct ExprNode {
    /// Debug text of the expression; it starts with the name of the expression's type.
    pub debug: String,
    /// The operator, where this is a binary expression.
    pub operator: Option<String>,
    /// Operands.
    pub children: Vec<ExprNode>,
}

/// The predicates of a node of a physical plan.
#[derive(Debug)]
pub enum NodeDetail {
    /// A filter.
    Filter { predicate: ExprNode },
    /// A hash join: pairs of expressions that must be equal, and a further condition.
    HashJoin { on: Vec<(ExprNode, ExprNode)>, filter: Option<ExprNode> },
    /// A nested loop join: its condition.
    NestedLoopJoin { filter: Option<ExprNode> },
    /// A node without predicates.
    Other,
}

/// A node of a physical plan, with the plan below it.
#[derive(Debug)]
pub struct PlanNode {
    /// Name of the operator.
    pub name: String,
    /// Number that stands for the operator's type.
    pub type_id: u64,
    /// Text of the schema of the output.
    pub schema: String,
    /// Debug text of the plan from this node down.
    pub debug: String,
    /// The plan from this node down, serialised.
    pub encoding: Vec<u8>,
    /// Predicates of the operator.
    pub detail: NodeDetail,
    /// Inputs of the operator.
    pub children: Vec<PlanNode>,
}

/// The number of nodes of a plan.
pub open spec fn plan_nodes(a: PlanNode) -> nat
    decreases a,
{
    1 + forest_nodes(a.children@)
}

/// The number of nodes of several plans.
pub open spec fn forest_nodes(s: Seq<PlanNode>) -> nat
    decreases s,
{
    if s.len() == 0 {
        0
    } else {
        forest_nodes(s.drop_last()) + plan_nodes(s.last())
    }
}

/// One plan more.
pub proof fn lemma_forest_nodes_step(s: Seq<PlanNode>, i: int)
    requires
        0 <= i < s.len(),
    ensures
        forest_nodes(s.take(i + 1)) == forest_nodes(s.take(i)) + plan_nodes(s[i]),
        forest_nodes(s.take(i + 1)) <= forest_nodes(s),
{
    assert(s.take(i + 1).drop_last() =~= s.take(i));
    lemma_forest_nodes_monotone(s, i + 1);
}

/// The first plans have at most as many nodes as all.
pub proof fn lemma_forest_nodes_monotone(s: Seq<PlanNode>, i: int)
    requires
        0 <= i <= s.len(),
    ensures
        forest_nodes(s.take(i)) <= forest_nodes(s),
        i == s.len() ==> forest_nodes(s.take(i)) == forest_nodes(s),
    decreases s.len() - i,
{
    if i == s.len() {
        assert(s.take(i) =~= s);
    } else {
        lemma_forest_nodes_monotone(s, i + 1);
        assert(s.take(i + 1).drop_last() =~= s.take(i));
    }
}

/// Returns the number of nodes in a plan.
pub fn plan_size(a: &PlanNode) -> (r: usize)
    requires
        plan_nodes(*a) <= usize::MAX,
    ensures
        r == plan_nodes(*a),
    decreases *a,
{
    let mut n: usize = 1;
    let mut i: usize = 0;
    assert(a.children@.take(0) =~= Seq::<PlanNode>::empty());
    while i < a.children.len()
        invariant
            i <= a.children.len(),
            plan_nodes(*a) <= usize::MAX,
            n == 1 + forest_nodes(a.children@.take(i as int)),
        decreases a.children.len() - i,
    {
        proof {
            lemma_forest_nodes_step(a.children@, i as int);
            assert(decreases_to!(*a => a.children@[i as int]));
        }
        n = n + plan_size(&a.children[i]);
        i = i + 1;
    }
    assert(a.children@.take(i as int) =~= a.children@);
    n
}

/// Returns true if two plans have the same structure: if they are serialised alike.
pub fn eq_plans(a: &PlanNode, b: &PlanNode) -> (r: bool)
    ensures
        r == (a.encoding@ == b.encoding@),
{
    if a.encoding.len() != b.encoding.len() {
        return false;
    }
    let mut i: usize = 0;
    while i < a.encoding.len()
        invariant
            i <= a.encoding.len(),
            a.encoding.len() == b.encoding.len(),
            forall|k: int| 0 <= k < i ==> a.encoding@[k] == b.encoding@[k],
        decreases a.encoding.len() - i,
    {
        if a.encoding[i] != b.encoding[i] {
            return false;
        }
        i = i + 1;
    }
    assert(a.encoding@ =~= b.encoding@);
    true
}

/// The names of the nodes of a plan, one on each line, indented by `indent` and by how deep the
/// node lies.
pub open spec fn plan_outline(a: PlanNode, indent: nat) -> Seq<char>
    decreases a,
{
    repeated("  "@, indent) + a.name@ + "\n"@ + forest_outline(a.children@, indent + 1)
}

/// The outlines of several plans.
pub open spec fn forest_outline(s: Seq<PlanNode>, indent: nat) -> Seq<char>
    decreases s,
{
    if s.len() == 0 {
        Seq::empty()
    } else {
        forest_outline(s.drop_last(), indent) + plan_outline(s.last(), indent)
    }
}

/// Appends the name of each node of a plan with tree-style indentation.
pub fn dump_plan(plan: &PlanNode, indent_level: usize, out: &mut String)
    requires
        indent_level + plan_nodes(*plan) <= usize::MAX,
    ensures
        final(out)@ == old(out)@ + plan_outline(*plan, indent_level as nat),
    decreases *plan,
{
    push_repeated(out, "  ", indent_level);
    out.append(plan.name.as_str());
    out.append("\n");
    let ghost start = out@;
    let mut i: usize = 0;
    assert(plan.children@.take(0) =~= Seq::<PlanNode>::empty());
    assert(start + forest_outline(plan.children@.take(0), (indent_level + 1) as nat) =~= start);
    while i < plan.children.len()
        invariant
            i <= plan.children.len(),
            indent_level + plan_nodes(*plan) <= usize::MAX,
            out@ == start + forest_outline(
                plan.children@.take(i as int),
                (indent_level + 1) as nat,
            ),
        decreases plan.children.len() - i,
    {
        proof {
            lemma_forest_nodes_step(plan.children@, i as int);
            assert(decreases_to!(*plan => plan.children@[i as int]));
        }
        let ghost before = out@;
        dump_plan(&plan.children[i], indent_level + 1, out);
        proof {
            assert(plan.children@.take(i + 1).drop_last() =~= plan.children@.take(i as int));
            assert(out@ =~= start + forest_outline(
                plan.children@.take(i + 1),
                (indent_level + 1) as nat,
            ));
        }
        i = i + 1;
    }
    assert(plan.children@.take(i as int) =~= plan.children@);
    assert(out@ =~= old(out)@ + plan_outline(*plan, indent_level as nat));
}

/// An outline with two annotations on each line, taken from preorder arrays from `index` on.
pub open spec fn annotated_outline(
    a: PlanNode,
    indent: nat,
    first: Seq<Seq<char>>,
    second: Seq<Seq<char>>,
    index: nat,
) -> Seq<char>
    decreases a,
{
    repeated("  "@, indent) + a.name@ + " ("@ + first[index as int] + ", "@ + second[index as int]
        + ")\n"@ + annotated_forest(a.children@, indent + 1, first, second, index + 1)
}

/// The annotated outlines of several plans.
pub open spec fn annotated_forest(
    s: Seq<PlanNode>,
    indent: nat,
    first: Seq<Seq<char>>,
    second: Seq<Seq<char>>,
    index: nat,
) -> Seq<char>
    decreases s,
{
    if s.len() == 0 {
        Seq::empty()
    } else {
        annotated_forest(s.drop_last(), indent, first, second, index) + annotated_outline(
            s.last(),
            indent,
            first,
            second,
            index + forest_nodes(s.drop_last()),
        )
    }
}

/// Appends the name of each node of a plan with tree-style indentation, and the entries of two
/// preorder arrays from `index` on.
pub fn format_plan_with_2preorder_help(
    out: &mut String,
    plan: &PlanNode,
    indent_level: usize,
    preorder_data1: &Vec<String>,
    preorder_data2: &Vec<String>,
    index: &mut usize,
)
    requires
        indent_level + plan_nodes(*plan) <= usize::MAX,
        *old(index) + plan_nodes(*plan) <= preorder_data1@.len(),
        *old(index) + plan_nodes(*plan) <= preorder_data2@.len(),
    ensures
        final(out)@ == old(out)@ + annotated_outline(
            *plan,
            indent_level as nat,
            texts(preorder_data1@),
            texts(preorder_data2@),
            *old(index) as nat,
        ),
        *final(index) == *old(index) + plan_nodes(*plan),
    decreases *plan,
{
    let ghost first = texts(preorder_data1@);
    let ghost second = texts(preorder_data2@);
    let ghost at = *index as nat;
    let ghost indent = (indent_level + 1) as nat;
    push_repeated(out, "  ", indent_level);
    out.append(plan.name.as_str());
    out.append(" (");
    out.append(preorder_data1[*index].as_str());
    out.append(", ");
    out.append(preorder_data2[*index].as_str());
    out.append(")\n");
    proof {
        assert(at < preorder_data1.len());
    }
    *index = *index + 1;
    let ghost start = out@;
    let mut i: usize = 0;
    let ghost s = plan.children@;
    assert(s.take(0) =~= Seq::<PlanNode>::empty());
    assert(start + annotated_forest(s.take(0), indent, first, second, at + 1) =~= start);
    while i < plan.children.len()
        invariant
            i <= plan.children.len(),
            s == plan.children@,
            first == texts(preorder_data1@),
            second == texts(preorder_data2@),
            indent == indent_level + 1,
            indent_level + plan_nodes(*plan) <= usize::MAX,
            at + plan_nodes(*plan) <= preorder_data1@.len(),
            at + plan_nodes(*plan) <= preorder_data2@.len(),
            *index == at + 1 + forest_nodes(s.take(i as int)),
            out@ == start + annotated_forest(s.take(i as int), indent, first, second, at + 1),
        decreases plan.children.len() - i,
    {
        proof {
            lemma_forest_nodes_step(s, i as int);
            assert(decreases_to!(*plan => plan.children@[i as int]));
            assert(s.take(i + 1).drop_last() =~= s.take(i as int));
        }
        format_plan_with_2preorder_help(
            out,
            &plan.children[i],
            indent_level + 1,
            preorder_data1,
            preorder_data2,
            index,
        );
        assert(out@ =~= start + annotated_forest(s.take(i + 1), indent, first, second, at + 1));
        i = i + 1;
    }
    assert(s.take(i as int) =~= s);
    assert(out@ =~= old(out)@ + annotated_outline(
        *plan,
        indent_level as nat,
        first,
        second,
        at,
    ));
}

/// A physical plan with what the optimizer expects of it.
#[derive(Debug)]
pub struct Plan {
    /// The plan.
    pub tree: PlanNode,
    /// Preorder array of subplan estimated costs.
    pub est_costs: Vec<Float64>,
    /// Preorder array of subplan estimated cardinalities.
    pub est_cards: Vec<Float64>,
}

impl Plan {
    /// A plan with its estimates.
    pub fn new(tree: PlanNode, est_costs: Vec<Float64>, est_cards: Vec<Float64>) -> (r: Plan)
        ensures
            r.tree == tree,
            r.est_costs == est_costs,
            r.est_cards == est_cards,
    {
        Plan { tree, est_costs, est_cards }
    }

    /// The number of nodes in the plan.
    pub fn size(&self) -> (r: usize)
        requires
            plan_nodes(self.tree) <= usize::MAX,
        ensures
            r == plan_nodes(self.tree),
    {
        plan_size(&self.tree)
    }

    /// Feeds the plan to a hasher: its debug text.
    pub fn hash(&self, state: &mut DefaultHasher)
        ensures
            final(state)@ == old(state)@ + text_writes(self.tree.debug@),
    {
        hash_text(self.tree.debug.as_str(), state);
    }

    /// The plan's outline, with each node's estimated cost and cardinality as texts.
    pub fn to_text(&self, costs: &Vec<String>, cards: &Vec<String>) -> (r: String)
        requires
            plan_nodes(self.tree) <= usize::MAX,
            plan_nodes(self.tree) <= costs@.len(),
            plan_nodes(self.tree) <= cards@.len(),
        ensures
            r@ == annotated_outline(self.tree, 0, texts(costs@), texts(cards@), 0),
    {
        let mut out: String = String::new();
        let mut i: usize = 0;
        format_plan_with_2preorder_help(&mut out, &self.tree, 0, costs, cards, &mut i);
        assert(out@ =~= annotated_outline(self.tree, 0, texts(costs@), texts(cards@), 0));
        out
    }
}

impl PartialEq for Plan {
    fn eq(&self, other: &Plan) -> (r: bool) {
        eq_plans(&self.tree, &other.tree)
    }
}

impl vstd::std_specs::cmp::PartialEqSpecImpl for Plan {
    open spec fn obeys_eq_spec() -> bool {
        true
    }

    open spec fn eq_spec(&self, other: &Plan) -> bool {
        self.tree.encoding@ == other.tree.encoding@
    }
}

} // verus!
