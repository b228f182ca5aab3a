//! Whether a rule can apply to a plan.
use vstd::prelude::*;

verus! {

/// The type of a node of the optimizer's plans. A number that comes with a type is what else
/// belongs to it, such as the kind of a join.
#[derive(Clone, Copy, Debug, PartialEq, Eq, Structural)]
pub enum NodeType {
    /// Aggregation.
    PhysicalAgg,
    /// A relation without rows.
    PhysicalEmptyRelation,
    /// Projection.
    PhysicalProjection,
    /// Table scan.
    PhysicalScan,
    /// Filter.
    PhysicalFilter,
    /// Sort.
    PhysicalSort,
    /// Nested loop join, of a kind.
    PhysicalNestedLoopJoin(u64),
    /// Hash join, of a kind.
    PhysicalHashJoin(u64),
    /// Limit.
    PhysicalLimit,
    /// Any other type, by its number, with what else belongs to it.
    Other(u64, u64),
}

impl NodeType {
    /// Whether two types are the same but for what else belongs to them.
    pub open spec fn same_variant(self, other: NodeType) -> bool {
        match (self, other) {
            (NodeType::PhysicalNestedLoopJoin(_), NodeType::PhysicalNestedLoopJoin(_)) => true,
            (NodeType::PhysicalHashJoin(_), NodeType::PhysicalHashJoin(_)) => true,
            (NodeType::Other(a, _), NodeType::Other(b, _)) => a == b,
            _ => self == other,
        }
    }

    /// Whether this is a type of physical plans.
    pub open spec fn physical(self) -> bool {
        !(self is Other)
    }

    /// Whether two types are the same but for what else belongs to them.
    pub fn is_same_variant(&self, other: &NodeType) -> (r: bool)
        ensures
            r == self.same_variant(*other),
    {
        match (self, other) {
            (NodeType::PhysicalNestedLoopJoin(_), NodeType::PhysicalNestedLoopJoin(_)) => true,
            (NodeType::PhysicalHashJoin(_), NodeType::PhysicalHashJoin(_)) => true,
            (NodeType::Other(a, _), NodeType::Other(b, _)) => *a == *b,
            _ => *self == *other,
        }
    }

    /// Whether this is a type of physical plans.
    pub fn is_physical(&self) -> (r: bool)
        ensures
            r == self.physical(),
    {
        match self {
            NodeType::Other(_, _) => false,
            _ => true,
        }
    }
}

/// A node of the optimizer's plans.
pub struct OptNode {
    /// Type of the node.
    pub typ: NodeType,
    /// Inputs of the node.
    pub children: Vec<OptChild>,
}

/// An input of a node.
pub enum OptChild {
    /// A plan.
    PlanNode(OptNode),
    /// A group of equivalent plans of which none has been picked.
    Group(u64),
}

/// What a rule applies to.
pub enum RuleMatcher {
    /// Any node.
    Any,
    /// Any nodes.
    AnyMany,
    /// A node of a type, with inputs that match.
    MatchNode { typ: NodeType, children: Vec<RuleMatcher> },
    /// A node of a type like the given one, with inputs that match.
    MatchDiscriminant { like: NodeType, children: Vec<RuleMatcher> },
}

/// The inputs that are plans.
pub open spec fn resolved(s: Seq<OptChild>) -> Seq<OptNode>
    decreases s.len(),
{
    if s.len() == 0 {
        Seq::empty()
    } else {
        match s.last() {
            OptChild::PlanNode(node) => resolved(s.drop_last()).push(node),
            OptChild::Group(_) => resolved(s.drop_last()),
        }
    }
}

/// Whether a node matches.
pub open spec fn matches_node(m: RuleMatcher, node: OptNode) -> bool
    decreases m,
{
    match m {
        RuleMatcher::Any => true,
        RuleMatcher::AnyMany => true,
        RuleMatcher::MatchNode { typ, children } => {
            &&& node.typ == typ
            &&& resolved(node.children@).len() == children@.len()
            &&& all_match(children@, resolved(node.children@))
        },
        RuleMatcher::MatchDiscriminant { like, children } => {
            &&& node.typ.same_variant(like)
            &&& resolved(node.children@).len() == children@.len()
            &&& all_match(children@, resolved(node.children@))
        },
    }
}

/// Whether nodes match one by one.
pub open spec fn all_match(ms: Seq<RuleMatcher>, nodes: Seq<OptNode>) -> bool
    decreases ms,
{
    ms.len() == 0 || (all_match(ms.drop_last(), nodes.drop_last()) && matches_node(
        ms.last(),
        nodes.last(),
    ))
}

/// The inputs that are plans.
fn plan_children(node: &OptNode) -> (r: Vec<&OptNode>)
    ensures
        r@.len() == resolved(node.children@).len(),
        forall|i: int| 0 <= i < r@.len() ==> *(#[trigger] r@[i]) == resolved(node.children@)[i],
{
    let ghost s = node.children@;
    let mut r: Vec<&OptNode> = Vec::new();
    let mut i: usize = 0;
    assert(s.take(0) =~= Seq::<OptChild>::empty());
    while i < node.children.len()
        invariant
            i <= node.children.len(),
            s == node.children@,
            r@.len() == resolved(s.take(i as int)).len(),
            forall|k: int|
                0 <= k < r@.len() ==> *(#[trigger] r@[k]) == resolved(s.take(i as int))[k],
        decreases node.children.len() - i,
    {
        assert(s.take(i + 1).drop_last() =~= s.take(i as int));
        assert(s.take(i + 1).last() == s[i as int]);
        match &node.children[i] {
            OptChild::PlanNode(child) => {
                r.push(child);
            },
            OptChild::Group(_) => {},
        }
        i = i + 1;
    }
    assert(s.take(i as int) =~= s);
    r
}

/// Matchers that fail on some input fail on all.
proof fn lemma_all_match_prefix(ms: Seq<RuleMatcher>, nodes: Seq<OptNode>, i: int)
    requires
        0 <= i <= ms.len(),
        ms.len() == nodes.len(),
        !all_match(ms.take(i), nodes.take(i)),
    ensures
        !all_match(ms, nodes),
    decreases ms.len(),
{
    if i == ms.len() {
        assert(ms.take(i) =~= ms);
        assert(nodes.take(i) =~= nodes);
    } else {
        assert(ms.drop_last().take(i) =~= ms.take(i));
        assert(nodes.drop_last().take(i) =~= nodes.take(i));
        lemma_all_match_prefix(ms.drop_last(), nodes.drop_last(), i);
    }
}

/// Whether the inputs of a node match one by one.
fn children_match(ms: &Vec<RuleMatcher>, node: &OptNode) -> (r: bool)
    ensures
        r == (resolved(node.children@).len() == ms@.len() && all_match(
            ms@,
            resolved(node.children@),
        )),
    decreases *ms,
{
    let children: Vec<&OptNode> = plan_children(node);
    let ghost nodes = resolved(node.children@);
    let ghost s = ms@;
    if children.len() != ms.len() {
        return false;
    }
    let mut i: usize = 0;
    while i < ms.len()
        invariant
            i <= ms.len(),
            s == ms@,
            nodes == resolved(node.children@),
            s.len() == nodes.len(),
            children@.len() == nodes.len(),
            forall|k: int| 0 <= k < nodes.len() ==> *(#[trigger] children@[k]) == nodes[k],
            all_match(s.take(i as int), nodes.take(i as int)),
        decreases ms.len() - i,
    {
        proof {
            assert(s.take(i + 1).drop_last() =~= s.take(i as int));
            assert(nodes.take(i + 1).drop_last() =~= nodes.take(i as int));
            assert(s.take(i + 1).last() == s[i as int]);
            assert(nodes.take(i + 1).last() == nodes[i as int]);
            assert(decreases_to!(*ms => ms@[i as int]));
        }
        if !matcher_matches_node(&ms[i], children[i]) {
            proof {
                lemma_all_match_prefix(s, nodes, i + 1);
            }
            return false;
        }
        i = i + 1;
    }
    assert(s.take(i as int) =~= s);
    assert(nodes.take(i as int) =~= nodes);
    true
}

/// Whether a node matches.
pub fn matcher_matches_node(matcher: &RuleMatcher, node: &OptNode) -> (r: bool)
    ensures
        r == matches_node(*matcher, *node),
    decreases *matcher,
{
    match matcher {
        RuleMatcher::Any => true,
        RuleMatcher::AnyMany => true,
        RuleMatcher::MatchNode { typ, children } => {
            node.typ == *typ && children_match(children, node)
        },
        RuleMatcher::MatchDiscriminant { like, children } => {
            node.typ.is_same_variant(like) && children_match(children, node)
        },
    }
}

/// Whether a rule applies somewhere in a plan.
pub open spec fn applies(m: RuleMatcher, node: OptNode) -> bool
    decreases node,
{
    matches_node(m, node) || applies_below(m, node.children@)
}

/// Whether a rule applies somewhere in the inputs of a node.
pub open spec fn applies_below(m: RuleMatcher, s: Seq<OptChild>) -> bool
    decreases s,
{
    s.len() > 0 && (applies_below(m, s.drop_last()) || match s.last() {
        OptChild::PlanNode(node) => applies(m, node),
        OptChild::Group(_) => false,
    })
}

proof fn lemma_applies_below(m: RuleMatcher, s: Seq<OptChild>, i: int)
    requires
        0 <= i <= s.len(),
        applies_below(m, s.take(i)),
    ensures
        applies_below(m, s),
    decreases s.len(),
{
    if i == s.len() {
        assert(s.take(i) =~= s);
    } else {
        assert(s.drop_last().take(i) =~= s.take(i));
        lemma_applies_below(m, s.drop_last(), i);
    }
}

/// Whether a rule applies somewhere in a plan.
pub fn is_rule_applicable(matcher: &RuleMatcher, root: &OptNode) -> (r: bool)
    ensures
        r == applies(*matcher, *root),
    decreases *root,
{
    if matcher_matches_node(matcher, root) {
        return true;
    }
    let ghost s = root.children@;
    let mut i: usize = 0;
    assert(s.take(0) =~= Seq::<OptChild>::empty());
    while i < root.children.len()
        invariant
            i <= root.children.len(),
            s == root.children@,
            !matches_node(*matcher, *root),
            !applies_below(*matcher, s.take(i as int)),
        decreases root.children.len() - i,
    {
        proof {
            assert(s.take(i + 1).drop_last() =~= s.take(i as int));
            assert(s.take(i + 1).last() == s[i as int]);
            assert(decreases_to!(*root => root.children@[i as int]));
        }
        match &root.children[i] {
            OptChild::PlanNode(child) => {
                if is_rule_applicable(matcher, child) {
                    proof {
                        lemma_applies_below(*matcher, s, i + 1);
                    }
                    return true;
                }
            },
            OptChild::Group(_) => {},
        }
        i = i + 1;
    }
    assert(s.take(i as int) =~= s);
    false
}

/// A rule that applies to any node applies to every plan.
pub proof fn lemma_any_applies(node: OptNode)
    ensures
        applies(RuleMatcher::Any, node),
        applies(RuleMatcher::AnyMany, node),
{
}

/// The physical types are those of aggregations, relations without rows, projections, scans,
/// filters, sorts, nested loop joins and hash joins of every kind, and limits; no other type is.
pub proof fn lemma_physical_types(t: NodeType)
    ensures
        t.physical() <==> {
            ||| t == NodeType::PhysicalAgg
            ||| t == NodeType::PhysicalEmptyRelation
            ||| t == NodeType::PhysicalProjection
            ||| t == NodeType::PhysicalScan
            ||| t == NodeType::PhysicalFilter
            ||| t == NodeType::PhysicalSort
            ||| exists|kind: u64| t == NodeType::PhysicalNestedLoopJoin(kind)
            ||| exists|kind: u64| t == NodeType::PhysicalHashJoin(kind)
            ||| t == NodeType::PhysicalLimit
        },
        forall|number: u64, other: u64| !(#[trigger] NodeType::Other(number, other).physical()),
{
    assert(NodeType::PhysicalAgg.physical() && NodeType::PhysicalEmptyRelation.physical());
    assert(NodeType::PhysicalProjection.physical() && NodeType::PhysicalScan.physical());
    assert(NodeType::PhysicalFilter.physical() && NodeType::PhysicalSort.physical());
    assert(NodeType::PhysicalLimit.physical());
    assert(forall|kind: u64| #[trigger] NodeType::PhysicalNestedLoopJoin(kind).physical());
    assert(forall|kind: u64| #[trigger] NodeType::PhysicalHashJoin(kind).physical());
    match t {
        NodeType::PhysicalNestedLoopJoin(kind) => {
            assert(t == NodeType::PhysicalNestedLoopJoin(kind));
        },
        NodeType::PhysicalHashJoin(kind) => {
            assert(t == NodeType::PhysicalHashJoin(kind));
        },
        _ => {},
    }
}

/// Types that are the same but for what else belongs to them: all joins of a sort, whatever their
/// kind; all other types with the same number; and every type with itself only.
pub proof fn lemma_same_variant(a: NodeType, b: NodeType)
    ensures
        a.same_variant(a),
        a.same_variant(b) == b.same_variant(a),
        a is PhysicalNestedLoopJoin && b is PhysicalNestedLoopJoin ==> a.same_variant(b),
        a is PhysicalHashJoin && b is PhysicalHashJoin ==> a.same_variant(b),
        a matches NodeType::Other(m, _) ==> (b matches NodeType::Other(n, _) ==> (a.same_variant(b)
            <==> m == n)),
        a.same_variant(b) && !(a is PhysicalNestedLoopJoin) && !(a is PhysicalHashJoin) && !(
        a is Other) ==> a == b,
        a.same_variant(b) ==> (a is PhysicalNestedLoopJoin == b is PhysicalNestedLoopJoin),
        a.same_variant(b) ==> (a is PhysicalHashJoin == b is PhysicalHashJoin),
        a.same_variant(b) ==> (a is Other == b is Other),
        a.same_variant(b) ==> a.physical() == b.physical(),
{
}

/// The inputs that are plans are those left when groups are left out, in their order.
pub proof fn lemma_resolved(s: Seq<OptChild>)
    ensures
        resolved(s) == s.filter(|c: OptChild| c is PlanNode).map_values(
            |c: OptChild| c->PlanNode_0,
        ),
    decreases s.len(),
{
    reveal(Seq::filter);
    let plans = s.filter(|c: OptChild| c is PlanNode);
    if s.len() > 0 {
        lemma_resolved(s.drop_last());
        let before = s.drop_last().filter(|c: OptChild| c is PlanNode);
        if s.last() is PlanNode {
            assert(plans == before.push(s.last()));
            assert(plans.map_values(|c: OptChild| c->PlanNode_0) =~= before.map_values(
                |c: OptChild| c->PlanNode_0,
            ).push(s.last()->PlanNode_0));
        }
    } else {
        assert(plans.map_values(|c: OptChild| c->PlanNode_0) =~= Seq::<OptNode>::empty());
    }
}

/// Inputs that are all plans are their own resolution.
pub proof fn lemma_resolved_plans(s: Seq<OptChild>)
    requires
        forall|i: int| 0 <= i < s.len() ==> (#[trigger] s[i]) is PlanNode,
    ensures
        resolved(s).len() == s.len(),
        forall|i: int| 0 <= i < s.len() ==> OptChild::PlanNode(#[trigger] resolved(s)[i]) == s[i],
    decreases s.len(),
{
    if s.len() > 0 {
        assert forall|i: int| 0 <= i < s.drop_last().len() implies (
        #[trigger] s.drop_last()[i]) is PlanNode by {
            assert(s[i] is PlanNode);
        }
        lemma_resolved_plans(s.drop_last());
        assert(s[s.len() - 1] is PlanNode);
        assert forall|i: int| 0 <= i < s.len() implies OptChild::PlanNode(
            #[trigger] resolved(s)[i],
        ) == s[i] by {
            if i < s.len() - 1 {
                assert(OptChild::PlanNode(resolved(s.drop_last())[i]) == s.drop_last()[i]);
            }
        }
    }
}

proof fn lemma_all_match_each(ms: Seq<RuleMatcher>, nodes: Seq<OptNode>)
    requires
        ms.len() == nodes.len(),
    ensures
        all_match(ms, nodes) <==> forall|i: int|
            0 <= i < ms.len() ==> #[trigger] matches_node(ms[i], nodes[i]),
    decreases ms.len(),
{
    if ms.len() > 0 {
        let n = ms.len() - 1;
        lemma_all_match_each(ms.drop_last(), nodes.drop_last());
        if all_match(ms, nodes) {
            assert forall|i: int| 0 <= i < ms.len() implies #[trigger] matches_node(
                ms[i],
                nodes[i],
            ) by {
                if i < n {
                    assert(matches_node(ms.drop_last()[i], nodes.drop_last()[i]));
                }
            }
        }
        if forall|i: int| 0 <= i < ms.len() ==> #[trigger] matches_node(ms[i], nodes[i]) {
            assert forall|i: int| 0 <= i < n implies #[trigger] matches_node(
                ms.drop_last()[i],
                nodes.drop_last()[i],
            ) by {
                assert(matches_node(ms[i], nodes[i]));
            }
            assert(matches_node(ms[n], nodes[n]));
        }
    }
}

/// Whether each matcher matches the plan that stands at its place among the inputs.
pub open spec fn inputs_match(ms: Seq<RuleMatcher>, inputs: Seq<OptNode>) -> bool {
    &&& ms.len() == inputs.len()
    &&& forall|i: int| 0 <= i < ms.len() ==> #[trigger] matches_node(ms[i], inputs[i])
}

/// A node matches a type with inputs exactly if it has the type, there are as many inputs that are
/// plans as matchers, and every matcher matches the input at its place.
pub proof fn lemma_matches_each(m: RuleMatcher, node: OptNode)
    ensures
        m is Any || m is AnyMany ==> matches_node(m, node),
        m matches RuleMatcher::MatchNode { typ, children } ==> (matches_node(m, node) <==> node.typ
            == typ && inputs_match(children@, resolved(node.children@))),
        m matches RuleMatcher::MatchDiscriminant { like, children } ==> (matches_node(m, node)
            <==> node.typ.same_variant(like) && inputs_match(
            children@,
            resolved(node.children@),
        )),
{
    let nodes = resolved(node.children@);
    match m {
        RuleMatcher::MatchNode { typ, children } => {
            if children@.len() == nodes.len() {
                lemma_all_match_each(children@, nodes);
            }
        },
        RuleMatcher::MatchDiscriminant { like, children } => {
            if children@.len() == nodes.len() {
                lemma_all_match_each(children@, nodes);
            }
        },
        _ => {},
    }
}

/// Whether a matcher describes a plan node by node, down to its leaves.
pub open spec fn describes_plan(m: RuleMatcher, node: OptNode) -> bool
    decreases m,
{
    m matches RuleMatcher::MatchNode { typ, children } && typ == node.typ && children@.len()
        == resolved(node.children@).len() && forall|i: int|
        0 <= i < children@.len() ==> describes_plan(
            #[trigger] children@[i],
            resolved(node.children@)[i],
        )
}

/// A matcher that is built from a plan, node by node, matches that plan, and its rule applies to
/// every plan that the plan lies in.
pub proof fn lemma_described_plan_matches(m: RuleMatcher, node: OptNode)
    requires
        describes_plan(m, node),
    ensures
        matches_node(m, node),
        applies(m, node),
    decreases m,
{
    match m {
        RuleMatcher::MatchNode { typ, children } => {
            let nodes = resolved(node.children@);
            assert forall|i: int| 0 <= i < children@.len() implies #[trigger] matches_node(
                children@[i],
                nodes[i],
            ) by {
                assert(describes_plan(children@[i], nodes[i]));
                assert(decreases_to!(m => children@[i]));
                lemma_described_plan_matches(children@[i], nodes[i]);
            }
            lemma_all_match_each(children@, nodes);
        },
        _ => {},
    }
}

/// A rule applies to a plan exactly if the plan matches, or the rule applies to one of its inputs.
pub proof fn lemma_applies_somewhere(m: RuleMatcher, node: OptNode)
    ensures
        applies(m, node) <==> matches_node(m, node) || exists|i: int|
            0 <= i < node.children@.len() && (#[trigger] node.children@[i] matches OptChild::PlanNode(
                input,
            ) && applies(m, input)),
{
    lemma_applies_to_input(m, node.children@);
}

proof fn lemma_applies_to_input(m: RuleMatcher, s: Seq<OptChild>)
    ensures
        applies_below(m, s) <==> exists|i: int|
            0 <= i < s.len() && (#[trigger] s[i] matches OptChild::PlanNode(input) && applies(
                m,
                input,
            )),
    decreases s.len(),
{
    if s.len() > 0 {
        let rest = s.drop_last();
        lemma_applies_to_input(m, rest);
        if applies_below(m, rest) {
            let i = choose|i: int|
                0 <= i < rest.len() && (#[trigger] rest[i] matches OptChild::PlanNode(input)
                    && applies(m, input));
            assert(s[i] == rest[i]);
        } else if applies_below(m, s) {
            assert(s[s.len() - 1] == s.last());
        }
        if exists|i: int|
            0 <= i < s.len() && (#[trigger] s[i] matches OptChild::PlanNode(input) && applies(
                m,
                input,
            )) {
            let i = choose|i: int|
                0 <= i < s.len() && (#[trigger] s[i] matches OptChild::PlanNode(input) && applies(
                    m,
                    input,
                ));
            if i < s.len() - 1 {
                assert(rest[i] == s[i]);
            }
        }
    }
}

} // verus!
