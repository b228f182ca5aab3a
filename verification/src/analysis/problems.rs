//! What is wrong with the nodes of plans.
use vstd::prelude::*;
use crate::float::encoding::Float64;

verus! {

/// How to analyze.
pub struct AnalysisConfig {
    /// Whether to only consider "root" problems (those with good inputs) for bug detection.
    pub root_problems_only: bool,
}

/// What is wrong with a node of a plan.
#[derive(Clone, Copy, Debug, PartialEq, Eq, Structural)]
pub enum NodeProblem {
    /// The node cannot be run.
    Crash,
    /// The estimated cardinality is far off: estimated, actual, Q-error.
    CardinalityMisestimation(usize, usize, Float64),
    /// The estimated cost does not rank the node as its runtime does: runtime in milliseconds,
    /// estimated cost, rank by cost, rank by runtime.
    CostMisestimation(u128, Float64, usize, usize),
}

/// Problems of the nodes of a plan, by preorder index.
#[verifier::external_body]
pub struct NodeProblems {
    map: datafusion_common::HashMap<usize, Vec<NodeProblem>>,
}

/// The problems that a table holds.
pub uninterp spec fn node_problems(m: NodeProblems) -> Map<usize, Seq<NodeProblem>>;

impl View for NodeProblems {
    type V = Map<usize, Seq<NodeProblem>>;

    open spec fn view(&self) -> Map<usize, Seq<NodeProblem>> {
        node_problems(*self)
    }
}

/// `new` of `datafusion_common::HashMap`: the table is empty.
#[verifier::external_body]
fn empty_nodes() -> (r: NodeProblems)
    ensures
        node_problems(r).dom() == Set::<usize>::empty(),
{
    NodeProblems { map: datafusion_common::HashMap::new() }
}

/// `len` of `datafusion_common::HashMap`: the number of keys.
#[verifier::external_body]
fn count_nodes(m: &NodeProblems) -> (r: usize)
    ensures
        r == node_problems(*m).dom().len(),
{
    m.map.len()
}

/// `get` of `datafusion_common::HashMap`: what stands under the key, if anything does.
#[verifier::external_body]
fn get_node<'a>(m: &'a NodeProblems, idx: &usize) -> (r: Option<&'a Vec<NodeProblem>>)
    ensures
        match r {
            Some(v) => node_problems(*m).contains_key(*idx) && node_problems(*m)[*idx] == v@,
            None => !node_problems(*m).contains_key(*idx),
        },
{
    m.map.get(idx)
}

/// `get_mut` of `datafusion_common::HashMap`: what stands under the key, if anything does; what is
/// made of it stands there from then on, and nothing else changes.
#[verifier::external_body]
fn get_node_mut<'a>(m: &'a mut NodeProblems, idx: &usize) -> (r: Option<&'a mut Vec<NodeProblem>>)
    ensures
        match r {
            Some(v) => {
                &&& node_problems(*old(m)).contains_key(*idx)
                &&& node_problems(*old(m))[*idx] == v@
                &&& node_problems(*final(m)) == node_problems(*old(m)).insert(*idx, final(v)@)
            },
            None => {
                &&& !node_problems(*old(m)).contains_key(*idx)
                &&& node_problems(*final(m)) == node_problems(*old(m))
            },
        },
{
    m.map.get_mut(idx)
}

/// `insert` of `datafusion_common::HashMap`: the value stands under the key, and nothing else
/// changes.
#[verifier::external_body]
fn insert_node(m: &mut NodeProblems, idx: usize, problems: Vec<NodeProblem>)
    ensures
        node_problems(*final(m)) == node_problems(*old(m)).insert(idx, problems@),
{
    m.map.insert(idx, problems);
}

/// The table with one more problem of the node `idx`.
pub open spec fn with_problem(
    m: Map<usize, Seq<NodeProblem>>,
    idx: usize,
    problem: NodeProblem,
) -> Map<usize, Seq<NodeProblem>> {
    if m.contains_key(idx) {
        m.insert(idx, m[idx].push(problem))
    } else {
        m.insert(idx, seq![problem])
    }
}

/// Adds a problem of the node `idx`.
pub fn add_problem(problems: &mut NodeProblems, idx: &usize, problem: NodeProblem)
    ensures
        final(problems)@ == with_problem(old(problems)@, *idx, problem),
{
    if get_node(problems, idx).is_none() {
        insert_node(problems, *idx, Vec::new());
    }
    match get_node_mut(problems, idx) {
        Some(list) => {
            list.push(problem);
        },
        None => {},
    }
    assert(problems@ =~= with_problem(old(problems)@, *idx, problem));
}

impl NodeProblems {
    /// A table without problems.
    pub fn new() -> (r: NodeProblems)
        ensures
            r@ == Map::<usize, Seq<NodeProblem>>::empty(),
    {
        let r: NodeProblems = empty_nodes();
        assert(r@ =~= Map::<usize, Seq<NodeProblem>>::empty());
        r
    }

    /// The number of nodes with problems.
    pub fn len(&self) -> (r: usize)
        ensures
            r == self@.dom().len(),
    {
        count_nodes(self)
    }

    /// The problems of the node `idx`.
    pub fn get(&self, idx: &usize) -> (r: Option<&Vec<NodeProblem>>)
        ensures
            match r {
                Some(v) => self@.contains_key(*idx) && self@[*idx] == v@,
                None => !self@.contains_key(*idx),
            },
    {
        get_node(self, idx)
    }
}

/// Problems of the nodes of several plans, by the index of the plan.
#[verifier::external_body]
pub struct PlanProblems {
    map: datafusion_common::HashMap<usize, NodeProblems>,
}

/// The problems that a table of plans holds.
pub uninterp spec fn plan_problems(m: PlanProblems) -> Map<usize, Map<usize, Seq<NodeProblem>>>;

impl View for PlanProblems {
    type V = Map<usize, Map<usize, Seq<NodeProblem>>>;

    open spec fn view(&self) -> Map<usize, Map<usize, Seq<NodeProblem>>> {
        plan_problems(*self)
    }
}

/// `new` of `datafusion_common::HashMap`: the table is empty.
#[verifier::external_body]
fn empty_plans() -> (r: PlanProblems)
    ensures
        plan_problems(r).dom() == Set::<usize>::empty(),
{
    PlanProblems { map: datafusion_common::HashMap::new() }
}

/// `get` of `datafusion_common::HashMap`: what stands under the key, if anything does.
#[verifier::external_body]
fn get_plan<'a>(m: &'a PlanProblems, idx: &usize) -> (r: Option<&'a NodeProblems>)
    ensures
        match r {
            Some(v) => {
                &&& plan_problems(*m).contains_key(*idx)
                &&& plan_problems(*m)[*idx] == node_problems(*v)
            },
            None => !plan_problems(*m).contains_key(*idx),
        },
{
    m.map.get(idx)
}

/// `get_mut` of `datafusion_common::HashMap`: what stands under the key, if anything does; what is
/// made of it stands there from then on, and nothing else changes.
#[verifier::external_body]
fn get_plan_mut<'a>(m: &'a mut PlanProblems, idx: &usize) -> (r: Option<&'a mut NodeProblems>)
    ensures
        match r {
            Some(v) => {
                &&& plan_problems(*old(m)).contains_key(*idx)
                &&& plan_problems(*old(m))[*idx] == node_problems(*v)
                &&& plan_problems(*final(m)) == plan_problems(*old(m)).insert(
                    *idx,
                    node_problems(*final(v)),
                )
            },
            None => {
                &&& !plan_problems(*old(m)).contains_key(*idx)
                &&& plan_problems(*final(m)) == plan_problems(*old(m))
            },
        },
{
    m.map.get_mut(idx)
}

/// `insert` of `datafusion_common::HashMap`: the value stands under the key, and nothing else
/// changes.
#[verifier::external_body]
fn insert_plan(m: &mut PlanProblems, idx: usize, problems: NodeProblems)
    ensures
        plan_problems(*final(m)) == plan_problems(*old(m)).insert(idx, node_problems(problems)),
{
    m.map.insert(idx, problems);
}

impl PlanProblems {
    /// A table without plans.
    pub fn new() -> (r: PlanProblems)
        ensures
            r@ == Map::<usize, Map<usize, Seq<NodeProblem>>>::empty(),
    {
        let r: PlanProblems = empty_plans();
        assert(r@ =~= Map::<usize, Map<usize, Seq<NodeProblem>>>::empty());
        r
    }

    /// The problems of the plan `idx`.
    pub fn get(&self, idx: &usize) -> (r: Option<&NodeProblems>)
        ensures
            match r {
                Some(v) => self@.contains_key(*idx) && self@[*idx] == v@,
                None => !self@.contains_key(*idx),
            },
    {
        get_plan(self, idx)
    }

    /// Enters the problems of the plan `idx`.
    pub fn insert(&mut self, idx: usize, problems: NodeProblems)
        ensures
            final(self)@ == old(self)@.insert(idx, problems@),
    {
        insert_plan(self, idx, problems);
    }

    /// Adds a problem of the node `node` of the plan `idx`.
    pub fn add(&mut self, idx: &usize, node: &usize, problem: NodeProblem)
        requires
            old(self)@.contains_key(*idx),
        ensures
            final(self)@ == old(self)@.insert(
                *idx,
                with_problem(old(self)@[*idx], *node, problem),
            ),
    {
        match get_plan_mut(self, idx) {
            Some(problems) => {
                add_problem(problems, node, problem);
            },
            None => {},
        }
    }
}

/// The problems of the node `node`.
pub open spec fn problems_at(m: Map<usize, Seq<NodeProblem>>, node: nat) -> Seq<NodeProblem> {
    if node <= usize::MAX && m.contains_key(node as usize) {
        m[node as usize]
    } else {
        Seq::empty()
    }
}

/// A problem that is added to a node comes behind those that the node has, and no other node's
/// problems change.
pub proof fn lemma_with_problem(
    m: Map<usize, Seq<NodeProblem>>,
    idx: usize,
    problem: NodeProblem,
    node: nat,
)
    ensures
        problems_at(with_problem(m, idx, problem), node) == if node == idx {
            problems_at(m, node).push(problem)
        } else {
            problems_at(m, node)
        },
        m.contains_key(idx) ==> with_problem(m, idx, problem).dom() == m.dom(),
        with_problem(m, idx, problem).dom() == m.dom().insert(idx),
{
    assert(with_problem(m, idx, problem).dom() =~= m.dom().insert(idx));
    if m.contains_key(idx) {
        assert(m.dom().insert(idx) =~= m.dom());
    } else if node == idx {
        assert(problems_at(m, node).push(problem) =~= seq![problem]);
    }
}

/// The problems of a node are those entered for it, or none.
pub proof fn lemma_problems_at(m: Map<usize, Seq<NodeProblem>>, node: usize)
    ensures
        m.contains_key(node) ==> problems_at(m, node as nat) == m[node],
        !m.contains_key(node) ==> problems_at(m, node as nat).len() == 0,
{
}

} // verus!
