//! Keeping what identical plans gave.
use std::collections::hash_map::DefaultHasher;
use std::collections::HashMap;
use std::hash::Hasher;
use vstd::prelude::*;
use vstd::std_specs::hash::DefaultHasherAdditionalSpecFns;
use crate::benchmark::stats::{RuntimeModel, RuntimeStats};
use crate::common::measure::MeasureError;
use crate::common::plan::{forest_nodes, plan_nodes, plan_size, PlanNode};
use crate::benchmark::choice::lemma_share_range;
use crate::benchmark::measure::{forest_preorder, preorder};
use crate::float::arith::{lemma_nearest_zero, of_nat, one_unit};
use crate::float::encoding::Float64;
use crate::float::monotone::{lemma_of_nat, lemma_one, lemma_sign};
use crate::float::order::ONE;
use crate::float::same::lemma_zero_quotient;
use crate::hashing::{hash_text, text_writes};

verus! {

/// What running a plan gave: its cardinality and its runtime, or why there is none.
pub type Outcome = Result<(usize, RuntimeStats), MeasureError>;

/// What an outcome holds.
pub open spec fn outcome_model(r: Outcome) -> Result<(usize, RuntimeModel), MeasureError> {
    match r {
        Ok((card, stats)) => Ok((card, stats@)),
        Err(e) => Err(e),
    }
}

/// A copy of an outcome.
pub fn copy_outcome(outcome: &Outcome) -> (r: Outcome)
    ensures
        outcome_model(r) == outcome_model(*outcome),
{
    match outcome {
        Ok(pair) => Ok((pair.0, pair.1.clone())),
        Err(e) => Err(*e),
    }
}

/// Outcomes of plans that have run, by the hash of the plan.
pub struct PlanCache {
    /// Outcomes by the hash of the plan.
    pub cache: HashMap<u64, Outcome>,
    /// Lookups that found an outcome.
    pub hits: usize,
    /// Lookups that found none.
    pub misses: usize,
}

impl PlanCache {
    /// The lookups there have been.
    pub open spec fn lookups(self) -> nat {
        (self.hits + self.misses) as nat
    }

    /// The share of the lookups that found an outcome.
    pub open spec fn hit_rate(self) -> Float64 {
        if self.lookups() > 0 {
            of_nat(self.hits as nat).quotient(of_nat(self.lookups()))
        } else {
            Float64 { bits: 0 }
        }
    }

    /// A cache without outcomes.
    pub fn new() -> (r: PlanCache)
        ensures
            r.cache@ == Map::<u64, Outcome>::empty(),
            r.hits == 0,
            r.misses == 0,
    {
        PlanCache { cache: HashMap::new(), hits: 0, misses: 0 }
    }

    /// Looks up the outcome of a plan, and counts the lookup.
    pub fn get(&mut self, plan_hash: u64) -> (r: Option<&Outcome>)
        requires
            old(self).cache@.contains_key(plan_hash) ==> old(self).hits < usize::MAX,
            !old(self).cache@.contains_key(plan_hash) ==> old(self).misses < usize::MAX,
        ensures
            final(self).cache == old(self).cache,
            old(self).cache@.contains_key(plan_hash) ==> {
                &&& r == Some(&old(self).cache@[plan_hash])
                &&& final(self).hits == old(self).hits + 1
                &&& final(self).misses == old(self).misses
            },
            !old(self).cache@.contains_key(plan_hash) ==> {
                &&& r is None
                &&& final(self).hits == old(self).hits
                &&& final(self).misses == old(self).misses + 1
            },
    {
        if self.cache.contains_key(&plan_hash) {
            self.hits = self.hits + 1;
        } else {
            self.misses = self.misses + 1;
        }
        self.cache.get(&plan_hash)
    }

    /// Keeps the outcome of a plan.
    pub fn insert(&mut self, plan_hash: u64, result: Outcome)
        ensures
            final(self).cache@ == old(self).cache@.insert(plan_hash, result),
            final(self).hits == old(self).hits,
            final(self).misses == old(self).misses,
    {
        self.cache.insert(plan_hash, result);
    }

    /// Lookups that found an outcome, lookups that found none, and the share of the former.
    pub fn stats(&self) -> (r: (usize, usize, Float64))
        requires
            self.lookups() <= usize::MAX,
        ensures
            r.0 == self.hits,
            r.1 == self.misses,
            r.2 == self.hit_rate(),
    {
        let total: usize = self.hits + self.misses;
        let hit_rate: Float64 = if total > 0 {
            Float64::from_u64(self.hits as u64).over(Float64::from_u64(total as u64))
        } else {
            Float64 { bits: 0 }
        };
        (self.hits, self.misses, hit_rate)
    }
}

/// What one node writes to a hasher: its name and its schema.
pub open spec fn node_writes(a: PlanNode) -> Seq<Seq<u8>> {
    text_writes(a.name@) + text_writes(a.schema@)
}

/// What the nodes of a plan write to a hasher, in preorder.
pub open spec fn plan_writes(a: PlanNode) -> Seq<Seq<u8>>
    decreases a,
{
    node_writes(a) + forest_writes(a.children@)
}

/// What the nodes of several plans write to a hasher.
pub open spec fn forest_writes(s: Seq<PlanNode>) -> Seq<Seq<u8>>
    decreases s,
{
    if s.len() == 0 {
        Seq::empty()
    } else {
        forest_writes(s.drop_last()) + plan_writes(s.last())
    }
}

/// The hash of a plan: that of its root's name and schema, followed by those of all its nodes.
pub open spec fn plan_hash(a: PlanNode) -> u64 {
    DefaultHasher::spec_finish(node_writes(a) + plan_writes(a))
}

/// Feeds one node to a hasher.
fn hash_node(plan: &PlanNode, hasher: &mut DefaultHasher)
    ensures
        final(hasher)@ == old(hasher)@ + node_writes(*plan),
{
    hash_text(plan.name.as_str(), hasher);
    hash_text(plan.schema.as_str(), hasher);
    assert(hasher@ =~= old(hasher)@ + node_writes(*plan));
}

/// Feeds all nodes of a plan to a hasher.
fn visit_plan(plan: &PlanNode, hasher: &mut DefaultHasher)
    ensures
        final(hasher)@ == old(hasher)@ + plan_writes(*plan),
    decreases *plan,
{
    let ghost start = hasher@;
    hash_node(plan, hasher);
    let ghost s = plan.children@;
    let mut i: usize = 0;
    assert(s.take(0) =~= Seq::<PlanNode>::empty());
    assert(hasher@ =~= start + node_writes(*plan) + forest_writes(s.take(0)));
    while i < plan.children.len()
        invariant
            i <= plan.children.len(),
            s == plan.children@,
            hasher@ == start + node_writes(*plan) + forest_writes(s.take(i as int)),
        decreases plan.children.len() - i,
    {
        proof {
            assert(decreases_to!(*plan => plan.children@[i as int]));
            assert(s.take(i + 1).drop_last() =~= s.take(i as int));
        }
        visit_plan(&plan.children[i], hasher);
        assert(hasher@ =~= start + node_writes(*plan) + forest_writes(s.take(i + 1)));
        i = i + 1;
    }
    assert(s.take(i as int) =~= s);
    assert(hasher@ =~= start + plan_writes(*plan));
}

/// The hash of a plan.
pub fn hash_plan(plan: &PlanNode) -> (r: u64)
    ensures
        r == plan_hash(*plan),
{
    let mut hasher: DefaultHasher = DefaultHasher::new();
    hash_node(plan, &mut hasher);
    visit_plan(plan, &mut hasher);
    assert(hasher@ =~= node_writes(*plan) + plan_writes(*plan));
    hasher.finish()
}

/// Nodes that a plan may have for its outcome to be kept.
pub const MAX_CACHED_NODES: usize = 10;

/// Whether a plan is small enough for its outcome to be kept.
pub fn is_plan_cacheable(plan: &PlanNode) -> (r: bool)
    requires
        plan_nodes(*plan) <= usize::MAX,
    ensures
        r == (plan_nodes(*plan) <= MAX_CACHED_NODES),
{
    plan_size(plan) <= MAX_CACHED_NODES
}

/// An outcome that has just been kept is found, and other plans' outcomes are as before.
pub proof fn lemma_read_after_write(before: PlanCache, after: PlanCache, hash: u64, result: Outcome)
    requires
        after.cache@ == before.cache@.insert(hash, result),
    ensures
        after.cache@.contains_key(hash),
        after.cache@[hash] == result,
        forall|other: u64|
            other != hash ==> {
                &&& after.cache@.contains_key(other) == before.cache@.contains_key(other)
                &&& after.cache@.contains_key(other) ==> #[trigger] after.cache@[other]
                    == before.cache@[other]
            },
{
}

/// The names and schemas of the nodes of a plan, in preorder.
pub open spec fn labels(a: PlanNode) -> Seq<(Seq<char>, Seq<char>)>
    decreases a,
{
    seq![(a.name@, a.schema@)] + forest_labels(a.children@)
}

/// The names and schemas of the nodes of several plans, in preorder.
pub open spec fn forest_labels(s: Seq<PlanNode>) -> Seq<(Seq<char>, Seq<char>)>
    decreases s,
{
    if s.len() == 0 {
        Seq::empty()
    } else {
        forest_labels(s.drop_last()) + labels(s.last())
    }
}

/// What names and schemas write to a hasher.
pub open spec fn label_writes(l: Seq<(Seq<char>, Seq<char>)>) -> Seq<Seq<u8>>
    decreases l.len(),
{
    if l.len() == 0 {
        Seq::empty()
    } else {
        label_writes(l.drop_last()) + (text_writes(l.last().0) + text_writes(l.last().1))
    }
}

/// Plans with the same names and schemas in preorder have the same hash, and as many nodes. Nothing
/// else matters to the hash.
pub proof fn lemma_same_hash(a: PlanNode, b: PlanNode)
    requires
        labels(a) == labels(b),
    ensures
        plan_hash(a) == plan_hash(b),
        plan_nodes(a) == plan_nodes(b),
{
    lemma_plan_writes(a);
    lemma_plan_writes(b);
    assert(labels(a)[0] == (a.name@, a.schema@));
    assert(labels(b)[0] == (b.name@, b.schema@));
}

/// There is a name and a schema for each node, and they are all that a plan writes to a hasher.
pub proof fn lemma_plan_writes(a: PlanNode)
    ensures
        plan_writes(a) == label_writes(labels(a)),
        labels(a).len() == plan_nodes(a),
    decreases a,
{
    let first = seq![(a.name@, a.schema@)];
    lemma_forest_plan_writes(a.children@);
    lemma_label_writes_joined(first, forest_labels(a.children@));
    assert(first.drop_last() =~= Seq::<(Seq<char>, Seq<char>)>::empty());
    assert(label_writes(first.drop_last()) =~= Seq::<Seq<u8>>::empty());
    assert(label_writes(first) =~= node_writes(a));
}

proof fn lemma_forest_plan_writes(s: Seq<PlanNode>)
    ensures
        forest_writes(s) == label_writes(forest_labels(s)),
        forest_labels(s).len() == forest_nodes(s),
    decreases s,
{
    if s.len() > 0 {
        lemma_forest_plan_writes(s.drop_last());
        lemma_plan_writes(s.last());
        lemma_label_writes_joined(forest_labels(s.drop_last()), labels(s.last()));
    }
}

proof fn lemma_label_writes_joined(l: Seq<(Seq<char>, Seq<char>)>, m: Seq<(Seq<char>, Seq<char>)>)
    ensures
        label_writes(l + m) == label_writes(l) + label_writes(m),
    decreases m.len(),
{
    if m.len() == 0 {
        assert(l + m =~= l);
        assert(label_writes(l) + label_writes(m) =~= label_writes(l));
    } else {
        lemma_label_writes_joined(l, m.drop_last());
        assert((l + m).drop_last() =~= l + m.drop_last());
        assert((l + m).last() == m.last());
        assert(label_writes(l + m) =~= label_writes(l) + label_writes(m));
    }
}

/// The share of the lookups that found an outcome is zero where none did, one where all did, and
/// never beyond.
pub proof fn lemma_hit_rate(cache: PlanCache)
    requires
        cache.lookups() <= usize::MAX,
    ensures
        cache.hits == 0 ==> cache.hit_rate() == (Float64 { bits: 0 }),
        cache.hits > 0 && cache.misses == 0 ==> cache.hit_rate() == (Float64 { bits: ONE }),
        (Float64 { bits: 0 }).at_most(cache.hit_rate()),
        cache.hit_rate().at_most(Float64 { bits: ONE }),
        cache.hits + cache.misses > 0 ==> cache.hit_rate() == of_nat(cache.hits as nat).quotient(
            of_nat((cache.hits + cache.misses) as nat),
        ),
{
    lemma_one();
    lemma_sign(Float64 { bits: 0 });
    if cache.hits + cache.misses > 0 {
        lemma_share_range(cache.hits as nat, (cache.hits + cache.misses) as nat);
        if cache.hits == 0 {
            assert(0 * one_unit() == 0) by (nonlinear_arith);
            lemma_nearest_zero(1);
            lemma_of_nat((cache.hits + cache.misses) as nat);
            lemma_zero_quotient(of_nat((cache.hits + cache.misses) as nat));
        }
    }
}

/// A node writes its name and its schema, and the writes of a plan are those of its nodes in
/// preorder.
pub proof fn lemma_plan_writes_nodes(a: PlanNode)
    ensures
        plan_writes(a) == preorder(a).map_values(
            |n: PlanNode| text_writes(n.name@) + text_writes(n.schema@),
        ).flatten(),
        plan_hash(a) == DefaultHasher::spec_finish(
            text_writes(a.name@) + text_writes(a.schema@) + preorder(a).map_values(
                |n: PlanNode| text_writes(n.name@) + text_writes(n.schema@),
            ).flatten(),
        ),
    decreases a,
{
    let w = |n: PlanNode| text_writes(n.name@) + text_writes(n.schema@);
    lemma_forest_writes_nodes(a.children@);
    let rest = forest_preorder(a.children@).map_values(w);
    let all = preorder(a).map_values(w);
    assert(all =~= seq![w(a)] + rest);
    assert(all.first() == w(a));
    assert(all.drop_first() =~= rest);
}

proof fn lemma_forest_writes_nodes(s: Seq<PlanNode>)
    ensures
        forest_writes(s) == forest_preorder(s).map_values(
            |n: PlanNode| text_writes(n.name@) + text_writes(n.schema@),
        ).flatten(),
    decreases s,
{
    let w = |n: PlanNode| text_writes(n.name@) + text_writes(n.schema@);
    if s.len() > 0 {
        lemma_forest_writes_nodes(s.drop_last());
        lemma_plan_writes_nodes(s.last());
        let a = forest_preorder(s.drop_last()).map_values(w);
        let b = preorder(s.last()).map_values(w);
        assert(forest_preorder(s).map_values(w) =~= a + b);
        lemma_flatten_joined(a, b);
    } else {
        assert(forest_preorder(s).map_values(w) =~= Seq::<Seq<Seq<u8>>>::empty());
    }
}

proof fn lemma_flatten_joined(a: Seq<Seq<Seq<u8>>>, b: Seq<Seq<Seq<u8>>>)
    ensures
        (a + b).flatten() == a.flatten() + b.flatten(),
    decreases a.len(),
{
    if a.len() == 0 {
        assert(a + b =~= b);
        assert(a.flatten() + b.flatten() =~= b.flatten());
    } else {
        lemma_flatten_joined(a.drop_first(), b);
        assert((a + b).drop_first() =~= a.drop_first() + b);
        assert((a + b).first() == a.first());
        assert((a + b).flatten() =~= a.flatten() + b.flatten());
    }
}

} // verus!
