//! The optimizer's memo table, and what it expects of the plan that it chose.
use vstd::prelude::*;
use crate::float::encoding::Float64;
use crate::sampling::matcher::NodeType;

verus! {

/// An expression of the memo table.
pub struct MemoExpr {
    /// Type of the node.
    pub typ: NodeType,
    /// Groups that the inputs come from.
    pub children: Vec<usize>,
    /// Predicates of the node, by number.
    pub predicates: Vec<u64>,
}

/// The best expression of a group.
#[derive(Clone, Copy)]
pub struct Winner {
    /// The expression.
    pub expr: usize,
    /// Its total cost.
    pub cost: Float64,
    /// Its cardinality.
    pub row_cnt: Float64,
}

/// The optimizer's memo table.
pub struct Memo {
    /// Expressions of each group, by number.
    pub groups: Vec<Vec<usize>>,
    /// All expressions.
    pub exprs: Vec<MemoExpr>,
    /// The best expression of each group, where there is one.
    pub winners: Vec<Option<Winner>>,
}

impl Memo {
    /// Whether all numbers in the table are those of groups and expressions in it.
    pub open spec fn consistent(self) -> bool {
        &&& forall|g: int, k: int|
            0 <= g < self.groups@.len() && 0 <= k < self.groups@[g]@.len()
                ==> #[trigger] self.groups@[g]@[k] < self.exprs@.len()
        &&& forall|e: int, k: int|
            0 <= e < self.exprs@.len() && 0 <= k < self.exprs@[e].children@.len()
                ==> #[trigger] self.exprs@[e].children@[k] < self.groups@.len()
        &&& self.winners@.len() == self.groups@.len()
        &&& forall|g: int|
            0 <= g < self.winners@.len() ==> (#[trigger] self.winners@[g] matches Some(w) ==> w.expr
                < self.exprs@.len())
    }

    /// The groups that the inputs of the best expression of `group` come from.
    pub open spec fn inputs(self, group: usize) -> Seq<usize> {
        self.exprs@[self.winners@[group as int]->0.expr as int].children@
    }

    /// Whether there are best expressions of `group`, of the groups of its inputs, and so on, and
    /// whether they end after at most `depth` levels.
    pub open spec fn settled(self, group: usize, depth: nat) -> bool
        decreases depth,
    {
        &&& depth > 0
        &&& group < self.winners@.len()
        &&& self.winners@[group as int] is Some
        &&& forall|k: int|
            0 <= k < self.inputs(group).len() ==> self.settled(
                #[trigger] self.inputs(group)[k],
                (depth - 1) as nat,
            )
    }

    /// The best expressions of `group`, of the groups of its inputs, and so on, in preorder.
    pub open spec fn chosen(self, group: usize, depth: nat) -> Seq<Winner>
        decreases depth, 0nat,
    {
        if depth == 0 {
            Seq::empty()
        } else {
            seq![self.winners@[group as int]->0] + self.chosen_all(
                self.inputs(group),
                (depth - 1) as nat,
                self.inputs(group).len(),
            )
        }
    }

    /// The best expressions of the first `n` groups, and below them.
    pub open spec fn chosen_all(self, groups: Seq<usize>, depth: nat, n: nat) -> Seq<Winner>
        decreases depth, n + 1,
    {
        if n == 0 {
            Seq::empty()
        } else {
            self.chosen_all(groups, depth, (n - 1) as nat) + self.chosen(groups[n - 1], depth)
        }
    }
}

/// The costs of expressions.
pub open spec fn costs_of(s: Seq<Winner>) -> Seq<Float64> {
    Seq::new(s.len(), |i: int| s[i].cost)
}

/// The cardinalities of expressions.
pub open spec fn cards_of(s: Seq<Winner>) -> Seq<Float64> {
    Seq::new(s.len(), |i: int| s[i].row_cnt)
}

/// Appends the costs and cardinalities of the best plan of a group, with at most `depth` levels.
fn collect_estimates(
    memo: &Memo,
    node: usize,
    depth: usize,
    costs: &mut Vec<Float64>,
    cards: &mut Vec<Float64>,
)
    requires
        memo.consistent(),
        memo.settled(node, depth as nat),
    ensures
        final(costs)@ == old(costs)@ + costs_of(memo.chosen(node, depth as nat)),
        final(cards)@ == old(cards)@ + cards_of(memo.chosen(node, depth as nat)),
    decreases depth,
{
    let ghost start_costs = costs@;
    let ghost start_cards = cards@;
    let ghost below = (depth - 1) as nat;
    let ghost inputs = memo.inputs(node);
    let winner: Winner = match memo.winners[node] {
        Some(winner) => winner,
        None => {
            return;
        },
    };
    costs.push(winner.cost);
    cards.push(winner.row_cnt);
    let expr: &MemoExpr = &memo.exprs[winner.expr];
    let ghost first = seq![winner];
    assert(costs@ =~= start_costs + costs_of(first + memo.chosen_all(inputs, below, 0)));
    assert(cards@ =~= start_cards + cards_of(first + memo.chosen_all(inputs, below, 0)));
    let mut i: usize = 0;
    while i < expr.children.len()
        invariant
            i <= expr.children.len(),
            memo.consistent(),
            expr.children@ == inputs,
            depth > 0,
            below == depth - 1,
            forall|k: int| 0 <= k < inputs.len() ==> memo.settled(#[trigger] inputs[k], below),
            costs@ == start_costs + costs_of(first + memo.chosen_all(inputs, below, i as nat)),
            cards@ == start_cards + cards_of(first + memo.chosen_all(inputs, below, i as nat)),
        decreases expr.children.len() - i,
    {
        assert(memo.settled(inputs[i as int], below));
        collect_estimates(memo, expr.children[i], depth - 1, costs, cards);
        assert(costs@ =~= start_costs + costs_of(
            first + memo.chosen_all(inputs, below, (i + 1) as nat),
        ));
        assert(cards@ =~= start_cards + cards_of(
            first + memo.chosen_all(inputs, below, (i + 1) as nat),
        ));
        i = i + 1;
    }
    assert(memo.chosen(node, depth as nat) == first + memo.chosen_all(
        inputs,
        below,
        inputs.len(),
    ));
}

/// Appends the estimated costs and cardinalities of the plan that the optimizer chose for a group,
/// in preorder.
pub fn get_costs_and_cards(
    node: usize,
    memo: &Memo,
    costs: &mut Vec<Float64>,
    cards: &mut Vec<Float64>,
)
    requires
        memo.consistent(),
        memo.settled(node, memo.groups@.len()),
    ensures
        final(costs)@ == old(costs)@ + costs_of(memo.chosen(node, memo.groups@.len())),
        final(cards)@ == old(cards)@ + cards_of(memo.chosen(node, memo.groups@.len())),
{
    collect_estimates(memo, node, memo.groups.len(), costs, cards);
}

/// The best plan of a group starts with the best expression of the group, and goes on with the best
/// plans of the groups that this expression takes, one after the other.
pub proof fn lemma_chosen(memo: Memo, group: usize, depth: nat)
    requires
        depth > 0,
    ensures
        memo.chosen(group, depth) == seq![memo.winners@[group as int]->0] + Seq::new(
            memo.exprs@[memo.winners@[group as int]->0.expr as int].children@.len(),
            |k: int|
                memo.chosen(
                    memo.exprs@[memo.winners@[group as int]->0.expr as int].children@[k],
                    (depth - 1) as nat,
                ),
        ).flatten(),
{
    let groups = memo.inputs(group);
    let below = (depth - 1) as nat;
    lemma_chosen_all(memo, groups, below, groups.len());
}

proof fn lemma_chosen_all(memo: Memo, groups: Seq<usize>, depth: nat, n: nat)
    requires
        n <= groups.len(),
    ensures
        memo.chosen_all(groups, depth, n) == Seq::new(
            n,
            |k: int| memo.chosen(groups[k], depth),
        ).flatten(),
    decreases n,
{
    let all = Seq::new(n, |k: int| memo.chosen(groups[k], depth));
    all.lemma_flatten_and_flatten_alt_are_equivalent();
    if n > 0 {
        lemma_chosen_all(memo, groups, depth, (n - 1) as nat);
        let before = Seq::new((n - 1) as nat, |k: int| memo.chosen(groups[k], depth));
        before.lemma_flatten_and_flatten_alt_are_equivalent();
        assert(all.drop_last() =~= before);
        assert(all.last() == memo.chosen(groups[n - 1], depth));
    }
}

/// How deep is looked does not matter, once it is deep enough.
pub proof fn lemma_chosen_deeper(memo: Memo, group: usize, depth: nat)
    requires
        memo.settled(group, depth),
    ensures
        memo.settled(group, depth + 1),
        memo.chosen(group, depth + 1) == memo.chosen(group, depth),
    decreases depth, 0nat,
{
    let groups = memo.inputs(group);
    let below = (depth - 1) as nat;
    assert forall|k: int| 0 <= k < groups.len() implies memo.settled(
        #[trigger] groups[k],
        below + 1,
    ) by {
        lemma_chosen_deeper(memo, groups[k], below);
    }
    lemma_chosen_all_deeper(memo, groups, below, groups.len());
    assert((depth + 1) - 1 == below + 1);
}

proof fn lemma_chosen_all_deeper(memo: Memo, groups: Seq<usize>, depth: nat, n: nat)
    requires
        n <= groups.len(),
        forall|k: int| 0 <= k < groups.len() ==> memo.settled(#[trigger] groups[k], depth),
    ensures
        memo.chosen_all(groups, depth + 1, n) == memo.chosen_all(groups, depth, n),
    decreases depth, n + 1,
{
    if n > 0 {
        lemma_chosen_all_deeper(memo, groups, depth, (n - 1) as nat);
        assert(memo.settled(groups[n - 1], depth));
        lemma_chosen_deeper(memo, groups[n - 1], depth);
    }
}

/// There is one cost and one cardinality for each expression, at its place.
pub proof fn lemma_estimates(s: Seq<Winner>)
    ensures
        costs_of(s) == s.map_values(|w: Winner| w.cost),
        cards_of(s) == s.map_values(|w: Winner| w.row_cnt),
{
    assert(costs_of(s) =~= s.map_values(|w: Winner| w.cost));
    assert(cards_of(s) =~= s.map_values(|w: Winner| w.row_cnt));
}

} // verus!
