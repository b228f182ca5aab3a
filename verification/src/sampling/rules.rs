//! Alternative plans by other combinations of rules.
use vstd::prelude::*;
use crate::common::plan::{eq_plans, plan_nodes, Plan, PlanNode};
use crate::float::encoding::Float64;
use crate::sampling::combine::{is_nth_pick, lemma_first_pick, lemma_nth_pick_unique, nth_pick};
use crate::sampling::matcher::{applies, is_rule_applicable, OptNode, RuleMatcher};
use crate::sampling::strategy::RuleBailStrategy;

verus! {

/// The indices of those of the first `n` rules that apply somewhere in a plan.
pub open spec fn applicable(matchers: Seq<RuleMatcher>, root: OptNode, n: nat) -> Seq<usize>
    decreases n,
{
    if n == 0 {
        Seq::empty()
    } else {
        let before = applicable(matchers, root, (n - 1) as nat);
        if applies(matchers[n - 1], root) {
            before.push((n - 1) as usize)
        } else {
            before
        }
    }
}

/// The indices of the rules that apply somewhere in a plan.
pub fn applicable_rules(matchers: &Vec<RuleMatcher>, root: &OptNode) -> (r: Vec<usize>)
    ensures
        r@ == applicable(matchers@, *root, matchers@.len()),
{
    let mut r: Vec<usize> = Vec::new();
    let mut i: usize = 0;
    while i < matchers.len()
        invariant
            i <= matchers.len(),
            r@ == applicable(matchers@, *root, i as nat),
        decreases matchers.len() - i,
    {
        if is_rule_applicable(&matchers[i], root) {
            r.push(i);
        }
        i = i + 1;
    }
    r
}

/// A rule, by its index among those of its sort.
#[derive(Clone, Copy, Debug, PartialEq, Eq, Structural)]
pub enum RuleRef {
    /// A rule that may be left out.
    Default(usize),
    /// A rule that makes physical plans of logical ones.
    Conversion(usize),
    /// A rule that is always wanted.
    Needed(usize),
}

/// Whether two plans are serialised alike.
pub open spec fn same_plan(a: Plan, b: Plan) -> bool {
    a.tree.encoding@ == b.tree.encoding@
}

/// A search for alternative plans that tries out combinations of rules.
pub struct RuleSearch {
    /// The plan that the optimizer chose.
    pub best: Plan,
    /// The rules that may be left out and apply somewhere in the query.
    pub rules: Vec<usize>,
    /// Number of rules that make physical plans of logical ones.
    pub conversions: usize,
    /// Number of rules that are always wanted.
    pub needed: usize,
    /// When to stop.
    pub bail: RuleBailStrategy,
    /// Number of combinations tried.
    pub tried: usize,
    /// The plans found.
    pub found: Vec<Plan>,
    /// Whether enough plans have been found.
    pub stopped: bool,
}

/// Some of the rules that may be left out, then all that make physical plans, then all that are
/// always wanted.
pub open spec fn rule_set(
    rules: Seq<usize>,
    pick: Seq<usize>,
    conversions: nat,
    needed: nat,
) -> Seq<RuleRef> {
    Seq::new(pick.len(), |i: int| RuleRef::Default(rules[pick[i] as int])) + Seq::new(
        conversions,
        |i: int| RuleRef::Conversion(i as usize),
    ) + Seq::new(needed, |i: int| RuleRef::Needed(i as usize))
}

/// Some of the rules that may be left out, and all others.
pub fn make_rule_set(rules: &Vec<usize>, pick: &Vec<usize>, conversions: usize, needed: usize) -> (r:
    Vec<RuleRef>)
    requires
        forall|i: int| 0 <= i < pick@.len() ==> (#[trigger] pick@[i]) < rules@.len(),
    ensures
        r@ == rule_set(rules@, pick@, conversions as nat, needed as nat),
{
    let mut r: Vec<RuleRef> = Vec::new();
    let mut i: usize = 0;
    while i < pick.len()
        invariant
            i <= pick.len(),
            forall|k: int| 0 <= k < pick@.len() ==> (#[trigger] pick@[k]) < rules@.len(),
            r@ =~= Seq::new(i as nat, |k: int| RuleRef::Default(rules@[pick@[k] as int])),
        decreases pick.len() - i,
    {
        assert(pick@[i as int] < rules@.len());
        r.push(RuleRef::Default(rules[pick[i]]));
        i = i + 1;
    }
    let ghost first = r@;
    let mut i: usize = 0;
    while i < conversions
        invariant
            i <= conversions,
            r@ =~= first + Seq::new(i as nat, |k: int| RuleRef::Conversion(k as usize)),
        decreases conversions - i,
    {
        r.push(RuleRef::Conversion(i));
        i = i + 1;
    }
    let ghost second = r@;
    let mut i: usize = 0;
    while i < needed
        invariant
            i <= needed,
            r@ =~= second + Seq::new(i as nat, |k: int| RuleRef::Needed(k as usize)),
        decreases needed - i,
    {
        r.push(RuleRef::Needed(i));
        i = i + 1;
    }
    r
}

impl RuleSearch {
    /// The number of plans after which looking stops.
    pub open spec fn limit(self) -> Option<nat> {
        match self.bail {
            RuleBailStrategy::Threshold(n) => Some(n as nat),
            _ => None,
        }
    }

    /// Whether the plans found differ from each other and from the one that the optimizer chose,
    /// and whether no more than wanted have been found: looking stops when as many have.
    pub open spec fn sound(self) -> bool {
        &&& forall|i: int|
            0 <= i < self.found@.len() ==> !same_plan(#[trigger] self.found@[i], self.best)
        &&& forall|i: int, j: int|
            0 <= i < j < self.found@.len() ==> !same_plan(
                #[trigger] self.found@[i],
                #[trigger] self.found@[j],
            )
        &&& match self.limit() {
            Some(n) => self.found@.len() <= n && (self.stopped <==> self.found@.len() == n),
            None => !self.stopped,
        }
    }

    /// Whether a plan is new.
    pub open spec fn is_new(self, plan: Plan) -> bool {
        &&& !same_plan(plan, self.best)
        &&& forall|i: int| 0 <= i < self.found@.len() ==> !same_plan(#[trigger] self.found@[i], plan)
    }

    /// A search that has not begun. One that wants no plans has already ended.
    pub fn new(
        best: Plan,
        rules: Vec<usize>,
        conversions: usize,
        needed: usize,
        bail: RuleBailStrategy,
    ) -> (r: RuleSearch)
        ensures
            r.best == best,
            r.rules == rules,
            r.conversions == conversions,
            r.needed == needed,
            r.bail == bail,
            r.tried == 0,
            r.found@.len() == 0,
            r.stopped == (bail == RuleBailStrategy::Threshold(0)),
            r.sound(),
    {
        let stopped: bool = match bail {
            RuleBailStrategy::Threshold(n) => n == 0,
            _ => false,
        };
        RuleSearch {
            best,
            rules,
            conversions,
            needed,
            bail,
            tried: 0,
            found: Vec::new(),
            stopped,
        }
    }

    /// The rules to optimize the query with next; none where enough plans have been found or all
    /// combinations have been tried. Combinations of few rules come first.
    pub fn next(&self) -> (r: Option<Vec<RuleRef>>)
        ensures
            match r {
                Some(set) => {
                    &&& !self.stopped
                    &&& exists|pick: Seq<usize>| #[trigger]
                        is_nth_pick(pick, self.rules@.len(), self.tried as nat) && set@ == rule_set(
                            self.rules@,
                            pick,
                            self.conversions as nat,
                            self.needed as nat,
                        )
                },
                None => self.stopped || forall|pick: Seq<usize>|
                    !is_nth_pick(pick, self.rules@.len(), self.tried as nat),
            },
    {
        if self.stopped {
            return None;
        }
        match nth_pick(self.rules.len(), self.tried) {
            Some(pick) => {
                assert(is_nth_pick(pick@, self.rules@.len(), self.tried as nat));
                Some(make_rule_set(&self.rules, &pick, self.conversions, self.needed))
            },
            None => None,
        }
    }

    /// Enters the plan that the optimizer chose with the rules of the last combination.
    pub fn record(&mut self, plan: Plan)
        requires
            !old(self).stopped,
            old(self).tried < usize::MAX,
        ensures
            final(self).tried == old(self).tried + 1,
            final(self).best == old(self).best,
            final(self).rules == old(self).rules,
            final(self).conversions == old(self).conversions,
            final(self).needed == old(self).needed,
            final(self).bail == old(self).bail,
            old(self).is_new(plan) ==> {
                &&& final(self).found@ == old(self).found@.push(plan)
                &&& final(self).stopped == (old(self).bail == RuleBailStrategy::Threshold(
                    (old(self).found@.len() + 1) as usize,
                ))
            },
            !old(self).is_new(plan) ==> {
                &&& final(self).found@ == old(self).found@
                &&& !final(self).stopped
            },
            old(self).sound() ==> final(self).sound(),
    {
        self.tried = self.tried + 1;
        if eq_plans(&plan.tree, &self.best.tree) {
            return;
        }
        let mut i: usize = 0;
        while i < self.found.len()
            invariant
                i <= self.found.len(),
                self.found@ == old(self).found@,
                !self.stopped,
                !same_plan(plan, old(self).best),
                forall|k: int| 0 <= k < i ==> !same_plan(#[trigger] self.found@[k], plan),
                self.tried == old(self).tried + 1,
                self.best == old(self).best,
                self.rules == old(self).rules,
                self.conversions == old(self).conversions,
                self.needed == old(self).needed,
                self.bail == old(self).bail,
                self.stopped == old(self).stopped,
            decreases self.found.len() - i,
        {
            if eq_plans(&self.found[i].tree, &plan.tree) {
                assert(same_plan(self.found@[i as int], plan));
                return;
            }
            i = i + 1;
        }
        self.found.push(plan);
        match self.bail {
            RuleBailStrategy::Threshold(n) => {
                if self.found.len() == n {
                    self.stopped = true;
                }
            },
            _ => {},
        }
        proof {
            assert(self.found.len() == old(self).found@.len() + 1);
        }
    }
}

/// Plans without those that are the same as the one that the optimizer chose; the others stay in
/// their order.
pub fn without_best(best: &Plan, plans: Vec<Plan>) -> (r: Vec<Plan>)
    ensures
        r@ == plans@.filter(|plan: Plan| !same_plan(plan, *best)),
        forall|i: int| 0 <= i < r@.len() ==> !same_plan(#[trigger] r@[i], *best),
        forall|plan: Plan|
            #[trigger] plans@.contains(plan) && !same_plan(plan, *best) ==> r@.contains(plan),
{
    let ghost s = plans@;
    let ghost other = |plan: Plan| !same_plan(plan, *best);
    let mut rest: Vec<Plan> = plans;
    let mut r: Vec<Plan> = Vec::new();
    let ghost mut n: int = 0;
    proof {
        assert(rest@ =~= s.skip(0));
        reveal(Seq::filter);
        assert(s.take(0).filter(other) =~= Seq::<Plan>::empty());
    }
    while rest.len() > 0
        invariant
            0 <= n <= s.len(),
            rest@ == s.skip(n),
            other == (|plan: Plan| !same_plan(plan, *best)),
            r@ == s.take(n).filter(other),
        decreases rest.len(),
    {
        let plan: Plan = rest.remove(0);
        proof {
            reveal(Seq::filter);
            assert(plan == s[n]);
            assert(s.take(n + 1).drop_last() =~= s.take(n));
            assert(s.take(n + 1).last() == plan);
            assert(rest@ =~= s.skip(n + 1));
        }
        if !eq_plans(&plan.tree, &best.tree) {
            assert(other(plan));
            r.push(plan);
        } else {
            assert(!other(plan));
        }
        proof {
            n = n + 1;
        }
    }
    proof {
        assert(s.take(n) =~= s);
        assert forall|i: int| 0 <= i < r@.len() implies !same_plan(#[trigger] r@[i], *best) by {
            s.lemma_filter_pred(other, i);
        }
        assert forall|plan: Plan|
            #[trigger] s.contains(plan) && !same_plan(plan, *best) implies r@.contains(plan) by {
            let i = choose|i: int| 0 <= i < s.len() && s[i] == plan;
            assert(other(s[i]));
            s.lemma_filter_contains(other, i);
        }
    }
    r
}

/// A plan of which no costs and cardinalities are known: all count as zero.
pub fn unpriced(tree: PlanNode) -> (r: Plan)
    requires
        plan_nodes(tree) <= usize::MAX,
    ensures
        r.tree == tree,
        r.est_costs@ == Seq::new(plan_nodes(tree), |i: int| Float64 { bits: 0 }),
        r.est_cards@ == Seq::new(plan_nodes(tree), |i: int| Float64 { bits: 0 }),
{
    let sz: usize = crate::common::plan::plan_size(&tree);
    let mut costs: Vec<Float64> = Vec::new();
    let mut cards: Vec<Float64> = Vec::new();
    let mut i: usize = 0;
    while i < sz
        invariant
            i <= sz,
            costs@ =~= Seq::new(i as nat, |k: int| Float64 { bits: 0 }),
            cards@ =~= Seq::new(i as nat, |k: int| Float64 { bits: 0 }),
        decreases sz - i,
    {
        costs.push(Float64 { bits: 0 });
        cards.push(Float64 { bits: 0 });
        i = i + 1;
    }
    Plan::new(tree, costs, cards)
}

/// The rules to try out are exactly those that apply somewhere in the plan, each once and in their
/// order.
pub proof fn lemma_applicable(matchers: Seq<RuleMatcher>, root: OptNode)
    requires
        matchers.len() <= usize::MAX,
    ensures
        forall|i: usize|
            applicable(matchers, root, matchers.len()).contains(i) <==> i < matchers.len()
                && #[trigger] applies(matchers[i as int], root),
        forall|a: int, b: int|
            0 <= a < b < applicable(matchers, root, matchers.len()).len() ==> (
            #[trigger] applicable(matchers, root, matchers.len())[a]) < (#[trigger] applicable(
                matchers,
                root,
                matchers.len(),
            )[b]),
{
    lemma_applicable_first(matchers, root, matchers.len());
}

proof fn lemma_applicable_first(matchers: Seq<RuleMatcher>, root: OptNode, n: nat)
    requires
        n <= matchers.len() <= usize::MAX,
    ensures
        forall|i: usize|
            applicable(matchers, root, n).contains(i) <==> i < n && #[trigger] applies(
                matchers[i as int],
                root,
            ),
        forall|a: int, b: int|
            0 <= a < b < applicable(matchers, root, n).len() ==> (#[trigger] applicable(
                matchers,
                root,
                n,
            )[a]) < (#[trigger] applicable(matchers, root, n)[b]),
        forall|a: int|
            0 <= a < applicable(matchers, root, n).len() ==> (#[trigger] applicable(
                matchers,
                root,
                n,
            )[a]) < n,
    decreases n,
{
    if n > 0 {
        let before = applicable(matchers, root, (n - 1) as nat);
        let now = applicable(matchers, root, n);
        lemma_applicable_first(matchers, root, (n - 1) as nat);
        assert forall|i: usize|
            now.contains(i) <==> i < n && #[trigger] applies(matchers[i as int], root) by {
            if before.contains(i) {
                let a = choose|a: int| 0 <= a < before.len() && before[a] == i;
                assert(now[a] == i);
            }
            if now.contains(i) {
                let a = choose|a: int| 0 <= a < now.len() && now[a] == i;
                if a < before.len() {
                    assert(before[a] == i);
                }
            }
            if i == n - 1 && applies(matchers[i as int], root) {
                assert(now[before.len() as int] == i);
            }
        }
    }
}

/// Two plans are the same exactly if they are serialised alike; so a plan is new exactly if its
/// serialisation is neither that of the chosen plan nor that of one found.
pub proof fn lemma_is_new(search: RuleSearch, plan: Plan)
    ensures
        search.is_new(plan) <==> {
            &&& plan.tree.encoding@ != search.best.tree.encoding@
            &&& !search.found@.map_values(|p: Plan| p.tree.encoding@).contains(
                plan.tree.encoding@,
            )
        },
{
    let known = search.found@.map_values(|p: Plan| p.tree.encoding@);
    if known.contains(plan.tree.encoding@) {
        let i = choose|i: int| 0 <= i < known.len() && known[i] == plan.tree.encoding@;
        assert(same_plan(search.found@[i], plan));
    } else {
        assert forall|i: int| 0 <= i < search.found@.len() implies !same_plan(
            #[trigger] search.found@[i],
            plan,
        ) by {
            assert(known[i] == search.found@[i].tree.encoding@);
        }
    }
}

/// A set of rules holds the picked rules, then every rule that makes physical plans and every rule
/// that is always wanted, each once and in its order.
pub proof fn lemma_rule_set(rules: Seq<usize>, pick: Seq<usize>, conversions: nat, needed: nat)
    ensures
        rule_set(rules, pick, conversions, needed).len() == pick.len() + conversions + needed,
        forall|i: int|
            0 <= i < pick.len() ==> rule_set(rules, pick, conversions, needed)[i]
                == RuleRef::Default(rules[#[trigger] pick[i] as int]),
        rule_set(rules, pick, conversions, needed).skip(pick.len() as int) == Seq::new(
            conversions,
            |i: int| RuleRef::Conversion(i as usize),
        ) + Seq::new(needed, |i: int| RuleRef::Needed(i as usize)),
{
    assert(rule_set(rules, pick, conversions, needed).skip(pick.len() as int) =~= Seq::new(
        conversions,
        |i: int| RuleRef::Conversion(i as usize),
    ) + Seq::new(needed, |i: int| RuleRef::Needed(i as usize)));
}

/// The first combination leaves out all rules that may be left out. Whatever comes next holds every
/// rule that makes physical plans and every rule that is always wanted, and of the others only
/// those that apply to the query. Nothing comes next where enough plans have been found.
pub proof fn lemma_next_rules(search: RuleSearch, r: Option<Vec<RuleRef>>)
    requires
        call_ensures(RuleSearch::next, (&search,), r),
    ensures
        search.stopped ==> r is None,
        search.tried == 0 && !search.stopped ==> (r matches Some(set) && set@.len()
            == search.conversions + search.needed),
        r matches Some(set) ==> {
            &&& forall|k: usize|
                k < search.conversions ==> #[trigger] set@.contains(RuleRef::Conversion(k))
            &&& forall|k: usize|
                k < search.needed ==> #[trigger] set@.contains(RuleRef::Needed(k))
            &&& forall|k: usize| #[trigger]
                set@.contains(RuleRef::Default(k)) ==> search.rules@.contains(k)
        },
{
    let n = search.rules@.len();
    let none = Seq::<usize>::empty();
    lemma_first_pick(n);
    if let Some(set) = r {
        let pick = choose|pick: Seq<usize>| #[trigger]
            is_nth_pick(pick, n, search.tried as nat) && set@ == rule_set(
                search.rules@,
                pick,
                search.conversions as nat,
                search.needed as nat,
            );
        let all = set@;
        let p = pick.len() as int;
        let c = search.conversions as int;
        if search.tried == 0 {
            lemma_nth_pick_unique(pick, none, n, 0);
        }
        assert forall|k: usize| k < search.conversions implies #[trigger] all.contains(
            RuleRef::Conversion(k),
        ) by {
            assert(all[p + k] == RuleRef::Conversion(k));
        }
        assert forall|k: usize| k < search.needed implies #[trigger] all.contains(
            RuleRef::Needed(k),
        ) by {
            assert(all[p + c + k] == RuleRef::Needed(k));
        }
        assert forall|k: usize| #[trigger] all.contains(
            RuleRef::Default(k),
        ) implies search.rules@.contains(k) by {
            let j = choose|j: int| 0 <= j < all.len() && all[j] == RuleRef::Default(k);
            assert(j < p);
            assert(pick[j] < n);
            assert(search.rules@[pick[j] as int] == k);
        }
    }
}

} // verus!
