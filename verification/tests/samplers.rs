use optdbg::common::plan::{NodeDetail, Plan, PlanNode};
use optdbg::float::encoding::Float64;
use optdbg::sampling::alternatives::{get_alts, insert_with_children, AltNode};
use optdbg::sampling::matcher::{
    is_rule_applicable, matcher_matches_node, NodeType, OptChild, OptNode, RuleMatcher,
};
use optdbg::sampling::memo::{get_costs_and_cards, Memo, MemoExpr, Winner};
use optdbg::sampling::rules::{
    applicable_rules, make_rule_set, unpriced, without_best, RuleRef, RuleSearch,
};
use optdbg::sampling::strategy::{RuleBailStrategy, SampleStrategy};
use std::collections::HashMap;

fn estimate(x: f64) -> Float64 {
    Float64::from_bits(x.to_bits())
}

#[test]
fn strategies_are_named_in_either_case() {
    assert_eq!(SampleStrategy::from_str("memo"), Ok(SampleStrategy::MemoBased));
    assert_eq!(SampleStrategy::from_str("MeMo"), Ok(SampleStrategy::MemoBased));
    assert_eq!(
        SampleStrategy::from_str("RULE"),
        Ok(SampleStrategy::RuleBased(RuleBailStrategy::Never))
    );
    assert_eq!(SampleStrategy::from_str("Hint"), Ok(SampleStrategy::HintBased));
    assert_eq!(SampleStrategy::from_str("rules"), Err("unknown backend"));
    assert_eq!(SampleStrategy::from_str(""), Err("unknown backend"));
    assert_eq!(SampleStrategy::from_lowercase(&"MEMO".to_string()), Err("unknown backend"));
    assert_eq!(SampleStrategy::from_lowercase(&"memo".to_string()), Ok(SampleStrategy::MemoBased));
}

#[test]
fn hints_are_refused() {
    assert_eq!(
        SampleStrategy::HintBased.check_hintless(),
        Err("optd-old doesn't support optimization hints")
    );
    assert_eq!(SampleStrategy::MemoBased.check_hintless(), Ok(()));
    assert_eq!(
        SampleStrategy::RuleBased(RuleBailStrategy::Inactive(3)).check_hintless(),
        Ok(())
    );
}

fn opt_node(typ: NodeType, children: Vec<OptChild>) -> OptNode {
    OptNode { typ, children }
}

fn join_of(kind: u64, children: Vec<OptChild>) -> OptNode {
    opt_node(NodeType::Other(1, kind), children)
}

fn scan() -> OptChild {
    OptChild::PlanNode(opt_node(NodeType::Other(2, 0), vec![]))
}

#[test]
fn matchers_look_at_types_and_inputs() {
    let join = join_of(7, vec![scan(), scan()]);
    let inner = RuleMatcher::MatchNode {
        typ: NodeType::Other(1, 7),
        children: vec![RuleMatcher::Any, RuleMatcher::Any],
    };
    assert!(matcher_matches_node(&inner, &join));
    assert!(!matcher_matches_node(&inner, &join_of(8, vec![scan(), scan()])));
    let any_join = RuleMatcher::MatchDiscriminant {
        like: NodeType::Other(1, 0),
        children: vec![RuleMatcher::Any, RuleMatcher::AnyMany],
    };
    assert!(matcher_matches_node(&any_join, &join));
    assert!(matcher_matches_node(&any_join, &join_of(8, vec![scan(), scan()])));
    assert!(!matcher_matches_node(&any_join, &join_of(8, vec![scan()])));
    // Groups do not count as inputs.
    assert!(!matcher_matches_node(&any_join, &join_of(8, vec![scan(), OptChild::Group(4)])));
    assert!(matcher_matches_node(
        &any_join,
        &join_of(8, vec![scan(), OptChild::Group(4), scan()])
    ));
    let deep = RuleMatcher::MatchDiscriminant {
        like: NodeType::Other(1, 0),
        children: vec![
            RuleMatcher::MatchNode { typ: NodeType::Other(2, 0), children: vec![] },
            RuleMatcher::MatchNode { typ: NodeType::Other(1, 7), children: vec![] },
        ],
    };
    assert!(!matcher_matches_node(&deep, &join));
    let hash = RuleMatcher::MatchDiscriminant {
        like: NodeType::PhysicalHashJoin(0),
        children: vec![],
    };
    assert!(matcher_matches_node(&hash, &opt_node(NodeType::PhysicalHashJoin(9), vec![])));
    assert!(!matcher_matches_node(&hash, &opt_node(NodeType::PhysicalNestedLoopJoin(9), vec![])));
    assert!(matcher_matches_node(&RuleMatcher::Any, &join));
    assert!(matcher_matches_node(&RuleMatcher::AnyMany, &join));
}

#[test]
fn rules_apply_anywhere_in_a_plan() {
    let matches_scan = RuleMatcher::MatchNode { typ: NodeType::Other(2, 0), children: vec![] };
    let matches_sort = RuleMatcher::MatchDiscriminant {
        like: NodeType::PhysicalSort,
        children: vec![RuleMatcher::Any],
    };
    let plan = join_of(
        0,
        vec![OptChild::Group(3), OptChild::PlanNode(join_of(1, vec![OptChild::Group(1), scan()]))],
    );
    assert!(is_rule_applicable(&matches_scan, &plan));
    assert!(!is_rule_applicable(&matches_sort, &plan));
    assert!(is_rule_applicable(&RuleMatcher::Any, &plan));
    assert_eq!(
        applicable_rules(&vec![matches_sort, RuleMatcher::AnyMany, matches_scan], &plan),
        [1, 2]
    );
}

fn sampled_node(name: &str) -> PlanNode {
    PlanNode {
        name: name.to_string(),
        type_id: 0,
        schema: String::new(),
        debug: name.to_string(),
        encoding: name.as_bytes().to_vec(),
        detail: NodeDetail::Other,
        children: vec![],
    }
}

fn sampled(name: &str) -> Plan {
    Plan::new(sampled_node(name), vec![estimate(1.0)], vec![estimate(1.0)])
}

#[test]
fn rule_sets_come_from_small_to_large() {
    let mut search =
        RuleSearch::new(sampled("best"), vec![4, 6, 9], 1, 2, RuleBailStrategy::Never);
    let mut picks: Vec<Vec<usize>> = vec![];
    while let Some(set) = search.next() {
        let n = set.len();
        assert_eq!(
            set[n - 3..],
            [RuleRef::Conversion(0), RuleRef::Needed(0), RuleRef::Needed(1)]
        );
        picks.push(
            set[..n - 3]
                .iter()
                .map(|r| match r {
                    RuleRef::Default(i) => *i,
                    _ => panic!("a rule that may be left out comes first"),
                })
                .collect(),
        );
        search.record(sampled("best"));
    }
    let expected: Vec<Vec<usize>> = vec![
        vec![],
        vec![4],
        vec![6],
        vec![9],
        vec![4, 6],
        vec![4, 9],
        vec![6, 9],
        vec![4, 6, 9],
    ];
    assert_eq!(picks, expected);
    assert_eq!(search.tried, 8);
    assert!(search.found.is_empty());
    assert_eq!(
        make_rule_set(&vec![4, 6], &vec![1], 1, 0),
        [RuleRef::Default(6), RuleRef::Conversion(0)]
    );
}

#[test]
fn searches_keep_new_plans_only() {
    let mut search =
        RuleSearch::new(sampled("best"), vec![1, 2], 0, 0, RuleBailStrategy::Threshold(2));
    search.record(sampled("a"));
    search.record(sampled("best"));
    search.record(sampled("a"));
    assert_eq!(search.found.len(), 1);
    assert!(!search.stopped);
    assert!(search.next().is_some());
    search.record(sampled("b"));
    assert_eq!(search.found.len(), 2);
    assert!(search.stopped);
    assert!(search.next().is_none());
    assert_eq!(search.found[0].tree.name, "a");
    assert_eq!(search.found[1].tree.name, "b");

    let ended = RuleSearch::new(sampled("best"), vec![1], 0, 0, RuleBailStrategy::Threshold(0));
    assert!(ended.stopped);
    assert!(ended.next().is_none());
    for bail in [RuleBailStrategy::Never, RuleBailStrategy::Inactive(0)] {
        let mut endless = RuleSearch::new(sampled("best"), vec![1], 0, 0, bail);
        endless.record(sampled("a"));
        assert!(!endless.stopped);
        assert!(endless.next().is_some());
        endless.record(sampled("b"));
        assert!(!endless.stopped);
        assert!(endless.next().is_none());
    }
}

#[test]
fn the_best_plan_is_left_out() {
    let plans = vec![sampled("a"), sampled("best"), sampled("b"), sampled("best"), sampled("a")];
    let names: Vec<String> = without_best(&sampled("best"), plans)
        .iter()
        .map(|plan| plan.tree.name.clone())
        .collect();
    assert_eq!(names, ["a", "b", "a"]);
    assert!(without_best(&sampled("best"), vec![sampled("best")]).is_empty());
}

#[test]
fn plans_without_estimates_cost_nothing() {
    let mut tree = sampled_node("a");
    tree.children = vec![sampled_node("b"), sampled_node("c")];
    let plan = unpriced(tree);
    assert_eq!(plan.est_costs, vec![estimate(0.0); 3]);
    assert_eq!(plan.est_cards, vec![estimate(0.0); 3]);
}

fn memo_expr(typ: NodeType, children: Vec<usize>, predicates: Vec<u64>) -> MemoExpr {
    MemoExpr { typ, children, predicates }
}

fn winner(expr: usize, cost: f64, row_cnt: f64) -> Option<Winner> {
    Some(Winner { expr, cost: estimate(cost), row_cnt: estimate(row_cnt) })
}

/// A join of two tables, each of which can be scanned in two ways.
fn join_memo() -> Memo {
    Memo {
        groups: vec![vec![0, 1, 2], vec![3, 4], vec![5, 6, 7]],
        exprs: vec![
            memo_expr(NodeType::Other(1, 0), vec![1, 2], vec![8]),
            memo_expr(NodeType::PhysicalHashJoin(0), vec![1, 2], vec![8]),
            memo_expr(NodeType::PhysicalNestedLoopJoin(0), vec![2, 1], vec![]),
            memo_expr(NodeType::PhysicalScan, vec![], vec![1]),
            memo_expr(NodeType::PhysicalEmptyRelation, vec![], vec![]),
            memo_expr(NodeType::Other(2, 0), vec![], vec![]),
            memo_expr(NodeType::PhysicalScan, vec![], vec![2]),
            memo_expr(NodeType::PhysicalScan, vec![], vec![3]),
        ],
        winners: vec![winner(1, 30.0, 5.0), winner(4, 10.0, 6.0), winner(6, 15.0, 7.0)],
    }
}

#[test]
fn estimates_come_in_preorder() {
    let memo = join_memo();
    let mut costs = vec![estimate(-1.0)];
    let mut cards = vec![];
    get_costs_and_cards(0, &memo, &mut costs, &mut cards);
    assert_eq!(costs, [estimate(-1.0), estimate(30.0), estimate(10.0), estimate(15.0)]);
    assert_eq!(cards, [estimate(5.0), estimate(6.0), estimate(7.0)]);
}

#[test]
fn alternatives_combine_the_inputs() {
    let (roots, search) = get_alts(&join_memo(), 0);
    // The inputs of the second join have all been looked at for the first.
    assert_eq!(roots, [4, 5, 6, 7]);
    assert_eq!(search.nodes.len(), 8);
    let rows: Vec<Vec<usize>> = roots.iter().map(|r| search.nodes[*r].children.clone()).collect();
    assert_eq!(rows, [vec![0, 2], vec![0, 3], vec![1, 2], vec![1, 3]]);
    assert_eq!(search.nodes[4].typ, NodeType::PhysicalHashJoin(0));
    assert_eq!(search.nodes[4].predicates, [8]);
    assert_eq!(search.nodes[0].typ, NodeType::PhysicalScan);
    assert_eq!(search.nodes[3].predicates, [3]);
    // Every node under a join counts as coming from the join's group.
    for i in 0..8 {
        assert_eq!(search.meta.get(&i), Some(&0));
    }
    assert_eq!(search.counts.get(&0), Some(&2));
    assert_eq!(search.counts.get(&1), Some(&2));
    assert_eq!(search.counts.get(&2), Some(&2));

    let (roots, search) = get_alts(&join_memo(), 2);
    assert_eq!(roots, [0, 1]);
    assert!(search.meta.is_empty());
    assert_eq!(search.counts.get(&2), Some(&2));
}

#[test]
fn nodes_below_get_the_group() {
    let alt = |children: Vec<usize>| AltNode {
        typ: NodeType::PhysicalSort,
        children,
        predicates: vec![],
    };
    let nodes = vec![alt(vec![]), alt(vec![0]), alt(vec![]), alt(vec![1])];
    let mut meta = HashMap::new();
    meta.insert(0, 5);
    meta.insert(2, 6);
    insert_with_children(&nodes, 3, 9, &mut meta);
    assert_eq!(meta.get(&0), Some(&9));
    assert_eq!(meta.get(&1), Some(&9));
    assert_eq!(meta.get(&2), Some(&6));
    assert_eq!(meta.get(&3), Some(&9));
}
