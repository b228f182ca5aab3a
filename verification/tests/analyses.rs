use optdbg::analysis::detect::{find_cost_problem, find_problems, proc_plan};
use optdbg::analysis::frequency::Frequencies;
use optdbg::analysis::outline::dump_plan_help;
use optdbg::analysis::predicates::{
    get_pred_nodes, get_pred_nodes_expr, get_pred_true_name, head_word,
};
use optdbg::analysis::problems::{
    add_problem, AnalysisConfig, NodeProblem, NodeProblems, PlanProblems,
};
use optdbg::analysis::report::{analyze, analyze_query, summarize, QueryReport, Report};
use optdbg::analysis::tally::collect_freq_info;
use optdbg::benchmark::quality::CardQuality;
use optdbg::benchmark::stats::RuntimeStats;
use optdbg::benchmark::types::{BenchmarkOutput, MeasuredPlan, OptimizerMetrics};
use optdbg::common::measure::MeasureError;
use optdbg::common::plan::{ExprNode, NodeDetail, Plan, PlanNode};
use optdbg::duration::Duration;
use optdbg::float::encoding::Float64;

fn float(x: f64) -> Float64 {
    Float64::from_bits(x.to_bits())
}

fn floats(xs: &[f64]) -> Vec<Float64> {
    xs.iter().map(|x| float(*x)).collect()
}

fn plain(x: Float64) -> f64 {
    f64::from_bits(x.to_bits())
}

fn show_float(x: Float64) -> String {
    format!("{:?}", plain(x))
}

fn detailed(name: &str, detail: NodeDetail, children: Vec<PlanNode>) -> PlanNode {
    PlanNode {
        name: name.to_string(),
        type_id: name.len() as u64,
        schema: String::new(),
        debug: name.to_string(),
        encoding: name.as_bytes().to_vec(),
        detail,
        children,
    }
}

fn leaf(name: &str) -> PlanNode {
    detailed(name, NodeDetail::Other, vec![])
}

fn above(name: &str, children: Vec<PlanNode>) -> PlanNode {
    detailed(name, NodeDetail::Other, children)
}

fn timed(millis: u64) -> Result<RuntimeStats, MeasureError> {
    Ok(RuntimeStats::from_duration(Duration::from_millis(millis)))
}

fn create_measured_plan(runtime_ms: u64, est_cost: f64, est_card: f64, act_card: usize) -> MeasuredPlan {
    MeasuredPlan {
        plan: Plan::new(leaf("EmptyExec"), floats(&[est_cost]), floats(&[est_card])),
        runtime: timed(runtime_ms),
        cardinalities: vec![Ok(act_card)],
        sub_runtimes: None,
    }
}

fn create_problematic_plan(error_type: MeasureError) -> MeasuredPlan {
    MeasuredPlan {
        plan: Plan::new(leaf("EmptyExec"), floats(&[100.0]), floats(&[1000.0])),
        runtime: Err(error_type),
        cardinalities: vec![Err(error_type)],
        sub_runtimes: None,
    }
}

fn metrics_of(score: f64, acc: f64, factor: f64, q: f64) -> OptimizerMetrics {
    OptimizerMetrics {
        taqo_score_s: float(score),
        taqo_accuracy_percent: float(acc),
        performance_factor: float(factor),
        avg_q_error: float(q),
    }
}

#[test]
fn test_card_quality_from_q_err() {
    assert_eq!(CardQuality::from_q_err(float(1.0)), CardQuality::Excellent);
    assert_eq!(CardQuality::from_q_err(float(1.5)), CardQuality::Excellent);
    assert_eq!(CardQuality::from_q_err(float(2.0)), CardQuality::Excellent);

    assert_eq!(CardQuality::from_q_err(float(2.1)), CardQuality::Good);
    assert_eq!(CardQuality::from_q_err(float(3.0)), CardQuality::Good);
    assert_eq!(CardQuality::from_q_err(float(4.0)), CardQuality::Good);

    assert_eq!(CardQuality::from_q_err(float(4.1)), CardQuality::Acceptable);
    assert_eq!(CardQuality::from_q_err(float(7.5)), CardQuality::Acceptable);
    assert_eq!(CardQuality::from_q_err(float(10.0)), CardQuality::Acceptable);

    assert_eq!(CardQuality::from_q_err(float(10.1)), CardQuality::Poor);
    assert_eq!(CardQuality::from_q_err(float(20.0)), CardQuality::Poor);
    assert_eq!(CardQuality::from_q_err(float(100.0)), CardQuality::Poor);

    assert_eq!(CardQuality::from_q_err(float(f64::INFINITY)), CardQuality::Unknown);
    assert_eq!(CardQuality::from_q_err(float(f64::NAN)), CardQuality::Unknown);
}

#[test]
fn test_node_problems() {
    let mut problems = NodeProblems::new();

    add_problem(&mut problems, &0, NodeProblem::CardinalityMisestimation(1000, 100, float(10.0)));
    assert_eq!(problems.len(), 1);
    let node0_problems = problems.get(&0).unwrap();
    assert_eq!(node0_problems.len(), 1);

    add_problem(&mut problems, &0, NodeProblem::Crash);
    assert_eq!(problems.len(), 1);
    let node0_problems = problems.get(&0).unwrap();
    assert_eq!(node0_problems.len(), 2);

    add_problem(&mut problems, &1, NodeProblem::CostMisestimation(200, float(10.0), 100, 500));
    assert_eq!(problems.len(), 2);

    let node0_problems = problems.get(&0).unwrap();
    let node1_problems = problems.get(&1).unwrap();
    assert_eq!(node1_problems.len(), 1);

    match &node0_problems[0] {
        NodeProblem::CardinalityMisestimation(est, act, q_err) => {
            assert_eq!(*est, 1000);
            assert_eq!(*act, 100);
            assert_eq!(*q_err, float(10.0));
        }
        _ => panic!("Wrong problem type"),
    }
    match &node0_problems[1] {
        NodeProblem::Crash => {}
        _ => panic!("Wrong problem type"),
    }
    match &node1_problems[0] {
        NodeProblem::CostMisestimation(runtime_us, est_cost, est_card, act_card) => {
            assert_eq!(*runtime_us, 200);
            assert_eq!(*est_cost, float(10.0));
            assert_eq!(*est_card, 100);
            assert_eq!(*act_card, 500);
        }
        _ => panic!("Wrong problem type"),
    }
}

#[test]
fn test_query_report() {
    let plan1 = create_measured_plan(100, 5.0, 100.0, 90);
    let plan2 = create_measured_plan(200, 15.0, 500.0, 50);
    let plan3 = create_problematic_plan(MeasureError::Died);

    let mut node_problems = PlanProblems::new();
    let mut plan0_problems = NodeProblems::new();
    add_problem(&mut plan0_problems, &0, NodeProblem::CardinalityMisestimation(100, 90, float(1.11)));
    node_problems.insert(0, plan0_problems);

    let mut plan1_problems = NodeProblems::new();
    add_problem(&mut plan1_problems, &0, NodeProblem::CardinalityMisestimation(500, 50, float(10.0)));
    node_problems.insert(1, plan1_problems);

    let mut plan2_problems = NodeProblems::new();
    add_problem(&mut plan2_problems, &0, NodeProblem::Crash);
    node_problems.insert(2, plan2_problems);

    let query_report = QueryReport {
        node_problem_frequency: Frequencies::new(),
        pred_problem_frequency: Frequencies::new(),
        optimal_chosen: true,
        name: "test_query".to_string(),
        metrics: metrics_of(0.2, 80.0, 1.0, 1.11),
        samples: vec![plan1, plan2, plan3],
        chosen: 0,
        node_problems,
    };

    let report_str = query_report.to_text(&show_float);
    assert!(report_str.contains("test_query"));
    assert!(report_str.contains("TAQO Score"));
    assert!(report_str.contains("Cardinality estimation is excellent"));

    let mut graph = asciigraph::Graph::default();
    graph.set_1d_data(&[100usize, 200]);
    let expected = format!(
        "------------------- test_query -------------------\n\nSampled 3 plans.\nTAQO Score (s): 0.2000 (lower is better)\nTAQO Accuracy: 80.00% (higher is better)\nPerformance Factor (PF): 100.00%\nAverage Q-Error: 1.11 (closer to 1.0 is better)\n{graph}\n\nCardinality estimation is excellent (avg Q-Error ≤ 2.0)\nNode problems:\n {{}}\nPred problems:\n {{}}\n\n--------------------------------------------------\n\nPlan 0 (CHOSEN)\n------------------\nEmptyExec | [CardinalityMisestimation(100, 90, 1.11)]\nPlan 1\n------------------\nEmptyExec | [CardinalityMisestimation(500, 50, 10.0)]\nPlan 2\n------------------\nEmptyExec | [Crash]\n"
    );
    assert_eq!(report_str, expected);
}

#[test]
fn test_report() {
    let query1 = QueryReport {
        node_problem_frequency: Frequencies::new(),
        pred_problem_frequency: Frequencies::new(),
        optimal_chosen: true,
        name: "query1".to_string(),
        metrics: metrics_of(0.2, 90.0, 1.0, 1.5),
        samples: vec![create_measured_plan(100, 5.0, 100.0, 90)],
        chosen: 0,
        node_problems: PlanProblems::new(),
    };
    let query2 = QueryReport {
        node_problem_frequency: Frequencies::new(),
        pred_problem_frequency: Frequencies::new(),
        optimal_chosen: false,
        name: "query2".to_string(),
        metrics: metrics_of(0.5, 70.0, 0.5, 5.0),
        samples: vec![
            create_measured_plan(200, 10.0, 200.0, 50),
            create_measured_plan(100, 5.0, 100.0, 90),
        ],
        chosen: 0,
        node_problems: PlanProblems::new(),
    };
    let report = Report {
        opt_freq: float(0.5),
        avg_taqo_score: float(0.35),
        avg_taqo_acc: float(80.0),
        avg_perf_factor: float(0.75),
        queries: vec![query1, query2],
    };
    let report_str = report.to_text(&show_float);
    assert!(report_str.contains("GLOBAL STATS"));
    assert!(report_str.contains("Optimality Frequency (OF): 50.00"));
    assert!(report_str.contains("Average TAQO Score"));
    assert!(report_str.contains("Average TAQO Accuracy"));
    assert!(report_str.contains("query1"));
    assert!(report_str.contains("query2"));

    let parts = format!(
        "{}\n{}\n",
        report.queries[0].to_text(&show_float),
        report.queries[1].to_text(&show_float)
    );
    assert_eq!(
        report_str,
        format!(
            "=================== GLOBAL STATS ===================\n\nEvaluated 2 queries.\nOptimality Frequency (OF): 50.00 (higher is better)\nAverage TAQO Score (s): 0.3500 (lower is better)\nAverage TAQO Accuracy: 80.00% (higher is better)\nAverage Performance Factor (PF): 75.00%\n\n====================================================\n\n\n{parts}"
        )
    );
}

#[test]
fn averages_are_those_of_the_machine() {
    let scores = [0.1, 0.2, 0.30000000000000004, -7.25e-3, 1e3];
    let mut queries = vec![];
    for (i, s) in scores.iter().enumerate() {
        queries.push(QueryReport {
            node_problem_frequency: Frequencies::new(),
            pred_problem_frequency: Frequencies::new(),
            optimal_chosen: i % 2 == 0,
            name: "q".to_string(),
            metrics: metrics_of(*s, *s * 2.0, *s * 3.0, 1.0),
            samples: vec![],
            chosen: 0,
            node_problems: PlanProblems::new(),
        });
    }
    let report = summarize(queries);
    let n = scores.len() as f64;
    assert_eq!(plain(report.avg_taqo_score), scores.iter().sum::<f64>() / n);
    assert_eq!(plain(report.avg_taqo_acc), scores.iter().map(|s| s * 2.0).sum::<f64>() / n);
    assert_eq!(plain(report.avg_perf_factor), scores.iter().map(|s| s * 3.0).sum::<f64>() / n);
    assert_eq!(plain(report.opt_freq), 3.0 / 5.0);
    assert_eq!(plain(summarize(vec![]).opt_freq), 0.0);
    assert!(plain(summarize(vec![]).avg_taqo_score).is_nan());
}

fn expr(debug: &str, operator: Option<&str>, children: Vec<ExprNode>) -> ExprNode {
    ExprNode { debug: debug.to_string(), operator: operator.map(|x| x.to_string()), children }
}

fn column() -> ExprNode {
    expr("Column { name: \"a\", index: 0 }", None, vec![])
}

fn less_than_five() -> ExprNode {
    expr(
        "BinaryExpr { left: Column, op: Lt, right: Literal }",
        Some("<"),
        vec![column(), expr("Literal { value: Int32(5) }", None, vec![])],
    )
}

#[test]
fn predicates_are_named_by_type_or_operator() {
    assert_eq!(head_word("Column { name }"), "Column");
    assert_eq!(head_word("NoSpace"), "NoSpace");
    assert_eq!(head_word(" leading"), "");
    assert_eq!(head_word(""), "");
    assert_eq!(get_pred_true_name(&column()), "Column");
    assert_eq!(get_pred_true_name(&less_than_five()), "<");
    let both = expr("BinaryExpr {..}", Some("AND"), vec![less_than_five(), less_than_five()]);
    let mut out = vec!["first".to_string()];
    get_pred_nodes_expr(&both, &mut out);
    assert_eq!(out, ["first", "AND", "<", "Column", "Literal", "<", "Column", "Literal"]);

    let filter = detailed("FilterExec", NodeDetail::Filter { predicate: both }, vec![]);
    let mut names = get_pred_nodes(&filter);
    names.sort();
    assert_eq!(names, ["<", "AND", "Column", "Literal"]);

    let join = detailed(
        "HashJoinExec",
        NodeDetail::HashJoin { on: vec![(column(), column())], filter: Some(less_than_five()) },
        vec![],
    );
    let mut names = get_pred_nodes(&join);
    names.sort();
    assert_eq!(names, ["<", "Column", "Literal"]);
    let bare = detailed(
        "HashJoinExec",
        NodeDetail::HashJoin { on: vec![], filter: None },
        vec![],
    );
    assert!(get_pred_nodes(&bare).is_empty());
    let nested = detailed(
        "NestedLoopJoinExec",
        NodeDetail::NestedLoopJoin { filter: Some(column()) },
        vec![],
    );
    assert_eq!(get_pred_nodes(&nested), ["Column"]);
    let none = detailed("NestedLoopJoinExec", NodeDetail::NestedLoopJoin { filter: None }, vec![]);
    assert!(get_pred_nodes(&none).is_empty());
    let other = detailed("SortExec", NodeDetail::Filter { predicate: column() }, vec![]);
    assert!(get_pred_nodes(&other).is_empty());
}

fn two_level(costs: &[f64], cards: &[f64], actual: Vec<Result<usize, MeasureError>>, times: &[u64]) -> MeasuredPlan {
    MeasuredPlan {
        plan: Plan::new(above("SortExec", vec![leaf("ScanExec")]), floats(costs), floats(cards)),
        runtime: timed(times[0]),
        cardinalities: actual,
        sub_runtimes: Some(times.iter().map(|t| timed(*t)).collect()),
    }
}

#[test]
fn cardinalities_show_problems() {
    let plan = two_level(&[2.0, 1.0], &[1000.9, 10.0], vec![Ok(10), Ok(1)], &[9, 5]);
    let mut problems = NodeProblems::new();
    let mut idx = 0;
    proc_plan(&plan.plan.tree, &mut idx, &plan, &mut problems);
    assert_eq!(idx, 1);
    assert_eq!(problems.len(), 1);
    assert_eq!(
        *problems.get(&0).unwrap(),
        [NodeProblem::CardinalityMisestimation(1000, 10, float(1000.9 / 10.0))]
    );

    let plan = two_level(
        &[2.0, 1.0],
        &[],
        vec![Err(MeasureError::Died), Err(MeasureError::Timeout)],
        &[9, 5],
    );
    let mut problems = NodeProblems::new();
    let mut idx = 0;
    proc_plan(&plan.plan.tree, &mut idx, &plan, &mut problems);
    assert_eq!(problems.len(), 1);
    assert_eq!(*problems.get(&0).unwrap(), [NodeProblem::Crash]);
    assert!(problems.get(&1).is_none());
}

#[test]
fn costs_that_rank_otherwise_are_problems() {
    // The dearer plan is the faster one.
    let a = two_level(&[10.0, 1.0], &[1.0, 1.0], vec![Ok(1), Ok(1)], &[5, 5]);
    let b = two_level(&[20.0, 1.0], &[1.0, 1.0], vec![Ok(1), Ok(1)], &[3, 5]);
    let plans = vec![a, b];
    assert_eq!(
        find_cost_problem(&plans, 0, 0),
        Some(NodeProblem::CostMisestimation(5, float(10.0), 0, 1))
    );
    assert_eq!(
        find_cost_problem(&plans, 1, 0),
        Some(NodeProblem::CostMisestimation(3, float(20.0), 1, 0))
    );
    assert_eq!(find_cost_problem(&plans, 0, 1), None);
    let found = find_problems(&plans);
    assert_eq!(found.get(&0).unwrap().len(), 1);
    assert_eq!(found.get(&1).unwrap().len(), 1);
    assert!(found.get(&2).is_none());

    // Plans of another shape do not compete, and a lone plan needs no costs.
    let mut c = two_level(&[1.0], &[1.0, 1.0], vec![Ok(1), Ok(1)], &[9, 9]);
    c.plan.tree.name = "OtherExec".to_string();
    let plans = vec![two_level(&[2.0], &[1.0, 1.0], vec![Ok(1), Ok(1)], &[5, 5]), c];
    assert_eq!(find_cost_problem(&plans, 0, 0), None);
    assert_eq!(find_problems(&plans).get(&0).unwrap().len(), 0);
}

fn tallied(
    tree: &PlanNode,
    entries: &[(usize, NodeProblem)],
    root_only: bool,
) -> (Frequencies, Frequencies, usize, bool) {
    let mut table = NodeProblems::new();
    for (i, p) in entries {
        add_problem(&mut table, i, *p);
    }
    let mut problems = PlanProblems::new();
    problems.insert(3, table);
    let mut nodes = Frequencies::new();
    let mut preds = Frequencies::new();
    let mut at = 0;
    let bad = collect_freq_info(3, &mut at, tree, &problems, &mut nodes, &mut preds, root_only);
    (nodes, preds, at, bad)
}

fn misestimated() -> NodeProblem {
    NodeProblem::CardinalityMisestimation(1, 100, float(100.0))
}

#[test]
fn kinds_are_counted() {
    let tree = detailed(
        "FilterExec",
        NodeDetail::Filter { predicate: less_than_five() },
        vec![above("SortExec", vec![leaf("ScanExec")])],
    );
    let (nodes, preds, at, bad) = tallied(&tree, &[(0, misestimated()), (2, misestimated())], false);
    assert_eq!((at, bad), (2, true));
    assert_eq!(nodes.get("FilterExec"), Some((1, 1)));
    assert_eq!(nodes.get("SortExec"), Some((0, 1)));
    assert_eq!(nodes.get("ScanExec"), Some((1, 1)));
    assert_eq!(nodes.get("LimitExec"), None);
    assert_eq!(preds.get("<"), Some((1, 1)));
    assert_eq!(preds.get("Column"), Some((1, 1)));
    assert_eq!(preds.get("Literal"), Some((1, 1)));

    // The sort's input is wrong, not the sort; the filter's own input is good.
    let (nodes, _, _, bad) =
        tallied(&tree, &[(0, misestimated()), (1, misestimated()), (2, misestimated())], true);
    assert!(bad);
    assert_eq!(nodes.get("FilterExec"), Some((0, 1)));
    assert_eq!(nodes.get("SortExec"), Some((0, 1)));
    assert_eq!(nodes.get("ScanExec"), Some((1, 1)));
    let (nodes, _, _, _) = tallied(&tree, &[(0, misestimated()), (2, misestimated())], true);
    assert_eq!(nodes.get("FilterExec"), Some((1, 1)));
}

#[test]
fn crashed_nodes_are_not_counted() {
    let tree = above("SortExec", vec![leaf("ScanExec"), leaf("ScanExec")]);
    let (nodes, _, at, bad) = tallied(&tree, &[(0, NodeProblem::Crash), (2, misestimated())], false);
    assert_eq!((at, bad), (2, false));
    assert_eq!(nodes.get("SortExec"), None);
    assert_eq!(nodes.get("ScanExec"), Some((1, 2)));
    let (nodes, _, _, bad) =
        tallied(&tree, &[(0, NodeProblem::Crash), (0, misestimated())], false);
    assert!(bad);
    assert_eq!(nodes.get("SortExec"), Some((1, 1)));
}

#[test]
fn every_input_is_counted() {
    let tree = above(
        "UnionExec",
        vec![leaf("ScanExec"), above("SortExec", vec![leaf("ValuesExec")]), leaf("ScanExec")],
    );
    let wrong = [(0, misestimated()), (1, misestimated()), (3, misestimated())];
    let (nodes, _, at, bad) = tallied(&tree, &wrong, false);
    assert_eq!((at, bad), (4, true));
    assert_eq!(nodes.get("UnionExec"), Some((1, 1)));
    assert_eq!(nodes.get("ScanExec"), Some((1, 2)));
    assert_eq!(nodes.get("SortExec"), Some((0, 1)));
    assert_eq!(nodes.get("ValuesExec"), Some((1, 1)));

    // Inputs are wrong before and after good ones.
    for at in [1, 2, 4] {
        let (nodes, _, _, _) = tallied(&tree, &[(0, misestimated()), (at, misestimated())], true);
        assert_eq!(nodes.get("UnionExec"), Some((0, 1)));
    }
    let (nodes, _, _, _) = tallied(&tree, &[(0, misestimated()), (3, misestimated())], true);
    assert_eq!(nodes.get("UnionExec"), Some((1, 1)));
}

#[test]
fn counts_show_as_a_map() {
    let mut counts = Frequencies::new();
    assert_eq!(counts.to_text(), "{}");
    counts.count(&"a \"b\"\n".to_string(), true);
    counts.count(&"a \"b\"\n".to_string(), false);
    assert_eq!(counts.to_text(), "{\"a \\\"b\\\"\\n\": (1, 2)}");
    counts.count(&"c".to_string(), false);
    let text = counts.to_text();
    assert!(
        text == "{\"a \\\"b\\\"\\n\": (1, 2), \"c\": (0, 1)}"
            || text == "{\"c\": (0, 1), \"a \\\"b\\\"\\n\": (1, 2)}"
    );
}

#[test]
fn outlines_show_problems() {
    let tree = above("SortExec", vec![above("LimitExec", vec![leaf("ScanExec")]), leaf("ScanExec")]);
    let mut problems = NodeProblems::new();
    add_problem(&mut problems, &1, NodeProblem::Crash);
    add_problem(&mut problems, &1, NodeProblem::CostMisestimation(12, float(0.5), 1, 0));
    add_problem(&mut problems, &3, NodeProblem::CardinalityMisestimation(7, 8, float(1e21)));
    let mut out = "head\n".to_string();
    let mut idx = 0;
    dump_plan_help(&mut out, &tree, 1, Some(&problems), &mut idx, &show_float);
    assert_eq!(idx, 4);
    assert_eq!(
        out,
        "head\n  SortExec | \n    LimitExec | [Crash, CostMisestimation(12, 0.5, 1, 0)]\n      ScanExec | \n    ScanExec | [CardinalityMisestimation(7, 8, 1e21)]\n"
    );
    let mut out = String::new();
    let mut idx = 0;
    dump_plan_help(&mut out, &leaf("ScanExec"), 0, None, &mut idx, &show_float);
    assert_eq!(out, "ScanExec | \n");
}

#[test]
fn queries_are_analyzed() {
    let bench = |name: &str, chosen_idx: usize, factor: f64| BenchmarkOutput {
        name: name.to_string(),
        plans: vec![
            two_level(&[20.0, 1.0], &[1.0, 500.0], vec![Ok(1), Ok(10)], &[3, 1]),
            two_level(&[10.0, 1.0], &[1.0, 500.0], vec![Ok(1), Ok(10)], &[5, 1]),
        ],
        chosen_idx,
        metrics: metrics_of(0.5, 60.0, factor, 2.0),
    };
    let report = analyze_query(bench("q", 1, 0.5), &AnalysisConfig { root_problems_only: true });
    assert_eq!(report.name, "q");
    assert!(!report.optimal_chosen);
    assert_eq!(report.chosen, 1);
    assert_eq!(report.samples.len(), 2);
    assert_eq!(report.node_problem_frequency.get("SortExec"), Some((0, 2)));
    assert_eq!(report.node_problem_frequency.get("ScanExec"), Some((2, 2)));
    assert_eq!(
        *report.node_problems.get(&0).unwrap().get(&0).unwrap(),
        [NodeProblem::CostMisestimation(3, float(20.0), 1, 0)]
    );
    assert_eq!(
        *report.node_problems.get(&1).unwrap().get(&1).unwrap(),
        [NodeProblem::CardinalityMisestimation(500, 10, float(50.0))]
    );
    let report = analyze(
        vec![bench("a", 1, 1.0), bench("b", 0, 0.5)],
        AnalysisConfig { root_problems_only: false },
    );
    assert_eq!(report.queries.len(), 2);
    assert!(report.queries[0].optimal_chosen);
    assert!(!report.queries[1].optimal_chosen);
    assert_eq!(report.queries[1].name, "b");
    assert_eq!(report.queries[1].node_problem_frequency.get("SortExec"), Some((2, 2)));
    assert_eq!(plain(report.opt_freq), 0.5);
    assert_eq!(plain(report.avg_taqo_acc), 60.0);
}

#[test]
fn reports_tell_the_quality_of_estimates() {
    let lines = [
        (2.0, "Cardinality estimation is excellent (avg Q-Error ≤ 2.0)\n"),
        (3.0, "Cardinality estimation is good (avg Q-Error ≤ 4.0)\n"),
        (5.0, "Cardinality estimation is acceptable (avg Q-Error ≤ 10.0)\n"),
        (50.0, "Cardinality estimation needs improvement (avg Q-Error > 10.0)\n"),
        (f64::INFINITY, "Cardinality estimation cannot be evaluated\n"),
    ];
    for (q, line) in lines {
        let report = QueryReport {
            node_problem_frequency: Frequencies::new(),
            pred_problem_frequency: Frequencies::new(),
            optimal_chosen: true,
            name: "q".to_string(),
            metrics: metrics_of(0.0, 100.0, 1.0, q),
            samples: vec![create_measured_plan(4, 1.0, 1.0, 1)],
            chosen: 0,
            node_problems: PlanProblems::new(),
        };
        assert!(report.render("N", "P", &show_float).contains(line));
        assert!(report.render("N", "P", &show_float).contains("Node problems:\n N\nPred problems:\n P\n"));
    }
}

#[test]
fn nodes_that_were_not_measured_have_no_problems() {
    let fast = |cost: f64, millis: u64| {
        let mut plan = two_level(&[cost, 1.0], &[500.0, 500.0], vec![Ok(10)], &[millis, 1]);
        plan.sub_runtimes = None;
        plan
    };
    let bench = BenchmarkOutput {
        name: "q".to_string(),
        plans: vec![fast(20.0, 3), fast(10.0, 5)],
        chosen_idx: 0,
        metrics: metrics_of(0.5, 60.0, 1.0, 2.0),
    };
    let report = analyze_query(bench, &AnalysisConfig { root_problems_only: false });
    for i in 0..2 {
        let problems = report.node_problems.get(&i).unwrap();
        assert_eq!(
            *problems.get(&0).unwrap(),
            [NodeProblem::CardinalityMisestimation(500, 10, float(50.0))]
        );
        assert!(problems.get(&1).is_none());
    }
    assert_eq!(report.node_problem_frequency.get("SortExec"), Some((2, 2)));
    assert_eq!(report.node_problem_frequency.get("ScanExec"), Some((0, 2)));
    assert!(report.optimal_chosen);
}
