use optdbg::common::measure::{MeasureError, PlanMeasurements};
use optdbg::common::plan::{
    dump_plan, eq_plans, format_plan_with_2preorder_help, plan_size, NodeDetail, Plan, PlanNode,
};
use optdbg::common::shape::{partial_eq_plans, partial_eq_plans_help};
use optdbg::duration::Duration;
use optdbg::float::encoding::Float64;
use std::collections::hash_map::DefaultHasher;
use std::hash::Hasher;

const SCHEMA: &str = "Int32 a, Int32 b";

fn plan_f64(x: f64) -> Float64 {
    Float64::from_bits(x.to_bits())
}

fn plan_f64s(xs: &[f64]) -> Vec<Float64> {
    xs.iter().map(|x| plan_f64(*x)).collect()
}

fn plan_texts(xs: &[Float64]) -> Vec<String> {
    xs.iter().map(|x| format!("{}", f64::from_bits(x.to_bits()))).collect()
}

fn plan_node(name: &str, type_id: u64, detail: &str, children: Vec<PlanNode>) -> PlanNode {
    let mut encoding: Vec<u8> = format!("{name}({detail})[").into_bytes();
    let mut debug = format!("{name} {{ {detail}");
    for c in &children {
        encoding.extend(c.encoding.iter());
        debug.push_str(&c.debug);
    }
    encoding.push(b']');
    debug.push_str(" }");
    PlanNode {
        name: name.to_string(),
        type_id,
        schema: SCHEMA.to_string(),
        debug,
        encoding,
        detail: NodeDetail::Other,
        children,
    }
}

fn plan_empty() -> PlanNode {
    plan_node("EmptyExec", 1, "", vec![])
}

fn plan_filter(expr: &str, input: PlanNode) -> PlanNode {
    plan_node("FilterExec", 2, expr, vec![input])
}

fn plan_projection(exprs: &str, input: PlanNode) -> PlanNode {
    plan_node("ProjectionExec", 3, exprs, vec![input])
}

fn plan_sort(input: PlanNode) -> PlanNode {
    plan_node("SortExec", 4, "", vec![input])
}

fn create_complex_test_plan() -> PlanNode {
    plan_sort(plan_projection("1 AS x, 2 AS y", plan_filter("true", plan_empty())))
}

#[test]
fn test_plan_size() {
    let plan = create_complex_test_plan();
    assert_eq!(plan_size(&plan), 4);
}

#[test]
fn test_eq_plans() {
    let plan1 = create_complex_test_plan();
    let plan2 = create_complex_test_plan();
    assert!(eq_plans(&plan1, &plan2));
    assert!(eq_plans(&plan1, &plan1));
    let simple_plan = plan_empty();
    assert!(!eq_plans(&plan1, &simple_plan));
}

#[test]
fn test_partial_eq_plans() {
    let plan1 = create_complex_test_plan();
    let plan2 = create_complex_test_plan();
    for i in 0..4 {
        assert!(partial_eq_plans(&plan1, &plan2, i), "Plans should be equal at index {}", i);
    }
    let different_plan = plan_filter("true", plan_empty());
    assert!(
        !partial_eq_plans(&plan1, &different_plan, 0),
        "Plans should not be equal at index 0"
    );
}

#[test]
fn test_plan_struct() {
    let nodes = plan_size(&create_complex_test_plan());
    let est_costs = plan_f64s(&[10.0, 8.0, 5.0, 2.0]);
    let est_cards = plan_f64s(&[1000.0, 800.0, 500.0, 200.0]);
    let plan = Plan::new(create_complex_test_plan(), est_costs, est_cards);
    assert_eq!(plan.size(), nodes);
    assert_eq!(plan.est_costs.len(), nodes);
    assert_eq!(plan.est_cards.len(), nodes);
}

#[test]
fn test_plan_eq() {
    let plan1 = Plan::new(
        create_complex_test_plan(),
        plan_f64s(&[1.0, 2.0, 3.0, 4.0]),
        plan_f64s(&[100.0, 200.0, 300.0, 400.0]),
    );
    let plan2 = Plan::new(
        create_complex_test_plan(),
        plan_f64s(&[5.0, 6.0, 7.0, 8.0]),
        plan_f64s(&[500.0, 600.0, 700.0, 800.0]),
    );
    assert_eq!(plan1, plan2);
    let mut hasher1 = DefaultHasher::new();
    let mut hasher2 = DefaultHasher::new();
    plan1.hash(&mut hasher1);
    plan2.hash(&mut hasher2);
    assert_eq!(hasher1.finish(), hasher2.finish());
    let other = Plan::new(plan_empty(), vec![], vec![]);
    assert_ne!(plan1, other);
    let mut hasher3 = DefaultHasher::new();
    other.hash(&mut hasher3);
    assert_ne!(hasher1.finish(), hasher3.finish());
}

#[test]
fn test_measure_error() {
    let error1 = MeasureError::Died;
    let error2 = MeasureError::Timeout;
    assert_eq!(error1, error1);
    assert_eq!(error2, error2);
    assert_ne!(error1, error2);
    assert_eq!(format!("{:?}", error1), "Died");
    assert_eq!(format!("{:?}", error2), "Timeout");
    assert_eq!(error1.to_text(), "query failed");
    assert_eq!(error2.to_text(), "timed out");
}

#[test]
fn test_dump_plan() {
    let plan = create_complex_test_plan();
    let mut out = String::new();
    dump_plan(&plan, 0, &mut out);
    assert_eq!(out, "SortExec\n  ProjectionExec\n    FilterExec\n      EmptyExec\n");
    let mut deeper = String::from("> ");
    dump_plan(&plan_empty(), 2, &mut deeper);
    assert_eq!(deeper, ">     EmptyExec\n");
}

#[test]
fn test_partial_eq_plans_with_mismatched_structures() {
    let complex_plan = create_complex_test_plan();
    let simple_plan = plan_filter("true", plan_empty());
    assert!(!partial_eq_plans(&complex_plan, &simple_plan, 0));
    assert!(!partial_eq_plans(&complex_plan, &simple_plan, 2));
    let proj_plan = plan_projection("1 AS x", plan_empty());
    assert!(!partial_eq_plans(&simple_plan, &proj_plan, 0));
}

#[test]
fn test_partial_eq_plans_help_targeting() {
    let plan1 = create_complex_test_plan();
    let plan2 = create_complex_test_plan();
    let mut cur = 0;
    assert!(partial_eq_plans_help(&plan1, &plan2, &mut cur, 0));
    let mut cur = 0;
    assert!(partial_eq_plans_help(&plan1, &plan2, &mut cur, 2));

    let plan1_modified = plan_projection("1 AS x", plan_filter("true", plan_empty()));
    let plan2_modified = plan_projection("2 AS y", plan_filter("false", plan_empty()));
    let mut cur = 0;
    assert!(partial_eq_plans_help(&plan1_modified, &plan2_modified, &mut cur, 0));
    let mut cur = 0;
    assert!(partial_eq_plans_help(&plan1_modified, &plan2_modified, &mut cur, 1));
}

#[test]
fn test_plan_measurements() {
    let cardinalities = vec![Ok(100), Ok(200), Err(MeasureError::Died), Ok(300)];
    let runtimes = vec![
        Ok(Duration::from_millis(10)),
        Ok(Duration::from_millis(20)),
        Err(MeasureError::Timeout),
        Ok(Duration::from_millis(30)),
    ];
    let measurements_with_runtime = PlanMeasurements {
        cardinalities: cardinalities.clone(),
        sub_runtimes: Some(runtimes),
    };
    let measurements_without_runtime = PlanMeasurements {
        cardinalities: cardinalities.clone(),
        sub_runtimes: None,
    };
    assert_eq!(measurements_with_runtime.cardinalities.len(), 4);
    assert!(measurements_with_runtime.sub_runtimes.is_some());
    assert!(measurements_without_runtime.sub_runtimes.is_none());
}

#[test]
fn test_partial_eq_plans_help_edge_cases() {
    let proj_plan = plan_projection("1 AS x", plan_filter("true", plan_empty()));
    let sort_plan = plan_sort(plan_filter("false", plan_empty()));
    let mut cur = 0;
    assert!(!partial_eq_plans_help(&proj_plan, &sort_plan, &mut cur, 1));

    cur = 0;
    let single_child_sort = plan_sort(plan_empty());
    let double_child_proj = plan_projection("1 AS x", plan_empty());
    assert!(!partial_eq_plans_help(&single_child_sort, &double_child_proj, &mut cur, 0));

    let filter_a = plan_filter("true", plan_empty());
    let filter_b = plan_filter("false", plan_empty());
    let mut cur = 0;
    let target_idx = 2;
    assert!(partial_eq_plans_help(&filter_a, &filter_b, &mut cur, target_idx));
}

#[test]
fn test_plan_formatting() {
    let plan1 = Plan::new(
        create_complex_test_plan(),
        plan_f64s(&[1.0, 2.0, 3.0, 4.0, 5.0, 6.0]),
        plan_f64s(&[100.0, 200.0, 300.0, 400.0, 500.0]),
    );
    let formatted1 = plan1.to_text(&plan_texts(&plan1.est_costs), &plan_texts(&plan1.est_cards));
    assert!(!formatted1.is_empty());
    assert!(formatted1.contains("SortExec"));

    let plan2 = Plan::new(
        create_complex_test_plan(),
        plan_f64s(&[1.0, 2.0, 3.0, 4.0]),
        plan_f64s(&[100.0, 200.0, 300.0, 400.0]),
    );
    let result = plan2.to_text(&plan_texts(&plan2.est_costs), &plan_texts(&plan2.est_cards));
    assert!(!result.is_empty());
    assert!(result.contains("SortExec"));
    assert_eq!(
        result,
        "SortExec (1, 100)\n  ProjectionExec (2, 200)\n    FilterExec (3, 300)\n      EmptyExec (4, 400)\n"
    );
}

#[test]
fn test_plan_display_with_shorter_arrays() {
    let plan_short = Plan::new(create_complex_test_plan(), plan_f64s(&[1.0, 2.0]), plan_f64s(&[100.0]));
    assert_eq!(plan_short.est_costs.len(), 2);
    assert_eq!(plan_short.est_cards.len(), 1);
    let plan = create_complex_test_plan();
    assert!(!plan.name.is_empty());
    assert!(!plan.children.is_empty());
}

#[test]
fn cursor_counts_the_nodes_seen() {
    let join = |l: PlanNode, r: PlanNode| plan_node("HashJoinExec", 5, "", vec![l, r]);
    let a = join(plan_filter("x", plan_empty()), plan_sort(plan_empty()));
    let b = join(plan_filter("y", plan_sort(plan_empty())), plan_sort(plan_empty()));
    // Below the filter the plans differ.
    let mut cur = 0;
    assert!(partial_eq_plans_help(&a, &b, &mut cur, 1));
    assert_eq!(cur, 3);
    let mut cur = 0;
    assert!(!partial_eq_plans_help(&a, &b, &mut cur, 3));
    assert_eq!(cur, 2);
    let mut cur = 5;
    assert!(!partial_eq_plans_help(&a, &b, &mut cur, 0));
    assert_eq!(cur, 7);
    let mut cur = 0;
    assert!(partial_eq_plans_help(&a, &a, &mut cur, 99));
    assert_eq!(cur, 4);
}

#[test]
fn partial_equality_needs_types_and_arity() {
    let mut other_type = plan_empty();
    other_type.type_id = 77;
    assert!(!partial_eq_plans(&plan_empty(), &other_type, 0));
    assert!(!partial_eq_plans(&plan_empty(), &other_type, 9));
    let two = plan_node("Union", 6, "", vec![plan_empty(), plan_empty()]);
    let one = plan_node("Union", 6, "", vec![plan_empty()]);
    assert!(partial_eq_plans(&two, &one, 0));
    assert!(partial_eq_plans(&one, &two, 0));
    assert!(!partial_eq_plans(&two, &one, 1));
    assert!(!partial_eq_plans(&one, &two, 1));
}

#[test]
fn annotations_are_taken_in_preorder() {
    let tree = plan_node(
        "Join",
        7,
        "",
        vec![plan_filter("x", plan_empty()), plan_empty()],
    );
    let first: Vec<String> = ["-", "a", "b", "c", "d"].iter().map(|s| s.to_string()).collect();
    let second: Vec<String> = ["-", "1", "2", "3", "4"].iter().map(|s| s.to_string()).collect();
    let mut out = String::new();
    let mut index = 1;
    format_plan_with_2preorder_help(&mut out, &tree, 1, &first, &second, &mut index);
    assert_eq!(index, 5);
    assert_eq!(
        out,
        "  Join (a, 1)\n    FilterExec (b, 2)\n      EmptyExec (c, 3)\n    EmptyExec (d, 4)\n"
    );
}

#[test]
fn what_lies_below_the_target_does_not_matter() {
    let plan = |below: PlanNode| plan_sort(plan_projection("a", below));
    let b = plan(plan_filter("x", plan_empty()));
    let a = plan(plan_empty());
    let other = plan(plan_sort(plan_sort(plan_empty())));
    for target in 0..2 {
        assert!(partial_eq_plans(&a, &other, target));
        assert!(partial_eq_plans(&a, &b, target));
        assert!(partial_eq_plans(&other, &b, target));
    }
    assert!(!partial_eq_plans(&a, &other, 2));
    assert!(!partial_eq_plans(&a, &b, 2));
}
