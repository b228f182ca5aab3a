//! Reports on queries, and on all queries together.
use vstd::prelude::*;
use vstd::string::*;
use crate::analysis::detect::{
    analyzable, card_problem, cost_problem, find_problems, found_problems, lemma_found_at, listed,
};
use crate::analysis::frequency::Frequencies;
use crate::analysis::outline::{dump_plan_help, problem_outline, shows};
use crate::analysis::problems::{problems_at, AnalysisConfig, NodeProblem, PlanProblems};
use crate::analysis::tally::{
    all_have_predicates, collect_freq_info, counts_of, found_in, kind_counts, lemma_tally_bounds,
    lemma_tally_counts_all, tally, tally_room, Tally,
};
use crate::benchmark::accuracy::ran;
use crate::benchmark::choice::{
    chose_optimal, is_optimal, optimal_count, optimality_frequency,
};
use crate::benchmark::quality::{quality, CardQuality};
use crate::benchmark::stats::HUNDRED;
use crate::benchmark::types::{BenchmarkOutput, MeasuredPlan, OptimizerMetrics};
use crate::common::plan::plan_nodes;
use crate::counting::{lemma_those, those};
use crate::float::arith::of_nat;
use crate::float::encoding::Float64;
use crate::float::identity::{lemma_divided_by_one, lemma_nothing_more};
use crate::text::{decimal, push_decimal};

verus! {

/// What analyzing a query gave.
pub struct QueryReport {
    /// How often each kind of node has a problem, and occurs.
    pub node_problem_frequency: Frequencies,
    /// How often each kind of expression stands in a node with a problem, and in any node.
    pub pred_problem_frequency: Frequencies,
    /// Whether the optimizer chose a plan that none is faster than.
    pub optimal_chosen: bool,
    /// Name of the query.
    pub name: String,
    /// How well the optimizer did.
    pub metrics: OptimizerMetrics,
    /// The plans, by runtime.
    pub samples: Vec<MeasuredPlan>,
    /// Index of the chosen plan in `samples`.
    pub chosen: usize,
    /// Problems of the nodes of each plan.
    pub node_problems: PlanProblems,
}

/// The number of nodes of the first `n` plans together.
pub open spec fn total_nodes(plans: Seq<MeasuredPlan>, n: nat) -> nat
    decreases n,
{
    if n == 0 {
        0
    } else {
        total_nodes(plans, (n - 1) as nat) + plan_nodes(plans[n - 1].plan.tree)
    }
}

/// The counts after the first `n` plans.
pub open spec fn tally_plans(plans: Seq<MeasuredPlan>, root_only: bool, n: nat) -> Tally
    decreases n,
{
    if n == 0 {
        Tally { nodes: Map::empty(), preds: Map::empty() }
    } else {
        tally(
            plans[n - 1].plan.tree,
            0,
            found_problems(plans, n - 1),
            root_only,
            tally_plans(plans, root_only, (n - 1) as nat),
        ).0
    }
}

proof fn lemma_tally_plans_room(plans: Seq<MeasuredPlan>, root_only: bool, n: nat, spare: nat)
    requires
        total_nodes(plans, n) + spare <= usize::MAX,
    ensures
        tally_room(tally_plans(plans, root_only, n), spare),
    decreases n,
{
    if n > 0 {
        let nodes = plan_nodes(plans[n - 1].plan.tree);
        lemma_tally_plans_room(plans, root_only, (n - 1) as nat, nodes + spare);
        lemma_tally_bounds(
            plans[n - 1].plan.tree,
            0,
            found_problems(plans, n - 1),
            root_only,
            tally_plans(plans, root_only, (n - 1) as nat),
            spare,
        );
    }
}

proof fn lemma_total_nodes_monotone(plans: Seq<MeasuredPlan>, a: nat, b: nat)
    requires
        a <= b,
    ensures
        total_nodes(plans, a) <= total_nodes(plans, b),
    decreases b,
{
    if a < b {
        lemma_total_nodes_monotone(plans, a, (b - 1) as nat);
    }
}

/// Whether a query's plans can be analyzed: what was measured was estimated, their predicates are
/// known, where there are several their costs are numbers, and their nodes can be counted.
pub open spec fn reportable(plans: Seq<MeasuredPlan>) -> bool {
    &&& analyzable(plans)
    &&& forall|i: int| 0 <= i < plans.len() ==> all_have_predicates((#[trigger] plans[i]).plan.tree)
    &&& plans.len() > 1 ==> forall|i: int|
        0 <= i < plans.len() ==> {
            &&& (#[trigger] plans[i]).plan.est_costs@.len() > 0
            &&& !plans[i].plan.est_costs@[0].nan()
        }
    &&& total_nodes(plans, plans.len()) <= usize::MAX
}

/// Whether `r` is the report on a query.
pub open spec fn reports(r: QueryReport, bench: BenchmarkOutput, cfg: AnalysisConfig) -> bool {
    let counts = tally_plans(bench.plans@, cfg.root_problems_only, bench.plans@.len());
    &&& r.name == bench.name
    &&& r.metrics == bench.metrics
    &&& r.samples == bench.plans
    &&& r.chosen == bench.chosen_idx
    &&& r.optimal_chosen == is_optimal(bench)
    &&& forall|i: usize| #[trigger] r.node_problems@.contains_key(i) <==> i < bench.plans@.len()
    &&& forall|i: usize|
        i < bench.plans@.len() ==> #[trigger] r.node_problems@[i] == found_problems(
            bench.plans@,
            i as int,
        )
    &&& r.node_problem_frequency@ == counts.nodes
    &&& r.pred_problem_frequency@ == counts.preds
}

/// Analyzes a query: what is wrong with the nodes of its plans, and which kinds of nodes and
/// expressions have problems how often.
pub fn analyze_query(bench: BenchmarkOutput, cfg: &AnalysisConfig) -> (r: QueryReport)
    requires
        reportable(bench.plans@),
    ensures
        reports(r, bench, *cfg),
{
    let optimal_chosen: bool = chose_optimal(&bench);
    let problems: PlanProblems = find_problems(&bench.plans);
    let mut node_freq: Frequencies = Frequencies::new();
    let mut pred_freq: Frequencies = Frequencies::new();
    let ghost s = bench.plans@;
    let ghost root_only = cfg.root_problems_only;
    let mut i: usize = 0;
    while i < bench.plans.len()
        invariant
            i <= bench.plans.len(),
            s == bench.plans@,
            reportable(s),
            root_only == cfg.root_problems_only,
            forall|k: usize| #[trigger] problems@.contains_key(k) <==> k < s.len(),
            forall|k: usize|
                k < s.len() ==> #[trigger] problems@[k] == found_problems(s, k as int),
            node_freq@ == tally_plans(s, root_only, i as nat).nodes,
            pred_freq@ == tally_plans(s, root_only, i as nat).preds,
        decreases bench.plans.len() - i,
    {
        let mut node_idx: usize = 0;
        proof {
            lemma_total_nodes_monotone(s, (i + 1) as nat, s.len());
            lemma_tally_plans_room(s, root_only, i as nat, plan_nodes(s[i as int].plan.tree));
            assert(all_have_predicates(s[i as int].plan.tree));
            assert(problems@.contains_key(i));
            assert(found_in(problems, i) == found_problems(s, i as int));
            let t = tally_plans(s, root_only, i as nat);
            assert(t == (Tally { nodes: node_freq@, preds: pred_freq@ }));
        }
        let _ = collect_freq_info(
            i,
            &mut node_idx,
            &bench.plans[i].plan.tree,
            &problems,
            &mut node_freq,
            &mut pred_freq,
            cfg.root_problems_only,
        );
        i = i + 1;
    }
    QueryReport {
        node_problem_frequency: node_freq,
        pred_problem_frequency: pred_freq,
        optimal_chosen,
        name: bench.name,
        metrics: bench.metrics,
        samples: bench.plans,
        chosen: bench.chosen_idx,
        node_problems: problems,
    }
}

/// Encoding of negative zero.
pub const NEGATIVE_ZERO: u64 = 0x8000_0000_0000_0000;

/// Numbers added up in order.
pub open spec fn float_sum(s: Seq<Float64>) -> Float64
    decreases s.len(),
{
    if s.len() == 0 {
        Float64 { bits: NEGATIVE_ZERO }
    } else {
        float_sum(s.drop_last()).sum(s.last())
    }
}

/// The mean of numbers.
pub open spec fn float_mean(s: Seq<Float64>) -> Float64 {
    float_sum(s).quotient(of_nat(s.len()))
}

/// In how many queries the optimizer chose a plan that none is faster than.
pub open spec fn optimal_queries(queries: Seq<QueryReport>) -> nat
    decreases queries.len(),
{
    if queries.len() == 0 {
        0
    } else {
        optimal_queries(queries.drop_last()) + if queries.last().optimal_chosen {
            1nat
        } else {
            0nat
        }
    }
}

/// The share of the queries in which the optimizer chose a plan that none is faster than; zero
/// where there are no queries.
pub open spec fn optimal_share(queries: Seq<QueryReport>) -> Float64 {
    if queries.len() == 0 {
        Float64 { bits: 0 }
    } else {
        of_nat(optimal_queries(queries)).quotient(of_nat(queries.len()))
    }
}

/// The scores of queries.
pub open spec fn scores(queries: Seq<QueryReport>) -> Seq<Float64> {
    Seq::new(queries.len(), |i: int| queries[i].metrics.taqo_score_s)
}

/// The accuracies of queries.
pub open spec fn accuracies(queries: Seq<QueryReport>) -> Seq<Float64> {
    Seq::new(queries.len(), |i: int| queries[i].metrics.taqo_accuracy_percent)
}

/// The performance factors of queries.
pub open spec fn factors(queries: Seq<QueryReport>) -> Seq<Float64> {
    Seq::new(queries.len(), |i: int| queries[i].metrics.performance_factor)
}

/// What analyzing queries gave.
pub struct Report {
    /// Fraction of queries for which the optimizer chooses the relative optimal plan.
    pub opt_freq: Float64,
    /// Mean TAQO score.
    pub avg_taqo_score: Float64,
    /// Mean TAQO accuracy.
    pub avg_taqo_acc: Float64,
    /// Mean performance factor.
    pub avg_perf_factor: Float64,
    /// The reports on the queries.
    pub queries: Vec<QueryReport>,
}

/// The report on all queries together.
pub fn summarize(queries: Vec<QueryReport>) -> (r: Report)
    ensures
        r.queries == queries,
        r.opt_freq == optimal_share(queries@),
        r.avg_taqo_score == float_mean(scores(queries@)),
        r.avg_taqo_acc == float_mean(accuracies(queries@)),
        r.avg_perf_factor == float_mean(factors(queries@)),
{
    let ghost s = queries@;
    let mut opt: usize = 0;
    let mut score: Float64 = Float64 { bits: NEGATIVE_ZERO };
    let mut acc: Float64 = Float64 { bits: NEGATIVE_ZERO };
    let mut factor: Float64 = Float64 { bits: NEGATIVE_ZERO };
    let mut i: usize = 0;
    while i < queries.len()
        invariant
            i <= queries.len(),
            s == queries@,
            opt <= i,
            opt == optimal_queries(s.take(i as int)),
            score == float_sum(scores(s).take(i as int)),
            acc == float_sum(accuracies(s).take(i as int)),
            factor == float_sum(factors(s).take(i as int)),
        decreases queries.len() - i,
    {
        proof {
            assert(s.take(i + 1).drop_last() =~= s.take(i as int));
            assert(s.take(i + 1).last() == s[i as int]);
            lemma_float_sum_step(scores(s), i as int);
            lemma_float_sum_step(accuracies(s), i as int);
            lemma_float_sum_step(factors(s), i as int);
        }
        if queries[i].optimal_chosen {
            opt = opt + 1;
        }
        score = score.plus(queries[i].metrics.taqo_score_s);
        acc = acc.plus(queries[i].metrics.taqo_accuracy_percent);
        factor = factor.plus(queries[i].metrics.performance_factor);
        i = i + 1;
    }
    proof {
        assert(s.take(i as int) =~= s);
        assert(scores(s).take(i as int) =~= scores(s));
        assert(accuracies(s).take(i as int) =~= accuracies(s));
        assert(factors(s).take(i as int) =~= factors(s));
    }
    let n: Float64 = Float64::from_u64(queries.len() as u64);
    let opt_freq: Float64 = if queries.len() == 0 {
        Float64 { bits: 0 }
    } else {
        Float64::from_u64(opt as u64).over(n)
    };
    Report {
        opt_freq,
        avg_taqo_score: score.over(n),
        avg_taqo_acc: acc.over(n),
        avg_perf_factor: factor.over(n),
        queries,
    }
}

proof fn lemma_float_sum_step(s: Seq<Float64>, i: int)
    requires
        0 <= i < s.len(),
    ensures
        float_sum(s.take(i + 1)) == float_sum(s.take(i)).sum(s[i]),
{
    assert(s.take(i + 1).drop_last() =~= s.take(i));
}

/// The reports on queries count as many chosen plans that none is faster than as the benchmarks of
/// the queries do.
proof fn lemma_optimal_counts(
    queries: Seq<QueryReport>,
    benches: Seq<BenchmarkOutput>,
    n: nat,
)
    requires
        n <= queries.len() == benches.len(),
        forall|i: int|
            0 <= i < queries.len() ==> (#[trigger] queries[i]).optimal_chosen == is_optimal(
                benches[i],
            ),
    ensures
        optimal_queries(queries.take(n as int)) == optimal_count(benches, n),
    decreases n,
{
    if n > 0 {
        lemma_optimal_counts(queries, benches, (n - 1) as nat);
        assert(queries.take(n as int).drop_last() =~= queries.take(n - 1));
        assert(queries.take(n as int).last() == queries[n - 1]);
    }
}

/// The share that a report gives is the optimality frequency of the benchmarks that it is on.
pub proof fn lemma_optimality_frequency(
    queries: Seq<QueryReport>,
    benches: Seq<BenchmarkOutput>,
    cfg: AnalysisConfig,
)
    requires
        queries.len() == benches.len(),
        forall|i: int|
            0 <= i < queries.len() ==> reports(#[trigger] queries[i], benches[i], cfg),
    ensures
        optimal_share(queries) == optimality_frequency(benches),
{
    assert forall|i: int| 0 <= i < queries.len() implies (#[trigger] queries[i]).optimal_chosen
        == is_optimal(benches[i]) by {
        assert(reports(queries[i], benches[i], cfg));
    }
    lemma_optimal_counts(queries, benches, queries.len());
    assert(queries.take(queries.len() as int) =~= queries);
}

/// Analyzes queries, and reports on all of them together.
pub fn analyze(benches: Vec<BenchmarkOutput>, cfg: AnalysisConfig) -> (r: Report)
    requires
        forall|i: int| 0 <= i < benches@.len() ==> reportable((#[trigger] benches@[i]).plans@),
    ensures
        r.queries@.len() == benches@.len(),
        forall|i: int|
            0 <= i < benches@.len() ==> reports(#[trigger] r.queries@[i], benches@[i], cfg),
        r.opt_freq == optimality_frequency(benches@),
        r.avg_taqo_score == float_mean(scores(r.queries@)),
        r.avg_taqo_acc == float_mean(accuracies(r.queries@)),
        r.avg_perf_factor == float_mean(factors(r.queries@)),
{
    let ghost s = benches@;
    let mut rest: Vec<BenchmarkOutput> = benches;
    let mut queries: Vec<QueryReport> = Vec::new();
    assert(rest@ =~= s.skip(0));
    while rest.len() > 0
        invariant
            queries@.len() <= s.len(),
            rest@ == s.skip(queries@.len() as int),
            forall|i: int| 0 <= i < s.len() ==> reportable((#[trigger] s[i]).plans@),
            forall|i: int|
                0 <= i < queries@.len() ==> reports(#[trigger] queries@[i], s[i], cfg),
        decreases rest.len(),
    {
        let ghost n = queries@.len() as int;
        let bench: BenchmarkOutput = rest.remove(0);
        assert(bench == s[n]);
        assert(reportable(s[n].plans@));
        queries.push(analyze_query(bench, &cfg));
        assert(rest@ =~= s.skip(n + 1));
    }
    proof {
        lemma_optimality_frequency(queries@, s, cfg);
    }
    summarize(queries)
}

/// The mean runtimes, in milliseconds, of the plans that ran.
pub open spec fn graph_data(samples: Seq<MeasuredPlan>) -> Seq<usize>
    decreases samples.len(),
{
    if samples.len() == 0 {
        Seq::empty()
    } else {
        let before = graph_data(samples.drop_last());
        match samples.last().runtime {
            Ok(stats) => before.push((stats.mean@ / 1_000_000) as u128 as usize),
            Err(_) => before,
        }
    }
}

/// The text of a bar chart.
pub uninterp spec fn graph_text(data: Seq<usize>) -> Seq<char>;

/// How many bars a chart can have, at most: their number times the width of the chart has to be
/// counted.
pub open spec fn most_bars() -> nat {
    (usize::MAX / 80) as nat
}

/// Draws a bar chart.
///
/// `Display` of `asciigraph::Graph`, with the defaults and the data set by `set_1d_data`: that the
/// data alone decides the text. Without data, or with more than it can count, it would panic.
#[verifier::external_body]
fn draw_graph(data: &Vec<usize>) -> (r: String)
    requires
        0 < data@.len() <= most_bars(),
    ensures
        r@ == graph_text(data@),
{
    let mut graph = asciigraph::Graph::default();
    graph.set_1d_data(data.as_slice());
    format!("{}", graph)
}

/// The line on the quality of the cardinality estimates.
pub open spec fn quality_line(q: CardQuality) -> Seq<char> {
    match q {
        CardQuality::Excellent => "Cardinality estimation is excellent (avg Q-Error ≤ 2.0)\n"@,
        CardQuality::Good => "Cardinality estimation is good (avg Q-Error ≤ 4.0)\n"@,
        CardQuality::Acceptable => "Cardinality estimation is acceptable (avg Q-Error ≤ 10.0)\n"@,
        CardQuality::Poor => "Cardinality estimation needs improvement (avg Q-Error > 10.0)\n"@,
        CardQuality::Unknown => "Cardinality estimation cannot be evaluated\n"@,
    }
}

/// The line on the quality of the cardinality estimates.
fn quality_text(q: CardQuality) -> (r: &'static str)
    ensures
        r@ == quality_line(q),
{
    match q {
        CardQuality::Excellent => "Cardinality estimation is excellent (avg Q-Error ≤ 2.0)\n",
        CardQuality::Good => "Cardinality estimation is good (avg Q-Error ≤ 4.0)\n",
        CardQuality::Acceptable => "Cardinality estimation is acceptable (avg Q-Error ≤ 10.0)\n",
        CardQuality::Poor => "Cardinality estimation needs improvement (avg Q-Error > 10.0)\n",
        CardQuality::Unknown => "Cardinality estimation cannot be evaluated\n",
    }
}

impl QueryReport {
    /// The problems entered for the plan `i`.
    pub open spec fn entered(self, i: int) -> Option<Map<usize, Seq<NodeProblem>>> {
        if self.node_problems@.contains_key(i as usize) {
            Some(self.node_problems@[i as usize])
        } else {
            None
        }
    }

    /// The texts of the first `n` plans.
    pub open spec fn plans_text<F: Fn(Float64) -> String>(self, show: F, n: nat) -> Seq<char>
        decreases n,
    {
        if n == 0 {
            Seq::empty()
        } else {
            self.plans_text(show, (n - 1) as nat) + "Plan "@ + decimal((n - 1) as nat) + (if n - 1
                == self.chosen {
                " (CHOSEN)"@
            } else {
                Seq::empty()
            }) + "\n"@ + "------------------\n"@ + problem_outline(
                self.samples@[n - 1].plan.tree,
                0,
                self.entered(n - 1),
                0,
                show,
            )
        }
    }

    /// The lines on how well the optimizer did.
    pub open spec fn head_text(self) -> Seq<char> {
        "------------------- "@ + self.name@ + " -------------------\n\n"@ + "Sampled "@ + decimal(
            self.samples@.len(),
        ) + " plans.\n"@ + "TAQO Score (s): "@ + self.metrics.taqo_score_s.fixed(4)
            + " (lower is better)\n"@ + "TAQO Accuracy: "@
            + self.metrics.taqo_accuracy_percent.fixed(2) + "% (higher is better)\n"@
            + "Performance Factor (PF): "@ + self.metrics.performance_factor.product(
            Float64 { bits: HUNDRED },
        ).fixed(2) + "%\n"@ + "Average Q-Error: "@ + self.metrics.avg_q_error.fixed(2)
            + " (closer to 1.0 is better)\n"@
    }

    /// The text of the report, with the given texts of the counts.
    #[verifier::opaque]
    pub open spec fn report_text<F: Fn(Float64) -> String>(
        self,
        node_counts: Seq<char>,
        pred_counts: Seq<char>,
        show: F,
    ) -> Seq<char> {
        self.head_text() + graph_text(graph_data(self.samples@)) + "\n\n"@ + quality_line(
            quality(self.metrics.avg_q_error),
        ) + "Node problems:\n "@ + node_counts + "\nPred problems:\n "@ + pred_counts
            + "\n\n--------------------------------------------------\n\n"@ + self.plans_text(
            show,
            self.samples@.len(),
        )
    }

    /// Whether the report has a text: some plan ran, and there are no more plans that ran, and
    /// nodes of each plan, than can be counted.
    pub open spec fn printable(self) -> bool {
        &&& 0 < graph_data(self.samples@).len() <= most_bars()
        &&& forall|i: int|
            0 <= i < self.samples@.len() ==> plan_nodes((#[trigger] self.samples@[i]).plan.tree)
                <= usize::MAX
    }

    /// Appends the outline of the plan `idx`, with the problems of its nodes.
    pub fn dump_plan<F: Fn(Float64) -> String>(&self, out: &mut String, idx: usize, show: &F)
        requires
            idx < self.samples@.len(),
            plan_nodes(self.samples@[idx as int].plan.tree) <= usize::MAX,
            shows(*show),
        ensures
            final(out)@ == old(out)@ + problem_outline(
                self.samples@[idx as int].plan.tree,
                0,
                self.entered(idx as int),
                0,
                *show,
            ),
    {
        let mut node_idx: usize = 0;
        dump_plan_help(
            out,
            &self.samples[idx].plan.tree,
            0,
            self.node_problems.get(&idx),
            &mut node_idx,
            show,
        );
    }

    /// The lines on how well the optimizer did.
    pub fn head(&self) -> (r: String)
        ensures
            r@ == self.head_text(),
    {
        let mut out: String = "------------------- ".to_owned();
        out.append(self.name.as_str());
        out.append(" -------------------\n\n");
        out.append("Sampled ");
        push_decimal(&mut out, self.samples.len() as u128);
        out.append(" plans.\n");
        out.append("TAQO Score (s): ");
        self.metrics.taqo_score_s.push_fixed(&mut out, 4);
        out.append(" (lower is better)\n");
        out.append("TAQO Accuracy: ");
        self.metrics.taqo_accuracy_percent.push_fixed(&mut out, 2);
        out.append("% (higher is better)\n");
        out.append("Performance Factor (PF): ");
        self.metrics.performance_factor.times(Float64 { bits: HUNDRED }).push_fixed(&mut out, 2);
        out.append("%\n");
        out.append("Average Q-Error: ");
        self.metrics.avg_q_error.push_fixed(&mut out, 2);
        out.append(" (closer to 1.0 is better)\n");
        out
    }

    /// The mean runtimes of the plans that ran.
    fn runtimes(&self) -> (r: Vec<usize>)
        ensures
            r@ == graph_data(self.samples@),
    {
        let ghost s = self.samples@;
        let mut data: Vec<usize> = Vec::new();
        let mut i: usize = 0;
        assert(s.take(0) =~= Seq::<MeasuredPlan>::empty());
        while i < self.samples.len()
            invariant
                i <= self.samples.len(),
                s == self.samples@,
                data@ == graph_data(s.take(i as int)),
            decreases self.samples.len() - i,
        {
            assert(s.take(i + 1).drop_last() =~= s.take(i as int));
            match &self.samples[i].runtime {
                Ok(stats) => {
                    data.push(
                        #[verifier::truncate]
                        (stats.mean.as_millis() as usize),
                    );
                },
                Err(_) => {},
            }
            i = i + 1;
        }
        assert(s.take(i as int) =~= s);
        data
    }

    /// The text of the report, with the given texts of the counts; `show` gives the texts of
    /// numbers.
    pub fn render<F: Fn(Float64) -> String>(
        &self,
        node_counts: &str,
        pred_counts: &str,
        show: &F,
    ) -> (r: String)
        requires
            self.printable(),
            shows(*show),
        ensures
            r@ == self.report_text(node_counts@, pred_counts@, *show),
    {
        let mut out: String = self.head();
        let data: Vec<usize> = self.runtimes();
        out.append(draw_graph(&data).as_str());
        out.append("\n\n");
        out.append(quality_text(CardQuality::from_q_err(self.metrics.avg_q_error)));
        out.append("Node problems:\n ");
        out.append(node_counts);
        out.append("\nPred problems:\n ");
        out.append(pred_counts);
        out.append("\n\n--------------------------------------------------\n\n");
        let ghost start = out@;
        let mut i: usize = 0;
        assert(start + self.plans_text(*show, 0) =~= start);
        while i < self.samples.len()
            invariant
                i <= self.samples.len(),
                self.printable(),
                shows(*show),
                out@ == start + self.plans_text(*show, i as nat),
            decreases self.samples.len() - i,
        {
            assert(plan_nodes(self.samples@[i as int].plan.tree) <= usize::MAX);
            out.append("Plan ");
            push_decimal(&mut out, i as u128);
            if i == self.chosen {
                out.append(" (CHOSEN)");
            }
            out.append("\n");
            out.append("------------------\n");
            self.dump_plan(&mut out, i, show);
            assert(out@ =~= start + self.plans_text(*show, (i + 1) as nat));
            i = i + 1;
        }
        reveal(QueryReport::report_text);
        assert(out@ =~= self.report_text(node_counts@, pred_counts@, *show));
        out
    }

    /// Whether `text` is a text of the report, in some order of the counts.
    pub open spec fn has_text<F: Fn(Float64) -> String>(self, text: Seq<char>, show: F) -> bool {
        exists|node_counts: Seq<char>, pred_counts: Seq<char>|
            {
                &&& self.node_problem_frequency.has_text(node_counts)
                &&& self.pred_problem_frequency.has_text(pred_counts)
                &&& text == #[trigger] self.report_text(node_counts, pred_counts, show)
            }
    }

    /// The text of the report; `show` gives the texts of numbers.
    pub fn to_text<F: Fn(Float64) -> String>(&self, show: &F) -> (r: String)
        requires
            self.printable(),
            shows(*show),
        ensures
            self.has_text(r@, *show),
    {
        let node_counts: String = self.node_problem_frequency.to_text();
        let pred_counts: String = self.pred_problem_frequency.to_text();
        self.render(node_counts.as_str(), pred_counts.as_str(), show)
    }
}

impl Report {
    /// The lines on all queries together.
    pub open spec fn head_text(self) -> Seq<char> {
        "=================== GLOBAL STATS ===================\n\n"@ + "Evaluated "@ + decimal(
            self.queries@.len(),
        ) + " queries.\n"@ + "Optimality Frequency (OF): "@ + self.opt_freq.product(
            Float64 { bits: HUNDRED },
        ).fixed(2) + " (higher is better)\n"@ + "Average TAQO Score (s): "@
            + self.avg_taqo_score.fixed(4) + " (lower is better)\n"@ + "Average TAQO Accuracy: "@
            + self.avg_taqo_acc.fixed(2) + "% (higher is better)\n"@
            + "Average Performance Factor (PF): "@ + self.avg_perf_factor.product(
            Float64 { bits: HUNDRED },
        ).fixed(2) + "%\n"@
            + "\n====================================================\n\n\n"@
    }

    /// The lines on all queries together.
    pub fn head(&self) -> (r: String)
        ensures
            r@ == self.head_text(),
    {
        let mut out: String = "=================== GLOBAL STATS ===================\n\n".to_owned();
        out.append("Evaluated ");
        push_decimal(&mut out, self.queries.len() as u128);
        out.append(" queries.\n");
        out.append("Optimality Frequency (OF): ");
        self.opt_freq.times(Float64 { bits: HUNDRED }).push_fixed(&mut out, 2);
        out.append(" (higher is better)\n");
        out.append("Average TAQO Score (s): ");
        self.avg_taqo_score.push_fixed(&mut out, 4);
        out.append(" (lower is better)\n");
        out.append("Average TAQO Accuracy: ");
        self.avg_taqo_acc.push_fixed(&mut out, 2);
        out.append("% (higher is better)\n");
        out.append("Average Performance Factor (PF): ");
        self.avg_perf_factor.times(Float64 { bits: HUNDRED }).push_fixed(&mut out, 2);
        out.append("%\n");
        out.append("\n====================================================\n\n\n");
        out
    }

    /// Whether `parts` are texts of the queries' reports.
    pub open spec fn query_texts<F: Fn(Float64) -> String>(
        self,
        parts: Seq<Seq<char>>,
        show: F,
    ) -> bool {
        &&& parts.len() == self.queries@.len()
        &&& forall|i: int|
            0 <= i < parts.len() ==> self.queries@[i].has_text(#[trigger] parts[i], show)
    }

    /// The text of the report; `show` gives the texts of numbers.
    pub fn to_text<F: Fn(Float64) -> String>(&self, show: &F) -> (r: String)
        requires
            forall|i: int| 0 <= i < self.queries@.len() ==> (#[trigger] self.queries@[i]).printable(),
            shows(*show),
        ensures
            exists|parts: Seq<Seq<char>>| #[trigger]
                self.query_texts(parts, *show) && r@ == self.head_text() + lines(parts),
    {
        let mut out: String = self.head();
        let ghost head = out@;
        let ghost mut parts = Seq::<Seq<char>>::empty();
        let mut i: usize = 0;
        assert(out@ =~= head + lines(parts));
        while i < self.queries.len()
            invariant
                i <= self.queries.len(),
                parts.len() == i,
                forall|k: int|
                    0 <= k < self.queries@.len() ==> (#[trigger] self.queries@[k]).printable(),
                shows(*show),
                forall|k: int|
                    0 <= k < i ==> self.queries@[k].has_text(#[trigger] parts[k], *show),
                out@ == head + lines(parts),
            decreases self.queries.len() - i,
        {
            assert(self.queries@[i as int].printable());
            let text: String = self.queries[i].to_text(show);
            out.append(text.as_str());
            out.append("\n");
            proof {
                let before = parts;
                parts = parts.push(text@);
                assert(parts.drop_last() =~= before);
                assert(out@ =~= head + lines(parts));
            }
            i = i + 1;
        }
        assert(self.query_texts(parts, *show));
        out
    }
}

/// Texts, each with a line break behind it.
pub open spec fn lines(parts: Seq<Seq<char>>) -> Seq<char>
    decreases parts.len(),
{
    if parts.len() == 0 {
        Seq::empty()
    } else {
        lines(parts.drop_last()) + parts.last() + "\n"@
    }
}

/// A chart has a bar for each plan that ran.
pub proof fn lemma_graph_data(samples: Seq<MeasuredPlan>)
    ensures
        graph_data(samples).len() == ran(samples).len(),
    decreases samples.len(),
{
    if samples.len() > 0 {
        lemma_graph_data(samples.drop_last());
    }
}

/// A chart has the whole milliseconds of the mean runtime of every plan that ran, in their order.
pub proof fn lemma_graph_bars(samples: Seq<MeasuredPlan>)
    ensures
        graph_data(samples) == samples.filter(|p: MeasuredPlan| p.runtime is Ok).map_values(
            |p: MeasuredPlan| (p.runtime->Ok_0.mean@ / 1_000_000) as u128 as usize,
        ),
    decreases samples.len(),
{
    reveal(Seq::filter);
    let f = |p: MeasuredPlan| p.runtime is Ok;
    let g = |p: MeasuredPlan| (p.runtime->Ok_0.mean@ / 1_000_000) as u128 as usize;
    let all = samples.filter(f);
    if samples.len() > 0 {
        lemma_graph_bars(samples.drop_last());
        let before = samples.drop_last().filter(f);
        if samples.last().runtime is Ok {
            assert(all == before.push(samples.last()));
            assert(all.map_values(g) =~= before.map_values(g).push(g(samples.last())));
        }
    } else {
        assert(all.map_values(g) =~= Seq::<usize>::empty());
    }
}

/// As many queries count as having an optimal choice as say so.
pub proof fn lemma_optimal_queries(queries: Seq<QueryReport>)
    ensures
        optimal_queries(queries) == those(|i: int| queries[i].optimal_chosen, queries.len()).len(),
    decreases queries.len(),
{
    let f = |i: int| queries[i].optimal_chosen;
    lemma_those(f, queries.len());
    if queries.len() > 0 {
        let rest = queries.drop_last();
        lemma_optimal_queries(rest);
        assert(those(|i: int| rest[i].optimal_chosen, rest.len()) =~= those(f, rest.len()));
    }
}

/// How many nodes of a kind are misestimated, and how many there are, in the first `n` plans, of
/// those that did not merely crash.
pub open spec fn kind_total(plans: Seq<MeasuredPlan>, n: nat, kind: Seq<char>) -> (nat, nat)
    decreases n,
{
    if n == 0 {
        (0, 0)
    } else {
        let before = kind_total(plans, (n - 1) as nat, kind);
        let last = kind_counts(plans[n - 1].plan.tree, 0, found_problems(plans, n - 1), kind);
        (before.0 + last.0, before.1 + last.1)
    }
}

/// The counts of a query are those of its plans together: every node that did not merely crash is
/// counted, and every misestimated one as such, where all problems matter.
pub proof fn lemma_query_counts(
    plans: Seq<MeasuredPlan>,
    root_only: bool,
    n: nat,
    kind: Seq<char>,
)
    ensures
        ({
            let counts = counts_of(tally_plans(plans, root_only, n).nodes, kind);
            let there = kind_total(plans, n, kind);
            &&& counts.1 == there.1
            &&& !root_only ==> counts.0 == there.0
            &&& counts.0 <= there.0
        }),
    decreases n,
{
    if n > 0 {
        lemma_query_counts(plans, root_only, (n - 1) as nat, kind);
        lemma_tally_counts_all(
            plans[n - 1].plan.tree,
            0,
            found_problems(plans, n - 1),
            root_only,
            tally_plans(plans, root_only, (n - 1) as nat),
            kind,
        );
    }
}

/// The means of a report are those of the scores, accuracies and performance factors of its
/// queries, each at its place.
pub proof fn lemma_means(queries: Seq<QueryReport>)
    ensures
        scores(queries) == queries.map_values(|q: QueryReport| q.metrics.taqo_score_s),
        accuracies(queries) == queries.map_values(
            |q: QueryReport| q.metrics.taqo_accuracy_percent,
        ),
        factors(queries) == queries.map_values(|q: QueryReport| q.metrics.performance_factor),
{
    assert(scores(queries) =~= queries.map_values(|q: QueryReport| q.metrics.taqo_score_s));
    assert(accuracies(queries) =~= queries.map_values(
        |q: QueryReport| q.metrics.taqo_accuracy_percent,
    ));
    assert(factors(queries) =~= queries.map_values(
        |q: QueryReport| q.metrics.performance_factor,
    ));
}

/// Numbers are added up one after the other, from the first on; none add up to negative zero.
pub proof fn lemma_float_sum(s: Seq<Float64>, x: Float64)
    ensures
        float_sum(s.push(x)) == float_sum(s).sum(x),
        float_sum(Seq::empty()) == (Float64 { bits: NEGATIVE_ZERO }),
        float_mean(s) == float_sum(s).quotient(of_nat(s.len())),
{
    assert(s.push(x).drop_last() =~= s);
}

/// The mean of one number is the number.
pub proof fn lemma_mean_of_one(x: Float64)
    requires
        x.finite(),
    ensures
        float_mean(seq![x]) == x,
{
    let s = seq![x];
    assert(s.drop_last() =~= Seq::<Float64>::empty());
    assert(float_sum(s.drop_last()) == (Float64 { bits: NEGATIVE_ZERO }));
    lemma_nothing_more(Float64 { bits: NEGATIVE_ZERO }, x);
    lemma_divided_by_one(x);
}

/// A report on a query gives for each node of each of its plans the cardinality problem and the
/// cost problem, as far as there are any, and counts each kind of node over all plans: where all
/// problems matter, every misestimated node counts as such.
pub proof fn lemma_report(
    r: QueryReport,
    bench: BenchmarkOutput,
    cfg: AnalysisConfig,
    i: usize,
    x: usize,
    kind: Seq<char>,
)
    requires
        reports(r, bench, cfg),
        i < bench.plans@.len(),
        plan_nodes(bench.plans@[i as int].plan.tree) <= usize::MAX,
        x < plan_nodes(bench.plans@[i as int].plan.tree),
    ensures
        problems_at(r.node_problems@[i], x as nat) == listed(
            card_problem(bench.plans@[i as int], x as int),
        ) + listed(cost_problem(bench.plans@, i as int, x as int)),
        counts_of(r.node_problem_frequency@, kind).1 == kind_total(
            bench.plans@,
            bench.plans@.len(),
            kind,
        ).1,
        !cfg.root_problems_only ==> counts_of(r.node_problem_frequency@, kind) == kind_total(
            bench.plans@,
            bench.plans@.len(),
            kind,
        ),
        r.optimal_chosen == is_optimal(bench),
        r.samples@ == bench.plans@,
        r.chosen == bench.chosen_idx,
        r.metrics == bench.metrics,
{
    lemma_found_at(bench.plans@, i as int, x);
    lemma_query_counts(bench.plans@, cfg.root_problems_only, bench.plans@.len(), kind);
}

/// The texts of the plans follow each other: for each its number, a mark on just the chosen one,
/// and its outline with the problems entered for it.
pub proof fn lemma_plans_text<F: Fn(Float64) -> String>(r: QueryReport, show: F, n: nat)
    ensures
        r.plans_text(show, n) == Seq::new(
            n,
            |i: int|
                "Plan "@ + decimal(i as nat) + (if i == r.chosen {
                    " (CHOSEN)"@
                } else {
                    Seq::empty()
                }) + "\n"@ + "------------------\n"@ + problem_outline(
                    r.samples@[i].plan.tree,
                    0,
                    r.entered(i),
                    0,
                    show,
                ),
        ).flatten(),
    decreases n,
{
    let part = |i: int|
        "Plan "@ + decimal(i as nat) + (if i == r.chosen {
            " (CHOSEN)"@
        } else {
            Seq::empty()
        }) + "\n"@ + "------------------\n"@ + problem_outline(
            r.samples@[i].plan.tree,
            0,
            r.entered(i),
            0,
            show,
        );
    let all = Seq::new(n, part);
    all.lemma_flatten_and_flatten_alt_are_equivalent();
    if n > 0 {
        let k = (n - 1) as nat;
        lemma_plans_text(r, show, k);
        let before = Seq::new(k, part);
        before.lemma_flatten_and_flatten_alt_are_equivalent();
        assert(all.drop_last() =~= before);
        assert(r.plans_text(show, n) =~= r.plans_text(show, k) + part(k as int));
    } else {
        assert(all.flatten_alt() =~= Seq::<char>::empty());
    }
}

/// Lines are the texts in their order, each with a line break behind it.
pub proof fn lemma_lines(parts: Seq<Seq<char>>)
    ensures
        lines(parts) == parts.map_values(|part: Seq<char>| part + "\n"@).flatten(),
    decreases parts.len(),
{
    let all = parts.map_values(|part: Seq<char>| part + "\n"@);
    all.lemma_flatten_and_flatten_alt_are_equivalent();
    if parts.len() > 0 {
        let rest = parts.drop_last();
        lemma_lines(rest);
        let before = rest.map_values(|part: Seq<char>| part + "\n"@);
        before.lemma_flatten_and_flatten_alt_are_equivalent();
        assert(all.drop_last() =~= before);
        assert(lines(parts) =~= lines(rest) + (parts.last() + "\n"@));
    } else {
        assert(all.flatten_alt() =~= Seq::<char>::empty());
    }
}

} // verus!
