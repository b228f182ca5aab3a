//! The nodes of a plan line by line.
use vstd::prelude::*;
use vstd::seq_lib::lemma_flatten_concat;
use crate::common::plan::{
    annotated_forest, annotated_outline, forest_nodes, forest_outline, plan_nodes, plan_outline,
    PlanNode,
};
use crate::text::repeated;

verus! {

/// The nodes of a plan in preorder, each with how deep it lies.
pub open spec fn placed(a: PlanNode, depth: nat) -> Seq<(PlanNode, nat)>
    decreases a,
{
    seq![(a, depth)] + placed_all(a.children@, depth + 1)
}

/// The nodes of several plans in preorder, each with how deep it lies.
pub open spec fn placed_all(s: Seq<PlanNode>, depth: nat) -> Seq<(PlanNode, nat)>
    decreases s,
{
    if s.len() == 0 {
        Seq::empty()
    } else {
        placed_all(s.drop_last(), depth) + placed(s.last(), depth)
    }
}

/// Each node has one place.
pub proof fn lemma_placed_len(a: PlanNode, depth: nat)
    ensures
        placed(a, depth).len() == plan_nodes(a),
    decreases a,
{
    lemma_placed_all_len(a.children@, depth + 1);
}

/// Each node of several plans has one place.
pub proof fn lemma_placed_all_len(s: Seq<PlanNode>, depth: nat)
    ensures
        placed_all(s, depth).len() == forest_nodes(s),
    decreases s,
{
    if s.len() > 0 {
        lemma_placed_all_len(s.drop_last(), depth);
        lemma_placed_len(s.last(), depth);
    }
}

/// A line for each node, in order: what `line` makes of the node, of how deep it lies and of its
/// index.
pub open spec fn lines(
    nodes: Seq<(PlanNode, nat)>,
    from: nat,
    line: spec_fn(PlanNode, nat, nat) -> Seq<char>,
) -> Seq<char> {
    Seq::new(nodes.len(), |k: int| line(nodes[k].0, nodes[k].1, (from + k) as nat)).flatten()
}

/// The lines of more nodes follow those of the first ones.
pub proof fn lemma_lines_joined(
    a: Seq<(PlanNode, nat)>,
    b: Seq<(PlanNode, nat)>,
    from: nat,
    line: spec_fn(PlanNode, nat, nat) -> Seq<char>,
)
    ensures
        lines(a + b, from, line) == lines(a, from, line) + lines(b, from + a.len(), line),
{
    let all = a + b;
    let x = Seq::new(a.len(), |k: int| line(a[k].0, a[k].1, (from + k) as nat));
    let y = Seq::new(b.len(), |k: int| line(b[k].0, b[k].1, (from + a.len() + k) as nat));
    lemma_flatten_concat(x, y);
    assert(Seq::new(all.len(), |k: int| line(all[k].0, all[k].1, (from + k) as nat)) =~= x + y);
}

/// The line of one node.
pub proof fn lemma_lines_single(
    a: PlanNode,
    depth: nat,
    from: nat,
    line: spec_fn(PlanNode, nat, nat) -> Seq<char>,
)
    ensures
        lines(seq![(a, depth)], from, line) == line(a, depth, from),
{
    let one = Seq::new(1, |k: int| line(a, depth, (from + k) as nat));
    let nodes = seq![(a, depth)];
    assert(Seq::new(1, |k: int| line(nodes[k].0, nodes[k].1, (from + k) as nat)) =~= one);
    one.lemma_flatten_one_element();
}

/// The outline of a plan has a line for each of its nodes, in preorder: the name, indented by two
/// blanks for each step that the node lies deeper.
pub proof fn lemma_outline_lines(a: PlanNode, indent: nat)
    ensures
        plan_outline(a, indent) == lines(
            placed(a, indent),
            0,
            |node: PlanNode, depth: nat, at: nat| repeated("  "@, depth) + node.name@ + "\n"@,
        ),
{
    lemma_outline_from(a, indent, 0);
}

proof fn lemma_outline_from(a: PlanNode, indent: nat, from: nat)
    ensures
        plan_outline(a, indent) == lines(
            placed(a, indent),
            from,
            |node: PlanNode, depth: nat, at: nat| repeated("  "@, depth) + node.name@ + "\n"@,
        ),
    decreases a,
{
    let line = |node: PlanNode, depth: nat, at: nat| repeated("  "@, depth) + node.name@ + "\n"@;
    lemma_forest_outline_from(a.children@, indent + 1, from + 1);
    lemma_lines_single(a, indent, from, line);
    lemma_lines_joined(seq![(a, indent)], placed_all(a.children@, indent + 1), from, line);
}

proof fn lemma_forest_outline_from(s: Seq<PlanNode>, indent: nat, from: nat)
    ensures
        forest_outline(s, indent) == lines(
            placed_all(s, indent),
            from,
            |node: PlanNode, depth: nat, at: nat| repeated("  "@, depth) + node.name@ + "\n"@,
        ),
    decreases s,
{
    let line = |node: PlanNode, depth: nat, at: nat| repeated("  "@, depth) + node.name@ + "\n"@;
    if s.len() > 0 {
        let before = placed_all(s.drop_last(), indent);
        lemma_forest_outline_from(s.drop_last(), indent, from);
        lemma_outline_from(s.last(), indent, from + before.len());
        lemma_lines_joined(before, placed(s.last(), indent), from, line);
    } else {
        assert(Seq::<Seq<char>>::empty().flatten() =~= Seq::<char>::empty());
        assert(lines(placed_all(s, indent), from, line) =~= Seq::<char>::empty());
    }
}

/// A node's line in an annotated outline: its name and the two annotations at its index.
pub open spec fn annotated_line(
    first: Seq<Seq<char>>,
    second: Seq<Seq<char>>,
) -> spec_fn(PlanNode, nat, nat) -> Seq<char> {
    |node: PlanNode, depth: nat, at: nat|
        repeated("  "@, depth) + node.name@ + " ("@ + first[at as int] + ", "@ + second[at as int]
            + ")\n"@
}

/// An annotated outline has a line for each node, in preorder. The node's annotations are those at
/// its preorder index, counted from `index` on.
pub proof fn lemma_annotated_lines(
    a: PlanNode,
    indent: nat,
    first: Seq<Seq<char>>,
    second: Seq<Seq<char>>,
    index: nat,
)
    ensures
        annotated_outline(a, indent, first, second, index) == lines(
            placed(a, indent),
            index,
            annotated_line(first, second),
        ),
    decreases a,
{
    let line = annotated_line(first, second);
    lemma_annotated_forest_lines(a.children@, indent + 1, first, second, index + 1);
    lemma_lines_single(a, indent, index, line);
    lemma_lines_joined(seq![(a, indent)], placed_all(a.children@, indent + 1), index, line);
}

proof fn lemma_annotated_forest_lines(
    s: Seq<PlanNode>,
    indent: nat,
    first: Seq<Seq<char>>,
    second: Seq<Seq<char>>,
    index: nat,
)
    ensures
        annotated_forest(s, indent, first, second, index) == lines(
            placed_all(s, indent),
            index,
            annotated_line(first, second),
        ),
    decreases s,
{
    let line = annotated_line(first, second);
    if s.len() > 0 {
        let before = placed_all(s.drop_last(), indent);
        lemma_placed_all_len(s.drop_last(), indent);
        lemma_annotated_forest_lines(s.drop_last(), indent, first, second, index);
        lemma_annotated_lines(s.last(), indent, first, second, index + before.len());
        lemma_lines_joined(before, placed(s.last(), indent), index, line);
    } else {
        assert(Seq::<Seq<char>>::empty().flatten() =~= Seq::<char>::empty());
        assert(lines(placed_all(s, indent), index, line) =~= Seq::<char>::empty());
    }
}

} // verus!
