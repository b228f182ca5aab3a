//! Every alternative plan is a plan of the memo table.
use vstd::prelude::*;
use crate::sampling::alternatives::{
    alts, alts_exprs, alts_inputs, lemma_visited_bounded, with_products, AltModel, SearchModel,
};
use crate::sampling::combine::{lemma_product_rows, product};
use crate::sampling::memo::{Memo, MemoExpr};

verus! {

/// Whether the plan from the node `id` down is a plan of `group`: the node is a physical expression
/// of the group, and its inputs are plans of the groups that the expression takes.
pub open spec fn derives(memo: Memo, nodes: Seq<AltModel>, id: usize, group: usize) -> bool
    decreases id,
{
    id < nodes.len() && exists|e: usize| #[trigger]
        memo.groups@[group as int]@.contains(e) && {
            let node = nodes[id as int];
            let expr = memo.exprs@[e as int];
            &&& expr.typ.physical()
            &&& node.typ == expr.typ
            &&& node.predicates == expr.predicates@
            &&& node.children.len() == expr.children@.len()
            &&& forall|k: int|
                0 <= k < node.children.len() ==> (#[trigger] node.children[k]) < id && derives(
                    memo,
                    nodes,
                    node.children[k],
                    expr.children@[k],
                )
        }
}

/// Whether the search `b` goes on from `a`: no node changes, and no expression is forgotten.
pub open spec fn grows(a: SearchModel, b: SearchModel) -> bool {
    &&& a.nodes.len() <= b.nodes.len()
    &&& forall|i: int| 0 <= i < a.nodes.len() ==> #[trigger] b.nodes[i] == a.nodes[i]
    &&& a.visited.subset_of(b.visited)
    &&& a.visited.len() <= b.visited.len()
}

/// Whether only expressions of the table have been looked at.
pub open spec fn looks_at(st: SearchModel, memo: Memo) -> bool {
    &&& st.visited.finite()
    &&& forall|e: usize| #[trigger] st.visited.contains(e) ==> e < memo.exprs@.len()
}

/// Whether looking `depth` groups deep is deep enough.
pub open spec fn deep_enough(st: SearchModel, memo: Memo, depth: nat) -> bool {
    &&& looks_at(st, memo)
    &&& depth + st.visited.len() > memo.exprs@.len()
    &&& memo.exprs@.len() <= usize::MAX
    &&& memo.consistent()
}

/// A plan of a group stays one as the search goes on.
proof fn lemma_derives_grows(
    memo: Memo,
    a: SearchModel,
    b: SearchModel,
    id: usize,
    group: usize,
)
    requires
        grows(a, b),
        derives(memo, a.nodes, id, group),
    ensures
        derives(memo, b.nodes, id, group),
    decreases id,
{
    let node = a.nodes[id as int];
    assert(b.nodes[id as int] == node);
    let e = choose|e: usize| #[trigger]
        memo.groups@[group as int]@.contains(e) && {
            let expr = memo.exprs@[e as int];
            &&& expr.typ.physical()
            &&& node.typ == expr.typ
            &&& node.predicates == expr.predicates@
            &&& node.children.len() == expr.children@.len()
            &&& forall|k: int|
                0 <= k < node.children.len() ==> (#[trigger] node.children[k]) < id && derives(
                    memo,
                    a.nodes,
                    node.children[k],
                    expr.children@[k],
                )
        };
    let expr = memo.exprs@[e as int];
    assert forall|k: int| 0 <= k < node.children.len() implies (#[trigger] node.children[k]) < id
        && derives(memo, b.nodes, node.children[k], expr.children@[k]) by {
        lemma_derives_grows(memo, a, b, node.children[k], expr.children@[k]);
    }
    assert(memo.groups@[group as int]@.contains(e));
}

proof fn lemma_with_products_grows(
    st: SearchModel,
    expr: MemoExpr,
    group: usize,
    inputs: Seq<Seq<usize>>,
    n: nat,
)
    ensures
        grows(st, with_products(st, expr, group, inputs, n).1),
        with_products(st, expr, group, inputs, n).1.visited == st.visited,
        with_products(st, expr, group, inputs, n).1.nodes.len() == st.nodes.len() + n,
        with_products(st, expr, group, inputs, n).0.len() == n,
    decreases n,
{
    if n > 0 {
        lemma_with_products_grows(st, expr, group, inputs, (n - 1) as nat);
    }
}

proof fn lemma_alts_grow(memo: Memo, group: usize, st: SearchModel, depth: nat)
    requires
        deep_enough(st, memo, depth),
        group < memo.groups@.len(),
    ensures
        depth > 0,
        grows(st, alts(memo, group, st, depth).1),
        looks_at(alts(memo, group, st, depth).1, memo),
    decreases depth, 1nat, 0nat,
{
    lemma_visited_bounded(st.visited, memo.exprs@.len());
    lemma_exprs_grow(memo, group, memo.groups@[group as int]@.len(), st, depth);
}

proof fn lemma_exprs_grow(memo: Memo, group: usize, n: nat, st: SearchModel, depth: nat)
    requires
        deep_enough(st, memo, depth),
        depth > 0,
        group < memo.groups@.len(),
        n <= memo.groups@[group as int]@.len(),
    ensures
        grows(st, alts_exprs(memo, group, memo.groups@[group as int]@, n, st, depth).st),
        looks_at(alts_exprs(memo, group, memo.groups@[group as int]@, n, st, depth).st, memo),
    decreases depth, 0nat, n,
{
    if n > 0 {
        let exprs = memo.groups@[group as int]@;
        lemma_exprs_grow(memo, group, (n - 1) as nat, st, depth);
        let before = alts_exprs(memo, group, exprs, (n - 1) as nat, st, depth);
        let id = exprs[n - 1];
        assert(memo.groups@[group as int]@[n - 1] < memo.exprs@.len());
        if !before.st.visited.contains(id) {
            let expr = memo.exprs@[id as int];
            let seen = SearchModel { visited: before.st.visited.insert(id), ..before.st };
            assert(grows(st, seen));
            assert(looks_at(seen, memo));
            if expr.typ.physical() {
                let below = (depth - 1) as nat;
                lemma_inputs_grow(memo, id, expr.children@.len(), seen, below);
                let inputs = alts_inputs(memo, expr.children@, expr.children@.len(), seen, below);
                if expr.children@.len() > 0 {
                    let combined = product(inputs.0);
                    lemma_with_products_grows(inputs.1, expr, group, combined, combined.len());
                }
            }
        }
    }
}

proof fn lemma_inputs_grow(memo: Memo, id: usize, n: nat, st: SearchModel, depth: nat)
    requires
        deep_enough(st, memo, depth),
        id < memo.exprs@.len(),
        n <= memo.exprs@[id as int].children@.len(),
    ensures
        grows(st, alts_inputs(memo, memo.exprs@[id as int].children@, n, st, depth).1),
        looks_at(alts_inputs(memo, memo.exprs@[id as int].children@, n, st, depth).1, memo),
        alts_inputs(memo, memo.exprs@[id as int].children@, n, st, depth).0.len() == n,
    decreases depth, 2nat, n,
{
    if n > 0 {
        let groups = memo.exprs@[id as int].children@;
        lemma_inputs_grow(memo, id, (n - 1) as nat, st, depth);
        let before = alts_inputs(memo, groups, (n - 1) as nat, st, depth);
        assert(memo.exprs@[id as int].children@[n - 1] < memo.groups@.len());
        lemma_alts_grow(memo, groups[n - 1], before.1, depth);
    }
}

/// Nodes made of rows of plans of the groups that an expression takes are plans of its group.
proof fn lemma_products_derive(
    memo: Memo,
    st: SearchModel,
    id: usize,
    group: usize,
    lists: Seq<Seq<usize>>,
    n: nat,
)
    requires
        id < memo.exprs@.len(),
        memo.groups@[group as int]@.contains(id),
        memo.exprs@[id as int].typ.physical(),
        lists.len() == memo.exprs@[id as int].children@.len(),
        forall|k: int, j: int|
            0 <= k < lists.len() && 0 <= j < lists[k].len() ==> derives(
                memo,
                st.nodes,
                #[trigger] lists[k][j],
                memo.exprs@[id as int].children@[k],
            ),
        n <= product(lists).len(),
        st.nodes.len() + n <= usize::MAX,
    ensures
        ({
            let made = with_products(st, memo.exprs@[id as int], group, product(lists), n);
            forall|i: int|
                0 <= i < made.0.len() ==> derives(memo, made.1.nodes, #[trigger] made.0[i], group)
        }),
    decreases n,
{
    if n > 0 {
        let expr = memo.exprs@[id as int];
        let all = product(lists);
        lemma_products_derive(memo, st, id, group, lists, (n - 1) as nat);
        lemma_with_products_grows(st, expr, group, all, (n - 1) as nat);
        lemma_with_products_grows(st, expr, group, all, n);
        let before = with_products(st, expr, group, all, (n - 1) as nat);
        let made = with_products(st, expr, group, all, n);
        let new = before.1.nodes.len() as usize;
        let row = all[n - 1];
        lemma_product_rows(lists);
        assert(grows(before.1, made.1));
        assert(made.1.nodes[new as int].children == row);
        assert forall|k: int| 0 <= k < row.len() implies (#[trigger] row[k]) < new && derives(
            memo,
            made.1.nodes,
            row[k],
            expr.children@[k],
        ) by {
            assert(lists[k].contains(product(lists)[n - 1][k]));
            let j = choose|j: int| 0 <= j < lists[k].len() && lists[k][j] == row[k];
            assert(derives(memo, st.nodes, lists[k][j], expr.children@[k]));
            lemma_derives_grows(memo, st, made.1, row[k], expr.children@[k]);
        }
        assert(memo.groups@[group as int]@.contains(id));
        assert(derives(memo, made.1.nodes, new, group));
        assert forall|i: int| 0 <= i < made.0.len() implies derives(
            memo,
            made.1.nodes,
            #[trigger] made.0[i],
            group,
        ) by {
            if i < before.0.len() {
                assert(made.0[i] == before.0[i]);
                lemma_derives_grows(memo, before.1, made.1, before.0[i], group);
            }
        }
    }
}

/// Every alternative plan of a group is a plan of that group in the memo table.
pub proof fn lemma_alts_derive(memo: Memo, group: usize, st: SearchModel, depth: nat)
    requires
        deep_enough(st, memo, depth),
        group < memo.groups@.len(),
        alts(memo, group, st, depth).1.nodes.len() <= usize::MAX,
    ensures
        forall|i: int|
            0 <= i < alts(memo, group, st, depth).0.len() ==> derives(
                memo,
                alts(memo, group, st, depth).1.nodes,
                #[trigger] alts(memo, group, st, depth).0[i],
                group,
            ),
    decreases depth, 1nat, 0nat,
{
    lemma_visited_bounded(st.visited, memo.exprs@.len());
    let exprs = memo.groups@[group as int]@;
    let found = alts_exprs(memo, group, exprs, exprs.len(), st, depth);
    let r = alts(memo, group, st, depth);
    lemma_exprs_derive(memo, group, exprs.len(), st, depth);
    assert forall|i: int| 0 <= i < r.0.len() implies derives(
        memo,
        r.1.nodes,
        #[trigger] r.0[i],
        group,
    ) by {
        assert(r.0[i] == found.ids[i]);
    }
}

proof fn lemma_exprs_derive(memo: Memo, group: usize, n: nat, st: SearchModel, depth: nat)
    requires
        deep_enough(st, memo, depth),
        depth > 0,
        group < memo.groups@.len(),
        n <= memo.groups@[group as int]@.len(),
        alts_exprs(memo, group, memo.groups@[group as int]@, n, st, depth).st.nodes.len()
            <= usize::MAX,
    ensures
        ({
            let found = alts_exprs(memo, group, memo.groups@[group as int]@, n, st, depth);
            forall|i: int|
                0 <= i < found.ids.len() ==> derives(
                    memo,
                    found.st.nodes,
                    #[trigger] found.ids[i],
                    group,
                )
        }),
    decreases depth, 0nat, n,
{
    if n > 0 {
        let exprs = memo.groups@[group as int]@;
        let before = alts_exprs(memo, group, exprs, (n - 1) as nat, st, depth);
        let found = alts_exprs(memo, group, exprs, n, st, depth);
        let id = exprs[n - 1];
        let expr = memo.exprs@[id as int];
        let below = (depth - 1) as nat;
        let seen = SearchModel { visited: before.st.visited.insert(id), ..before.st };
        lemma_exprs_grow(memo, group, (n - 1) as nat, st, depth);
        assert(memo.groups@[group as int]@[n - 1] < memo.exprs@.len());
        assert(exprs.contains(id));
        if before.st.visited.contains(id) || !expr.typ.physical() {
            lemma_exprs_derive(memo, group, (n - 1) as nat, st, depth);
        } else {
            assert(grows(st, seen) && looks_at(seen, memo));
            lemma_inputs_grow(memo, id, expr.children@.len(), seen, below);
            let inputs = alts_inputs(memo, expr.children@, expr.children@.len(), seen, below);
            let combined = product(inputs.0);
            lemma_with_products_grows(inputs.1, expr, group, combined, combined.len());
            assert(grows(before.st, found.st));
            lemma_exprs_derive(memo, group, (n - 1) as nat, st, depth);
            lemma_inputs_derive(memo, id, expr.children@.len(), seen, below);
            if expr.children@.len() > 0 {
                lemma_products_derive(memo, inputs.1, id, group, inputs.0, combined.len());
            }
            assert forall|i: int| 0 <= i < found.ids.len() implies derives(
                memo,
                found.st.nodes,
                #[trigger] found.ids[i],
                group,
            ) by {
                if i < before.ids.len() {
                    assert(found.ids[i] == before.ids[i]);
                    lemma_derives_grows(memo, before.st, found.st, before.ids[i], group);
                } else if expr.children@.len() == 0 {
                    assert(memo.groups@[group as int]@.contains(id));
                } else {
                    let made = with_products(inputs.1, expr, group, combined, combined.len());
                    assert(found.ids[i] == made.0[i - before.ids.len()]);
                }
            }
        }
    }
}

proof fn lemma_inputs_derive(memo: Memo, id: usize, n: nat, st: SearchModel, depth: nat)
    requires
        deep_enough(st, memo, depth),
        id < memo.exprs@.len(),
        n <= memo.exprs@[id as int].children@.len(),
        alts_inputs(memo, memo.exprs@[id as int].children@, n, st, depth).1.nodes.len()
            <= usize::MAX,
    ensures
        ({
            let groups = memo.exprs@[id as int].children@;
            let found = alts_inputs(memo, groups, n, st, depth);
            forall|k: int, j: int|
                0 <= k < n && 0 <= j < found.0[k].len() ==> derives(
                    memo,
                    found.1.nodes,
                    #[trigger] found.0[k][j],
                    groups[k],
                )
        }),
    decreases depth, 2nat, n,
{
    if n > 0 {
        let groups = memo.exprs@[id as int].children@;
        let before = alts_inputs(memo, groups, (n - 1) as nat, st, depth);
        let found = alts_inputs(memo, groups, n, st, depth);
        lemma_inputs_grow(memo, id, (n - 1) as nat, st, depth);
        assert(memo.exprs@[id as int].children@[n - 1] < memo.groups@.len());
        lemma_alts_grow(memo, groups[n - 1], before.1, depth);
        lemma_inputs_derive(memo, id, (n - 1) as nat, st, depth);
        lemma_alts_derive(memo, groups[n - 1], before.1, depth);
        assert forall|k: int, j: int|
            0 <= k < n && 0 <= j < found.0[k].len() implies derives(
            memo,
            found.1.nodes,
            #[trigger] found.0[k][j],
            groups[k],
        ) by {
            if k < n - 1 {
                assert(found.0[k] == before.0[k]);
                assert(derives(memo, before.1.nodes, before.0[k][j], groups[k]));
                lemma_derives_grows(memo, before.1, found.1, found.0[k][j], groups[k]);
            } else {
                let last = alts(memo, groups[n - 1], before.1, depth);
                assert(found.0[k] == last.0);
            }
        }
    }
}

} // verus!
