//! No plan of the memo table is left out.
use vstd::prelude::*;
use crate::sampling::alternatives::{
    alts, alts_exprs, alts_inputs, inputs_first, lemma_marked, lies_in, lies_in_any, with_products,
    AltModel, Found, SearchModel,
};
use crate::sampling::combine::{extended, lemma_product_rows, product};
use crate::sampling::matcher::{lemma_physical_types, NodeType};
use crate::sampling::memo::{Memo, MemoExpr};

verus! {

/// Whether `row` holds one item of each list.
pub open spec fn picks_one_each(row: Seq<usize>, lists: Seq<Seq<usize>>) -> bool {
    &&& row.len() == lists.len()
    &&& forall|k: int| 0 <= k < lists.len() ==> lists[k].contains(#[trigger] row[k])
}

proof fn lemma_extended_complete(rows: Seq<Seq<usize>>, items: Seq<usize>, a: int, b: int)
    requires
        0 <= a < rows.len(),
        0 <= b < items.len(),
    ensures
        extended(rows, items).contains(rows[a].push(items[b])),
    decreases rows.len(),
{
    let all = extended(rows, items);
    let before = extended(rows.drop_last(), items);
    if a == rows.len() - 1 {
        assert(all[before.len() + b] == rows[a].push(items[b]));
    } else {
        lemma_extended_complete(rows.drop_last(), items, a, b);
        let row = rows[a].push(items[b]);
        assert(before.contains(row));
        let i = choose|i: int| 0 <= i < before.len() && before[i] == row;
        assert(all[i] == row);
    }
}

/// The product of lists holds exactly the rows with one item of each list.
pub proof fn lemma_product_complete(lists: Seq<Seq<usize>>, row: Seq<usize>)
    ensures
        product(lists).contains(row) <==> picks_one_each(row, lists),
    decreases lists.len(),
{
    lemma_product_rows(lists);
    if product(lists).contains(row) {
        let i = choose|i: int| 0 <= i < product(lists).len() && product(lists)[i] == row;
        assert(product(lists)[i].len() == lists.len());
        assert forall|k: int| 0 <= k < lists.len() implies lists[k].contains(#[trigger] row[k]) by {
            assert(lists[k].contains(product(lists)[i][k]));
        }
    }
    if picks_one_each(row, lists) {
        if lists.len() == 0 {
            assert(row =~= Seq::<usize>::empty());
            assert(product(lists)[0] == row);
        } else {
            let first = row.drop_last();
            let rest = lists.drop_last();
            assert forall|k: int| 0 <= k < rest.len() implies rest[k].contains(
                #[trigger] first[k],
            ) by {
                assert(lists[k].contains(row[k]));
            }
            lemma_product_complete(rest, first);
            let a = choose|a: int| 0 <= a < product(rest).len() && product(rest)[a] == first;
            assert(lists[lists.len() - 1].contains(row[lists.len() - 1]));
            let b = choose|b: int|
                0 <= b < lists.last().len() && lists.last()[b] == row[lists.len() - 1];
            lemma_extended_complete(product(rest), lists.last(), a, b);
            assert(first.push(lists.last()[b]) =~= row);
        }
    }
}

/// There is a node for each row, with the expression's type and predicates and the row as its
/// inputs.
pub proof fn lemma_products_made(
    st: SearchModel,
    expr: MemoExpr,
    group: usize,
    inputs: Seq<Seq<usize>>,
    n: nat,
)
    requires
        n <= inputs.len(),
        st.nodes.len() + n <= usize::MAX,
    ensures
        ({
            let made = with_products(st, expr, group, inputs, n);
            &&& made.0.len() == n
            &&& made.1.nodes.len() == st.nodes.len() + n
            &&& made.1.nodes.take(st.nodes.len() as int) == st.nodes
            &&& made.1.visited == st.visited
            &&& forall|i: int|
                0 <= i < n ==> {
                    let node = made.1.nodes[#[trigger] made.0[i] as int];
                    &&& made.0[i] == st.nodes.len() + i
                    &&& node.typ == expr.typ
                    &&& node.predicates == expr.predicates@
                    &&& node.children == inputs[i]
                }
        }),
    decreases n,
{
    if n > 0 {
        let k = (n - 1) as nat;
        lemma_products_made(st, expr, group, inputs, k);
        let before = with_products(st, expr, group, inputs, k);
        let made = with_products(st, expr, group, inputs, n);
        assert(made.1.nodes.take(st.nodes.len() as int) =~= before.1.nodes.take(
            st.nodes.len() as int,
        ));
        assert forall|i: int| 0 <= i < n implies {
            let node = made.1.nodes[#[trigger] made.0[i] as int];
            &&& made.0[i] == st.nodes.len() + i
            &&& node.typ == expr.typ
            &&& node.predicates == expr.predicates@
            &&& node.children == inputs[i]
        } by {
            if i < k {
                assert(made.0[i] == before.0[i]);
                assert(made.1.nodes[before.0[i] as int] == before.1.nodes[before.0[i] as int]);
            }
        }
    } else {
        assert(st.nodes.take(st.nodes.len() as int) =~= st.nodes);
    }
}

/// Whether a type is one of those that plans are made of.
pub open spec fn makes_plans(t: NodeType) -> bool {
    ||| t == NodeType::PhysicalAgg
    ||| t == NodeType::PhysicalEmptyRelation
    ||| t == NodeType::PhysicalProjection
    ||| t == NodeType::PhysicalScan
    ||| t == NodeType::PhysicalFilter
    ||| t == NodeType::PhysicalSort
    ||| t is PhysicalNestedLoopJoin
    ||| t is PhysicalHashJoin
    ||| t == NodeType::PhysicalLimit
}

/// The search when the expression `id` is looked at.
pub open spec fn looked_at(st: SearchModel, id: usize) -> SearchModel {
    SearchModel { visited: st.visited.insert(id), ..st }
}

/// An expression that makes plans and has not been looked at before gives a root for every way to
/// pick one alternative for each of its inputs: a node of its type, with its predicates and with
/// the picked alternatives. It counts as one physical expression of the group, and no root that was
/// found before is lost.
pub proof fn lemma_expression_gives_roots(
    memo: Memo,
    group: usize,
    st: SearchModel,
    depth: nat,
    k: nat,
    row: Seq<usize>,
)
    requires
        depth > 0,
        group < memo.groups@.len(),
        k < memo.groups@[group as int]@.len(),
        ({
            let exprs = memo.groups@[group as int]@;
            let before = alts_exprs(memo, group, exprs, k, st, depth);
            let expr = memo.exprs@[exprs[k as int] as int];
            let inputs = alts_inputs(
                memo,
                expr.children@,
                expr.children@.len(),
                looked_at(before.st, exprs[k as int]),
                (depth - 1) as nat,
            );
            &&& !before.st.visited.contains(exprs[k as int])
            &&& makes_plans(expr.typ)
            &&& picks_one_each(row, inputs.0)
            &&& inputs.0.len() == expr.children@.len()
            &&& alts_exprs(memo, group, exprs, k + 1, st, depth).st.nodes.len() <= usize::MAX
        }),
    ensures
        ({
            let exprs = memo.groups@[group as int]@;
            let expr = memo.exprs@[exprs[k as int] as int];
            let before = alts_exprs(memo, group, exprs, k, st, depth);
            let after = alts_exprs(memo, group, exprs, k + 1, st, depth);
            &&& after.physical == before.physical + 1
            &&& before.ids.len() <= after.ids.len()
            &&& after.ids.take(before.ids.len() as int) == before.ids
            &&& exists|i: int| #[trigger] gives_root(after, before.ids.len() as int, i, expr, row)
        }),
{
    let exprs = memo.groups@[group as int]@;
    let id = exprs[k as int];
    let expr = memo.exprs@[id as int];
    let before = alts_exprs(memo, group, exprs, k, st, depth);
    let after = alts_exprs(memo, group, exprs, k + 1, st, depth);
    let seen = looked_at(before.st, id);
    let inputs = alts_inputs(
        memo,
        expr.children@,
        expr.children@.len(),
        seen,
        (depth - 1) as nat,
    );
    lemma_physical_types(expr.typ);
    assert(expr.typ.physical()) by {
        match expr.typ {
            NodeType::PhysicalNestedLoopJoin(kind) => {
                assert(expr.typ == NodeType::PhysicalNestedLoopJoin(kind));
            },
            NodeType::PhysicalHashJoin(kind) => {
                assert(expr.typ == NodeType::PhysicalHashJoin(kind));
            },
            _ => {},
        }
    }
    assert(seen == (SearchModel { visited: before.st.visited.insert(id), ..before.st }));
    assert((k + 1) - 1 == k);
    let n = before.ids.len() as int;
    if expr.children@.len() == 0 {
        assert(row =~= Seq::<usize>::empty());
        assert(after.ids == before.ids.push(inputs.1.nodes.len() as usize));
        assert(after.ids.take(n) =~= before.ids);
        assert(gives_root(after, n, n, expr, row));
    } else {
        let combined = product(inputs.0);
        let made = with_products(inputs.1, expr, group, combined, combined.len());
        lemma_made_len(inputs.1, expr, group, combined, combined.len());
        lemma_products_made(inputs.1, expr, group, combined, combined.len());
        lemma_product_complete(inputs.0, row);
        let j = choose|j: int| 0 <= j < combined.len() && combined[j] == row;
        assert(after.ids == before.ids + made.0);
        assert(after.ids.take(n) =~= before.ids);
        assert(after.ids[n + j] == made.0[j]);
        assert(gives_root(after, n, n + j, expr, row));
    }
}

proof fn lemma_made_len(
    st: SearchModel,
    expr: MemoExpr,
    group: usize,
    inputs: Seq<Seq<usize>>,
    n: nat,
)
    ensures
        with_products(st, expr, group, inputs, n).1.nodes.len() == st.nodes.len() + n,
    decreases n,
{
    if n > 0 {
        lemma_made_len(st, expr, group, inputs, (n - 1) as nat);
    }
}

/// Whether the root at `i`, from `from` on, is a node of the expression with the given inputs.
pub open spec fn gives_root(
    found: Found,
    from: int,
    i: int,
    expr: MemoExpr,
    inputs: Seq<usize>,
) -> bool {
    &&& from <= i < found.ids.len()
    &&& found.ids[i] < found.st.nodes.len()
    &&& found.st.nodes[found.ids[i] as int].typ == expr.typ
    &&& found.st.nodes[found.ids[i] as int].predicates == expr.predicates@
    &&& found.st.nodes[found.ids[i] as int].children == inputs
}

/// An expression of a type that makes no plans, or that has been looked at before, gives no root
/// and counts as no physical expression.
pub proof fn lemma_expression_gives_nothing(
    memo: Memo,
    group: usize,
    st: SearchModel,
    depth: nat,
    k: nat,
)
    requires
        depth > 0,
        group < memo.groups@.len(),
        k < memo.groups@[group as int]@.len(),
        ({
            let exprs = memo.groups@[group as int]@;
            let before = alts_exprs(memo, group, exprs, k, st, depth);
            before.st.visited.contains(exprs[k as int]) || memo.exprs@[exprs[k as int] as int].typ
                is Other
        }),
    ensures
        ({
            let exprs = memo.groups@[group as int]@;
            let before = alts_exprs(memo, group, exprs, k, st, depth);
            let after = alts_exprs(memo, group, exprs, k + 1, st, depth);
            &&& after.ids == before.ids
            &&& after.physical == before.physical
            &&& after.st.nodes == before.st.nodes
            &&& after.st.visited == before.st.visited.insert(exprs[k as int])
        }),
{
    let exprs = memo.groups@[group as int]@;
    let before = alts_exprs(memo, group, exprs, k, st, depth);
    lemma_physical_types(memo.exprs@[exprs[k as int] as int].typ);
    assert((k + 1) - 1 == k);
    if before.st.visited.contains(exprs[k as int]) {
        assert(before.st.visited.insert(exprs[k as int]) =~= before.st.visited);
    }
}

/// The roots of a group are those that all of its expressions give, and its physical expressions
/// are added to those counted for it before.
pub proof fn lemma_group_roots(memo: Memo, group: usize, st: SearchModel, depth: nat)
    requires
        depth > 0,
    ensures
        ({
            let exprs = memo.groups@[group as int]@;
            let found = alts_exprs(memo, group, exprs, exprs.len(), st, depth);
            let after = alts(memo, group, st, depth);
            &&& after.0 == found.ids
            &&& after.1.nodes == found.st.nodes
            &&& after.1.visited == found.st.visited
            &&& after.1.meta == found.st.meta
            &&& after.1.counts.contains_key(group)
            &&& after.1.counts[group] == found.physical + if found.st.counts.contains_key(group) {
                found.st.counts[group]
            } else {
                0
            }
            &&& forall|other: usize|
                other != group ==> {
                    &&& #[trigger] after.1.counts.contains_key(other)
                        == found.st.counts.contains_key(other)
                    &&& found.st.counts.contains_key(other) ==> after.1.counts[other]
                        == found.st.counts[other]
                }
        }),
{
}

/// What lies below a node depends only on the nodes up to it.
proof fn lemma_lies_in_same(a: Seq<AltModel>, b: Seq<AltModel>, id: usize, x: usize)
    requires
        id < a.len(),
        id < b.len(),
        forall|i: int| 0 <= i <= id ==> #[trigger] a[i] == b[i],
    ensures
        lies_in(a, id, x) == lies_in(b, id, x),
    decreases id, a[id as int].children.len() + 1,
{
    assert(a[id as int] == b[id as int]);
    lemma_lies_in_any_same(a, b, a[id as int].children, id, x);
}

proof fn lemma_lies_in_any_same(
    a: Seq<AltModel>,
    b: Seq<AltModel>,
    ids: Seq<usize>,
    limit: usize,
    x: usize,
)
    requires
        limit < a.len(),
        limit < b.len(),
        forall|i: int| 0 <= i <= limit ==> #[trigger] a[i] == b[i],
    ensures
        lies_in_any(a, ids, limit, x) == lies_in_any(b, ids, limit, x),
    decreases limit, ids.len(),
{
    if ids.len() > 0 {
        lemma_lies_in_any_same(a, b, ids.drop_last(), limit, x);
        if ids.last() < limit {
            lemma_lies_in_same(a, b, ids.last(), x);
        }
    }
}

/// Each of the new roots and every node below one counts as coming from the group; all other nodes
/// count as they did.
pub proof fn lemma_products_marked(
    st: SearchModel,
    expr: MemoExpr,
    group: usize,
    inputs: Seq<Seq<usize>>,
    n: nat,
    x: usize,
)
    requires
        n <= inputs.len(),
        st.nodes.len() + n <= usize::MAX,
    ensures
        ({
            let made = with_products(st, expr, group, inputs, n);
            let below = exists|i: int|
                0 <= i < n && #[trigger] lies_in(made.1.nodes, made.0[i], x);
            &&& below ==> made.1.meta.contains_key(x) && made.1.meta[x] == group
            &&& !below ==> made.1.meta.contains_key(x) == st.meta.contains_key(x)
            &&& !below && st.meta.contains_key(x) ==> made.1.meta[x] == st.meta[x]
        }),
    decreases n,
{
    if n > 0 {
        let k = (n - 1) as nat;
        let before = with_products(st, expr, group, inputs, k);
        let made = with_products(st, expr, group, inputs, n);
        lemma_products_marked(st, expr, group, inputs, k, x);
        lemma_products_made(st, expr, group, inputs, k);
        lemma_products_made(st, expr, group, inputs, n);
        lemma_made_len(st, expr, group, inputs, k);
        let id = made.0[k as int];
        lemma_marked(made.1.nodes, id, group, before.1.meta, x);
        assert forall|i: int| 0 <= i < k implies lies_in(before.1.nodes, before.0[i], x)
            == #[trigger] lies_in(made.1.nodes, made.0[i], x) by {
            assert(made.0[i] == before.0[i]);
            lemma_lies_in_same(before.1.nodes, made.1.nodes, before.0[i], x);
        }
        let was_below = exists|i: int|
            0 <= i < k && #[trigger] lies_in(before.1.nodes, before.0[i], x);
        let below = exists|i: int| 0 <= i < n && #[trigger] lies_in(made.1.nodes, made.0[i], x);
        if was_below {
            let i = choose|i: int| 0 <= i < k && #[trigger] lies_in(
                before.1.nodes,
                before.0[i],
                x,
            );
            assert(lies_in(made.1.nodes, made.0[i], x));
        }
        if below {
            let i = choose|i: int| 0 <= i < n && #[trigger] lies_in(made.1.nodes, made.0[i], x);
            if i < k {
                assert(lies_in(before.1.nodes, before.0[i], x));
            } else {
                assert(i == k);
            }
        } else {
            assert(!lies_in(made.1.nodes, made.0[k as int], x));
            if was_below {
                assert(false);
            }
        }
    }
}

/// Whatever a node takes as input lies below it, and what lies below an input lies below the node.
pub proof fn lemma_inputs_lie_below(nodes: Seq<AltModel>, id: usize, k: int, x: usize)
    requires
        id < nodes.len(),
        inputs_first(nodes),
        0 <= k < nodes[id as int].children.len(),
        lies_in(nodes, nodes[id as int].children[k], x),
    ensures
        lies_in(nodes, id, x),
        lies_in(nodes, id, id),
        lies_in(nodes, id, nodes[id as int].children[k]),
{
    let ids = nodes[id as int].children;
    assert(nodes[id as int].children[k] < id);
    lemma_lies_in_one(nodes, ids, id, k, x);
    lemma_lies_in_one(nodes, ids, id, k, ids[k]);
}

proof fn lemma_lies_in_one(nodes: Seq<AltModel>, ids: Seq<usize>, limit: usize, k: int, x: usize)
    requires
        0 <= k < ids.len(),
        ids[k] < limit,
        lies_in(nodes, ids[k], x),
    ensures
        lies_in_any(nodes, ids, limit, x),
    decreases ids.len(),
{
    if k < ids.len() - 1 {
        lemma_lies_in_one(nodes, ids.drop_last(), limit, k, x);
    }
}

} // verus!
