//! Plans that the memo table holds for a group.
use std::collections::HashMap;
use vstd::prelude::*;
use vstd::set_lib::lemma_len_subset;
use crate::sampling::combine::{
    cartesian_product, lemma_product_rows, product, rows,
};
use crate::sampling::derivation::{derives, lemma_alts_derive};
use crate::sampling::matcher::NodeType;
use crate::sampling::memo::{Memo, MemoExpr};

verus! {

/// A node of an alternative plan. Inputs are given by their place among all nodes, so that plans
/// share them.
pub struct AltNode {
    /// Type of the node.
    pub typ: NodeType,
    /// Inputs of the node.
    pub children: Vec<usize>,
    /// Predicates of the node, by number.
    pub predicates: Vec<u64>,
}

/// What a node of an alternative plan holds.
#[verifier::ext_equal]
pub struct AltModel {
    /// Type of the node.
    pub typ: NodeType,
    /// Inputs of the node.
    pub children: Seq<usize>,
    /// Predicates of the node.
    pub predicates: Seq<u64>,
}

impl View for AltNode {
    type V = AltModel;

    open spec fn view(&self) -> AltModel {
        AltModel {
            typ: self.typ,
            children: self.children@,
            predicates: self.predicates@,
        }
    }
}

/// Expressions that have been looked at.
#[verifier::external_body]
pub struct ExprSet {
    set: datafusion_common::HashSet<usize>,
}

/// The expressions in a set.
pub uninterp spec fn exprs_in(s: ExprSet) -> Set<usize>;

/// `new` of `datafusion_common::HashSet`: the set is empty.
#[verifier::external_body]
fn no_exprs() -> (r: ExprSet)
    ensures
        exprs_in(r) == Set::<usize>::empty(),
{
    ExprSet { set: datafusion_common::HashSet::new() }
}

/// `contains` of `datafusion_common::HashSet`: whether the item is in the set.
#[verifier::external_body]
fn has_expr(s: &ExprSet, expr: &usize) -> (r: bool)
    ensures
        r == exprs_in(*s).contains(*expr),
{
    s.set.contains(expr)
}

/// `insert` of `datafusion_common::HashSet`: the item is in the set, and nothing else changes.
#[verifier::external_body]
fn add_expr(s: &mut ExprSet, expr: usize)
    ensures
        exprs_in(*final(s)) == exprs_in(*old(s)).insert(expr),
{
    s.set.insert(expr);
}

/// A search for alternative plans.
pub struct AltSearch {
    /// All nodes of alternative plans, inputs first.
    pub nodes: Vec<AltNode>,
    /// Expressions that have been looked at.
    pub visited: ExprSet,
    /// The group that each node counts as coming from.
    pub meta: HashMap<usize, usize>,
    /// Physical expressions of each group.
    pub counts: HashMap<usize, usize>,
    /// Physical expressions of all groups.
    pub counted: usize,
}

/// What a search for alternative plans holds.
#[verifier::ext_equal]
pub struct SearchModel {
    /// All nodes of alternative plans, inputs first.
    pub nodes: Seq<AltModel>,
    /// Expressions that have been looked at.
    pub visited: Set<usize>,
    /// The group that each node counts as coming from.
    pub meta: Map<usize, usize>,
    /// Physical expressions of each group.
    pub counts: Map<usize, nat>,
}

/// What nodes hold.
pub open spec fn node_models(s: Seq<AltNode>) -> Seq<AltModel> {
    Seq::new(s.len(), |i: int| s[i]@)
}

impl View for AltSearch {
    type V = SearchModel;

    open spec fn view(&self) -> SearchModel {
        SearchModel {
            nodes: node_models(self.nodes@),
            visited: exprs_in(self.visited),
            meta: self.meta@,
            counts: self.counts@.map_values(|n: usize| n as nat),
        }
    }
}

/// Whether the inputs of nodes come before them.
pub open spec fn inputs_first(nodes: Seq<AltModel>) -> bool {
    forall|i: int, k: int|
        0 <= i < nodes.len() && 0 <= k < nodes[i].children.len()
            ==> #[trigger] nodes[i].children[k] < i
}

/// The groups of nodes, where the node `id` and all nodes below it count as coming from `group`.
pub open spec fn marked(
    nodes: Seq<AltModel>,
    id: usize,
    group: usize,
    meta: Map<usize, usize>,
) -> Map<usize, usize>
    decreases id, nodes[id as int].children.len() + 1,
{
    marked_all(nodes, nodes[id as int].children, id, group, meta.insert(id, group))
}

/// The groups of nodes, where several nodes and all nodes below them count as coming from `group`.
pub open spec fn marked_all(
    nodes: Seq<AltModel>,
    ids: Seq<usize>,
    limit: usize,
    group: usize,
    meta: Map<usize, usize>,
) -> Map<usize, usize>
    decreases limit, ids.len(),
{
    if ids.len() == 0 {
        meta
    } else {
        let before = marked_all(nodes, ids.drop_last(), limit, group, meta);
        if ids.last() < limit {
            marked(nodes, ids.last(), group, before)
        } else {
            before
        }
    }
}

/// Makes the node `node` and all nodes below it count as coming from the group `gid`.
pub fn insert_with_children(
    nodes: &Vec<AltNode>,
    node: usize,
    gid: usize,
    fake_meta: &mut HashMap<usize, usize>,
)
    requires
        node < nodes@.len(),
        inputs_first(node_models(nodes@)),
    ensures
        final(fake_meta)@ == marked(node_models(nodes@), node, gid, old(fake_meta)@),
    decreases node,
{
    let ghost all = node_models(nodes@);
    let ghost ids = all[node as int].children;
    let ghost start = fake_meta@.insert(node, gid);
    fake_meta.insert(node, gid);
    let mut i: usize = 0;
    assert(ids.take(0) =~= Seq::<usize>::empty());
    while i < nodes[node].children.len()
        invariant
            i <= ids.len(),
            node < nodes@.len(),
            all == node_models(nodes@),
            ids == all[node as int].children,
            ids == nodes@[node as int].children@,
            inputs_first(all),
            fake_meta@ == marked_all(all, ids.take(i as int), node, gid, start),
        decreases ids.len() - i,
    {
        assert(ids.take(i + 1).drop_last() =~= ids.take(i as int));
        assert(ids.take(i + 1).last() == ids[i as int]);
        assert(all[node as int].children[i as int] < node);
        insert_with_children(nodes, nodes[node].children[i], gid, fake_meta);
        i = i + 1;
    }
    assert(ids.take(i as int) =~= ids);
}

/// Whether the node `x` is `id` or lies below it.
pub open spec fn lies_in(nodes: Seq<AltModel>, id: usize, x: usize) -> bool
    decreases id, nodes[id as int].children.len() + 1,
{
    x == id || lies_in_any(nodes, nodes[id as int].children, id, x)
}

/// Whether the node `x` is one of several or lies below one.
pub open spec fn lies_in_any(
    nodes: Seq<AltModel>,
    ids: Seq<usize>,
    limit: usize,
    x: usize,
) -> bool
    decreases limit, ids.len(),
{
    ids.len() > 0 && (lies_in_any(nodes, ids.drop_last(), limit, x) || (ids.last() < limit
        && lies_in(nodes, ids.last(), x)))
}

/// A node and all nodes below it get the group, and no other node does.
pub proof fn lemma_marked(
    nodes: Seq<AltModel>,
    id: usize,
    group: usize,
    meta: Map<usize, usize>,
    x: usize,
)
    ensures
        lies_in(nodes, id, x) ==> marked(nodes, id, group, meta).contains_key(x) && marked(
            nodes,
            id,
            group,
            meta,
        )[x] == group,
        !lies_in(nodes, id, x) ==> {
            &&& marked(nodes, id, group, meta).contains_key(x) == meta.contains_key(x)
            &&& meta.contains_key(x) ==> marked(nodes, id, group, meta)[x] == meta[x]
        },
    decreases id, nodes[id as int].children.len() + 1,
{
    lemma_marked_all(
        nodes,
        nodes[id as int].children,
        id,
        group,
        meta.insert(id, group),
        x,
    );
}

proof fn lemma_marked_all(
    nodes: Seq<AltModel>,
    ids: Seq<usize>,
    limit: usize,
    group: usize,
    meta: Map<usize, usize>,
    x: usize,
)
    ensures
        lies_in_any(nodes, ids, limit, x) ==> {
            &&& marked_all(nodes, ids, limit, group, meta).contains_key(x)
            &&& marked_all(nodes, ids, limit, group, meta)[x] == group
        },
        !lies_in_any(nodes, ids, limit, x) ==> {
            &&& marked_all(nodes, ids, limit, group, meta).contains_key(x) == meta.contains_key(x)
            &&& meta.contains_key(x) ==> marked_all(nodes, ids, limit, group, meta)[x] == meta[x]
        },
    decreases limit, ids.len(),
{
    if ids.len() > 0 {
        lemma_marked_all(nodes, ids.drop_last(), limit, group, meta, x);
        if ids.last() < limit {
            let before = marked_all(nodes, ids.drop_last(), limit, group, meta);
            lemma_marked(nodes, ids.last(), group, before, x);
        }
    }
}

/// The search with one more node.
pub open spec fn with_node(st: SearchModel, node: AltModel) -> SearchModel {
    SearchModel { nodes: st.nodes.push(node), ..st }
}

/// The search with a node for each of the first `n` rows of inputs, and the new nodes. Each of them
/// and all nodes below it count as coming from `group` from then on.
pub open spec fn with_products(
    st: SearchModel,
    expr: MemoExpr,
    group: usize,
    inputs: Seq<Seq<usize>>,
    n: nat,
) -> (Seq<usize>, SearchModel)
    decreases n,
{
    if n == 0 {
        (Seq::empty(), st)
    } else {
        let before = with_products(st, expr, group, inputs, (n - 1) as nat);
        let id = before.1.nodes.len() as usize;
        let grown = with_node(
            before.1,
            AltModel { typ: expr.typ, children: inputs[n - 1], predicates: expr.predicates@ },
        );
        (
            before.0.push(id),
            SearchModel { meta: marked(grown.nodes, id, group, grown.meta), ..grown },
        )
    }
}

/// What looking at expressions of a group gave.
pub struct Found {
    /// The roots of alternative plans.
    pub ids: Seq<usize>,
    /// The search.
    pub st: SearchModel,
    /// How many of the expressions are physical.
    pub physical: nat,
}

/// The search with `n` more physical expressions of a group.
pub open spec fn with_count(st: SearchModel, group: usize, n: nat) -> SearchModel {
    let before = if st.counts.contains_key(group) {
        st.counts[group]
    } else {
        0
    };
    SearchModel { counts: st.counts.insert(group, before + n), ..st }
}

/// The roots of the alternative plans of a group, and the search after them. Plans are made of the
/// physical expressions of the group that have not been looked at before, in their order; what
/// their inputs can be is found in the same way. Looking goes at most `depth` groups deep.
pub open spec fn alts(memo: Memo, group: usize, st: SearchModel, depth: nat) -> (
    Seq<usize>,
    SearchModel,
)
    decreases depth, 1nat, 0nat,
{
    if depth == 0 {
        arbitrary()
    } else {
        let exprs = memo.groups@[group as int]@;
        let found = alts_exprs(memo, group, exprs, exprs.len(), st, depth);
        (found.ids, with_count(found.st, group, found.physical))
    }
}

/// The alternative plans that the first `n` expressions of a group give.
pub open spec fn alts_exprs(
    memo: Memo,
    group: usize,
    exprs: Seq<usize>,
    n: nat,
    st: SearchModel,
    depth: nat,
) -> Found
    decreases depth, 0nat, n,
{
    if n == 0 || depth == 0 {
        Found { ids: Seq::empty(), st, physical: 0 }
    } else {
        let before = alts_exprs(memo, group, exprs, (n - 1) as nat, st, depth);
        let id = exprs[n - 1];
        let expr = memo.exprs@[id as int];
        let seen = SearchModel { visited: before.st.visited.insert(id), ..before.st };
        if before.st.visited.contains(id) {
            before
        } else if !expr.typ.physical() {
            Found { ids: before.ids, st: seen, physical: before.physical }
        } else {
            let inputs = alts_inputs(
                memo,
                expr.children@,
                expr.children@.len(),
                seen,
                (depth - 1) as nat,
            );
            if expr.children@.len() == 0 {
                Found {
                    ids: before.ids.push(inputs.1.nodes.len() as usize),
                    st: with_node(
                        inputs.1,
                        AltModel {
                            typ: expr.typ,
                            children: Seq::empty(),
                            predicates: expr.predicates@,
                        },
                    ),
                    physical: before.physical + 1,
                }
            } else {
                let combined = product(inputs.0);
                let made = with_products(inputs.1, expr, group, combined, combined.len());
                Found { ids: before.ids + made.0, st: made.1, physical: before.physical + 1 }
            }
        }
    }
}

/// The alternative plans of each of the first `n` groups.
pub open spec fn alts_inputs(
    memo: Memo,
    groups: Seq<usize>,
    n: nat,
    st: SearchModel,
    depth: nat,
) -> (Seq<Seq<usize>>, SearchModel)
    decreases depth, 2nat, n,
{
    if n == 0 {
        (Seq::empty(), st)
    } else {
        let before = alts_inputs(memo, groups, (n - 1) as nat, st, depth);
        let last = alts(memo, groups[n - 1], before.1, depth);
        (before.0.push(last.0), last.1)
    }
}

impl AltSearch {
    /// Whether the search is one of `memo`: inputs come before the nodes that take them, only
    /// expressions of the table have been looked at, and no more are counted.
    pub open spec fn searches(self, memo: Memo) -> bool {
        &&& inputs_first(self@.nodes)
        &&& self@.visited.finite()
        &&& forall|e: usize| #[trigger] self@.visited.contains(e) ==> e < memo.exprs@.len()
        &&& self.counted <= self@.visited.len()
        &&& forall|g: usize| #[trigger]
            self.counts@.contains_key(g) ==> self.counts@[g] <= self.counted
    }

    /// Whether this search goes on from `before`.
    pub open spec fn extends(self, before: AltSearch) -> bool {
        &&& before@.visited.subset_of(self@.visited)
        &&& before@.nodes.len() <= self@.nodes.len()
        &&& before@.visited.len() <= self@.visited.len()
        &&& self.counted + before@.visited.len() <= before.counted + self@.visited.len()
    }

    /// A search that has not begun.
    pub fn new() -> (r: AltSearch)
        ensures
            r@.nodes == Seq::<AltModel>::empty(),
            r@.visited == Set::<usize>::empty(),
            r@.meta == Map::<usize, usize>::empty(),
            r@.counts == Map::<usize, nat>::empty(),
            forall|memo: Memo| #[trigger] r.searches(memo),
    {
        let r: AltSearch = AltSearch {
            nodes: Vec::new(),
            visited: no_exprs(),
            meta: HashMap::new(),
            counts: HashMap::new(),
            counted: 0,
        };
        assert(r@.nodes =~= Seq::<AltModel>::empty());
        assert(r@.counts =~= Map::<usize, nat>::empty());
        r
    }
}

proof fn lemma_range(n: nat)
    requires
        n <= usize::MAX,
    ensures
        Set::new(|e: usize| e < n).finite(),
        Set::new(|e: usize| e < n).len() == n,
    decreases n,
{
    let s = Set::new(|e: usize| e < n);
    if n == 0 {
        assert(s =~= Set::<usize>::empty());
    } else {
        lemma_range((n - 1) as nat);
        let t = Set::new(|e: usize| e < n - 1);
        assert(s =~= t.insert((n - 1) as usize));
    }
}

/// No more expressions can have been looked at than there are.
pub proof fn lemma_visited_bounded(s: Set<usize>, n: nat)
    requires
        n <= usize::MAX,
        forall|e: usize| #[trigger] s.contains(e) ==> e < n,
    ensures
        s.finite(),
        s.len() <= n,
{
    lemma_range(n);
    lemma_len_subset(s, Set::new(|e: usize| e < n));
}

/// A copy of a list.
fn copy_list(list: &Vec<u64>) -> (r: Vec<u64>)
    ensures
        r@ == list@,
{
    let mut r: Vec<u64> = Vec::new();
    let mut i: usize = 0;
    while i < list.len()
        invariant
            i <= list.len(),
            r@ =~= list@.take(i as int),
        decreases list.len() - i,
    {
        r.push(list[i]);
        i = i + 1;
    }
    assert(list@.take(i as int) =~= list@);
    r
}

/// Adds a node.
fn push_node(st: &mut AltSearch, typ: NodeType, children: Vec<usize>, predicates: Vec<u64>)
    ensures
        final(st)@ == with_node(
            old(st)@,
            AltModel { typ, children: children@, predicates: predicates@ },
        ),
        final(st).counted == old(st).counted,
        final(st).counts == old(st).counts,
        final(st).nodes@.len() == old(st).nodes@.len() + 1,
{
    let ghost before = st@;
    st.nodes.push(AltNode { typ, children, predicates });
    assert(st@.nodes =~= before.nodes.push(
        AltModel { typ, children: children@, predicates: predicates@ },
    ));
}

/// Adds a node for each row of inputs, and lists the new nodes behind `out`.
fn push_products(
    st: &mut AltSearch,
    expr: &MemoExpr,
    gid: usize,
    inputs: Vec<Vec<usize>>,
    out: &mut Vec<usize>,
    memo: &Memo,
)
    requires
        old(st).searches(*memo),
        forall|i: int, k: int|
            0 <= i < inputs@.len() && 0 <= k < inputs@[i]@.len() ==> #[trigger] inputs@[i]@[k]
                < old(st).nodes@.len(),
        forall|i: int| 0 <= i < old(out)@.len() ==> (#[trigger] old(out)@[i]) < old(st).nodes@.len(),
    ensures
        ({
            let made = with_products(
                old(st)@,
                *expr,
                gid,
                rows(inputs@),
                inputs@.len(),
            );
            &&& final(out)@ == old(out)@ + made.0
            &&& final(st)@ == made.1
        }),
        final(st).searches(*memo),
        final(st).extends(*old(st)),
        forall|i: int|
            0 <= i < final(out)@.len() ==> (#[trigger] final(out)@[i]) < final(st).nodes@.len(),
{
    let ghost start = *st;
    let ghost first = out@;
    let ghost all = rows(inputs@);
    let mut rest: Vec<Vec<usize>> = inputs;
    let ghost mut n: nat = 0;
    assert(rest@ =~= inputs@.skip(0));
    assert(out@ =~= first + with_products(start@, *expr, gid, all, 0).0);
    while rest.len() > 0
        invariant
            n <= inputs@.len(),
            rest@ == inputs@.skip(n as int),
            all == rows(inputs@),
            forall|i: int, k: int|
                0 <= i < inputs@.len() && 0 <= k < inputs@[i]@.len() ==> #[trigger] inputs@[i]@[k]
                    < start.nodes@.len(),
            start.nodes@.len() <= st.nodes@.len(),
            st.searches(*memo),
            st.extends(start),
            out@ == first + with_products(start@, *expr, gid, all, n).0,
            st@ == with_products(start@, *expr, gid, all, n).1,
            forall|i: int| 0 <= i < out@.len() ==> (#[trigger] out@[i]) < st.nodes@.len(),
        decreases rest.len(),
    {
        let ghost before = *st;
        let children: Vec<usize> = rest.remove(0);
        assert(children == inputs@[n as int]);
        assert(rest@ =~= inputs@.skip(n as int + 1));
        let id: usize = st.nodes.len();
        push_node(st, expr.typ, children, copy_list(&expr.predicates));
        proof {
            assert(st@.nodes.len() == st.nodes@.len());
            assert forall|i: int, k: int|
                0 <= i < st@.nodes.len() && 0 <= k < st@.nodes[i].children.len() implies
            #[trigger] st@.nodes[i].children[k] < i by {
                if i == id {
                    assert(st@.nodes[i].children[k] == inputs@[n as int]@[k]);
                } else {
                    assert(before@.nodes[i].children[k] < i);
                }
            }
        }
        insert_with_children(&st.nodes, id, gid, &mut st.meta);
        out.push(id);
        proof {
            n = n + 1;
        }
        assert(out@ =~= first + with_products(start@, *expr, gid, all, n).0);
    }
}

/// The alternative plans of a group, as the search goes on.
pub fn get_alts_help(memo: &Memo, gid: usize, st: &mut AltSearch, depth: usize) -> (r: Vec<usize>)
    requires
        memo.consistent(),
        gid < memo.groups@.len(),
        old(st).searches(*memo),
        depth + old(st)@.visited.len() > memo.exprs@.len(),
    ensures
        (r@, final(st)@) == alts(*memo, gid, old(st)@, depth as nat),
        final(st).searches(*memo),
        final(st).extends(*old(st)),
        forall|i: int| 0 <= i < r@.len() ==> (#[trigger] r@[i]) < final(st).nodes@.len(),
    decreases depth,
{
    let ghost start = *st;
    let ghost d = depth as nat;
    proof {
        lemma_visited_bounded(st@.visited, memo.exprs.len() as nat);
    }
    let mut out: Vec<usize> = Vec::new();
    let mut physical: usize = 0;
    let exprs: &Vec<usize> = &memo.groups[gid];
    let ghost ids = exprs@;
    let mut i: usize = 0;
    while i < exprs.len()
        invariant
            i <= exprs.len(),
            ids == exprs@,
            gid < memo.groups@.len(),
            ids == memo.groups@[gid as int]@,
            memo.consistent(),
            d == depth,
            depth > 0,
            depth + start@.visited.len() > memo.exprs@.len(),
            st.searches(*memo),
            st.extends(start),
            st.counted + physical + start@.visited.len() <= start.counted + st@.visited.len(),
            start.counted <= start@.visited.len(),
            ({
                let found = alts_exprs(*memo, gid, ids, i as nat, start@, d);
                &&& out@ == found.ids
                &&& st@ == found.st
                &&& physical == found.physical
            }),
            forall|k: int| 0 <= k < out@.len() ==> (#[trigger] out@[k]) < st.nodes@.len(),
        decreases exprs.len() - i,
    {
        let id: usize = exprs[i];
        assert(memo.groups@[gid as int]@[i as int] < memo.exprs@.len());
        let ghost before = *st;
        let ghost found = alts_exprs(*memo, gid, ids, i as nat, start@, d);
        if !has_expr(&st.visited, &id) {
            add_expr(&mut st.visited, id);
            let ghost seen = *st;
            proof {
                assert(seen@ =~= (SearchModel { visited: before@.visited.insert(id), ..before@ }));
                lemma_visited_bounded(seen@.visited, memo.exprs.len() as nat);
            }
            let expr: &MemoExpr = &memo.exprs[id];
            if expr.typ.is_physical() {
                physical = physical + 1;
                let mut children: Vec<Vec<usize>> = Vec::new();
                let mut k: usize = 0;
                assert(rows(children@) =~= alts_inputs(
                    *memo,
                    expr.children@,
                    0,
                    seen@,
                    (d - 1) as nat,
                ).0);
                while k < expr.children.len()
                    invariant
                        k <= expr.children.len(),
                        id < memo.exprs@.len(),
                        *expr == memo.exprs@[id as int],
                        memo.consistent(),
                        d == depth,
                        depth > 0,
                        depth - 1 + seen@.visited.len() > memo.exprs@.len(),
                        st.searches(*memo),
                        st.extends(seen),
                        children@.len() == k,
                        ({
                            let inputs = alts_inputs(
                                *memo,
                                expr.children@,
                                k as nat,
                                seen@,
                                (d - 1) as nat,
                            );
                            &&& rows(children@) == inputs.0
                            &&& st@ == inputs.1
                        }),
                        forall|a: int, b: int|
                            0 <= a < children@.len() && 0 <= b < children@[a]@.len()
                                ==> #[trigger] children@[a]@[b] < st.nodes@.len(),
                    decreases expr.children.len() - k,
                {
                    let ghost now = *st;
                    let ghost had = children@;
                    assert(memo.exprs@[id as int].children@[k as int] < memo.groups@.len());
                    let child_alts: Vec<usize> = get_alts_help(
                        memo,
                        expr.children[k],
                        st,
                        depth - 1,
                    );
                    children.push(child_alts);
                    proof {
                        assert(rows(children@) =~= rows(had).push(child_alts@));
                        assert forall|a: int, b: int|
                            0 <= a < children@.len() && 0 <= b < children@[a]@.len() implies
                        #[trigger] children@[a]@[b] < st.nodes@.len() by {
                            if a < had.len() {
                                assert(children@[a] == had[a]);
                                assert(had[a]@[b] < now.nodes@.len());
                            }
                        }
                    }
                    k = k + 1;
                }
                let ghost searched = *st;
                if children.len() == 0 {
                    let node: usize = st.nodes.len();
                    push_node(st, expr.typ, Vec::new(), copy_list(&expr.predicates));
                    proof {
                        assert(st@.nodes.len() == st.nodes@.len());
                        assert forall|a: int, b: int|
                            0 <= a < st@.nodes.len() && 0 <= b < st@.nodes[a].children.len()
                                implies #[trigger] st@.nodes[a].children[b] < a by {
                            assert(searched@.nodes[a].children[b] < a);
                        }
                    }
                    out.push(node);
                } else {
                    let combined: Vec<Vec<usize>> = cartesian_product(&children);
                    proof {
                        lemma_product_rows(rows(children@));
                        assert forall|a: int, b: int|
                            0 <= a < combined@.len() && 0 <= b < combined@[a]@.len() implies
                        #[trigger] combined@[a]@[b] < st.nodes@.len() by {
                            let lists = rows(children@);
                            assert(rows(combined@)[a] == combined@[a]@);
                            assert(lists[b].contains(product(lists)[a][b]));
                            let c = choose|c: int|
                                0 <= c < lists[b].len() && lists[b][c] == product(lists)[a][b];
                            assert(children@[b]@[c] < st.nodes@.len());
                        }
                    }
                    push_products(st, expr, gid, combined, &mut out, memo);
                }
            }
        }
        i = i + 1;
    }
    let known: usize = match st.counts.get(&gid) {
        Some(n) => *n,
        None => 0,
    };
    let ghost before = *st;
    proof {
        lemma_visited_bounded(st@.visited, memo.exprs.len() as nat);
    }
    st.counted = st.counted + physical;
    st.counts.insert(gid, known + physical);
    assert(st@ =~= with_count(before@, gid, physical as nat));
    out
}

/// The roots of all alternative plans of a group, and the nodes that they are made of.
pub fn get_alts(memo: &Memo, gid: usize) -> (r: (Vec<usize>, AltSearch))
    requires
        memo.consistent(),
        gid < memo.groups@.len(),
        memo.exprs@.len() < usize::MAX,
    ensures
        (r.0@, r.1@) == alts(
            *memo,
            gid,
            SearchModel {
                nodes: Seq::empty(),
                visited: Set::empty(),
                meta: Map::empty(),
                counts: Map::empty(),
            },
            memo.exprs@.len() + 1,
        ),
        r.1.searches(*memo),
        forall|i: int|
            0 <= i < r.0@.len() ==> derives(*memo, r.1@.nodes, #[trigger] r.0@[i], gid),
{
    let mut st: AltSearch = AltSearch::new();
    let ghost start = st@;
    assert(start =~= (SearchModel {
        nodes: Seq::empty(),
        visited: Set::empty(),
        meta: Map::empty(),
        counts: Map::empty(),
    }));
    let roots: Vec<usize> = get_alts_help(memo, gid, &mut st, memo.exprs.len() + 1);
    proof {
        assert(st.nodes.len() == st@.nodes.len());
        lemma_alts_derive(*memo, gid, start, memo.exprs@.len() + 1);
        let found = alts(*memo, gid, start, memo.exprs@.len() + 1);
        assert forall|i: int| 0 <= i < roots@.len() implies derives(
            *memo,
            st@.nodes,
            #[trigger] roots@[i],
            gid,
        ) by {
            assert(roots@[i] == found.0[i]);
        }
    }
    (roots, st)
}

} // verus!
