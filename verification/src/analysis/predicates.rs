//! The kinds of expressions in the predicates of a node.
use vstd::prelude::*;
use vstd::string::*;
use crate::common::plan::{ExprNode, NodeDetail, PlanNode};
use crate::text::texts;

verus! {

/// The text up to the first space.
pub open spec fn first_word(text: Seq<char>) -> Seq<char>
    decreases text.len(),
{
    if text.len() == 0 || text[0] == ' ' {
        Seq::empty()
    } else {
        seq![text[0]] + first_word(text.skip(1))
    }
}

proof fn lemma_first_word(text: Seq<char>, n: nat)
    requires
        n <= text.len(),
        forall|i: int| 0 <= i < n ==> #[trigger] text[i] != ' ',
        n < text.len() ==> text[n as int] == ' ',
    ensures
        first_word(text) == text.take(n as int),
    decreases n,
{
    if n == 0 {
        assert(text.take(0) =~= Seq::<char>::empty());
    } else {
        let rest = text.skip(1);
        assert forall|i: int| 0 <= i < n - 1 implies #[trigger] rest[i] != ' ' by {
            assert(rest[i] == text[i + 1]);
        }
        lemma_first_word(rest, (n - 1) as nat);
        assert(first_word(text) =~= text.take(n as int));
    }
}

/// The text up to the first space.
pub fn head_word(text: &str) -> (r: String)
    ensures
        r@ == first_word(text@),
{
    let len: usize = text.unicode_len();
    let mut n: usize = 0;
    while n < len && text.get_char(n) != ' '
        invariant
            n <= len,
            len == text@.len(),
            forall|i: int| 0 <= i < n ==> #[trigger] text@[i] != ' ',
        ensures
            n <= len,
            forall|i: int| 0 <= i < n ==> #[trigger] text@[i] != ' ',
            n < len ==> text@[n as int] == ' ',
        decreases len - n,
    {
        n = n + 1;
    }
    proof {
        lemma_first_word(text@, n as nat);
        assert(text@.subrange(0, n as int) =~= text@.take(n as int));
    }
    text.substring_char(0, n).to_owned()
}

/// Whether a binary expression names its operator.
pub open spec fn names_operator(e: ExprNode) -> bool {
    first_word(e.debug@) == "BinaryExpr"@ ==> e.operator is Some
}

/// Whether all binary expressions in `e` name their operators.
pub open spec fn operators_named(e: ExprNode) -> bool
    decreases e,
{
    names_operator(e) && all_operators_named(e.children@)
}

/// Whether all binary expressions in several expressions name their operators.
pub open spec fn all_operators_named(s: Seq<ExprNode>) -> bool
    decreases s,
{
    s.len() == 0 || (all_operators_named(s.drop_last()) && operators_named(s.last()))
}

/// The kind of an expression: the operator of a binary expression, and otherwise the name of the
/// expression's type.
pub open spec fn true_name(e: ExprNode) -> Seq<char> {
    let name = first_word(e.debug@);
    if name == "BinaryExpr"@ {
        e.operator->0@
    } else {
        name
    }
}

/// The kind of an expression.
pub fn get_pred_true_name(node: &ExprNode) -> (r: String)
    requires
        names_operator(*node),
    ensures
        r@ == true_name(*node),
{
    let name: String = head_word(node.debug.as_str());
    if name == "BinaryExpr".to_owned() {
        match &node.operator {
            Some(operator) => operator.clone(),
            None => name,
        }
    } else {
        name
    }
}

/// The kinds of an expression and all its operands, in preorder.
pub open spec fn expr_names(e: ExprNode) -> Seq<Seq<char>>
    decreases e,
{
    seq![true_name(e)] + exprs_names(e.children@)
}

/// The kinds of several expressions and all their operands.
pub open spec fn exprs_names(s: Seq<ExprNode>) -> Seq<Seq<char>>
    decreases s,
{
    if s.len() == 0 {
        Seq::empty()
    } else {
        exprs_names(s.drop_last()) + expr_names(s.last())
    }
}

proof fn lemma_operators_named(s: Seq<ExprNode>, i: int)
    requires
        0 <= i < s.len(),
        all_operators_named(s),
    ensures
        operators_named(s[i]),
    decreases s.len(),
{
    if i < s.len() - 1 {
        lemma_operators_named(s.drop_last(), i);
        assert(s.drop_last()[i] == s[i]);
    }
}

/// Appends the kinds of an expression and all its operands.
pub fn get_pred_nodes_expr(node: &ExprNode, out: &mut Vec<String>)
    requires
        operators_named(*node),
    ensures
        texts(final(out)@) == texts(old(out)@) + expr_names(*node),
    decreases *node,
{
    let ghost start = texts(out@);
    out.push(get_pred_true_name(node));
    let ghost s = node.children@;
    let mut i: usize = 0;
    assert(s.take(0) =~= Seq::<ExprNode>::empty());
    assert(texts(out@) =~= start + (seq![true_name(*node)] + exprs_names(s.take(0))));
    while i < node.children.len()
        invariant
            i <= node.children.len(),
            s == node.children@,
            all_operators_named(s),
            texts(out@) == start + (seq![true_name(*node)] + exprs_names(s.take(i as int))),
        decreases node.children.len() - i,
    {
        proof {
            lemma_operators_named(s, i as int);
            assert(decreases_to!(*node => node.children@[i as int]));
            assert(s.take(i + 1).drop_last() =~= s.take(i as int));
        }
        get_pred_nodes_expr(&node.children[i], out);
        assert(texts(out@) =~= start + (seq![true_name(*node)] + exprs_names(s.take(i + 1))));
        i = i + 1;
    }
    assert(s.take(i as int) =~= s);
}

/// The kinds of expressions in pairs of expressions.
pub open spec fn pairs_names(s: Seq<(ExprNode, ExprNode)>) -> Seq<Seq<char>>
    decreases s.len(),
{
    if s.len() == 0 {
        Seq::empty()
    } else {
        pairs_names(s.drop_last()) + expr_names(s.last().0) + expr_names(s.last().1)
    }
}

/// The kinds of expressions in a condition, if there is one.
pub open spec fn option_names(e: Option<ExprNode>) -> Seq<Seq<char>> {
    match e {
        Some(e) => expr_names(e),
        None => Seq::empty(),
    }
}

/// Whether a node has the predicates that its name promises.
pub open spec fn has_predicates(node: PlanNode) -> bool {
    if node.name@ == "FilterExec"@ {
        node.detail matches NodeDetail::Filter { predicate } && operators_named(predicate)
    } else if node.name@ == "HashJoinExec"@ {
        &&& node.detail matches NodeDetail::HashJoin { on, filter }
        &&& forall|i: int|
            0 <= i < on@.len() ==> operators_named((#[trigger] on@[i]).0) && operators_named(
                on@[i].1,
            )
        &&& filter matches Some(e) ==> operators_named(e)
    } else if node.name@ == "NestedLoopJoinExec"@ {
        &&& node.detail matches NodeDetail::NestedLoopJoin { filter }
        &&& filter matches Some(e) ==> operators_named(e)
    } else {
        true
    }
}

/// The kinds of expressions in the predicates of a node, each as often as it occurs.
pub open spec fn pred_names(node: PlanNode) -> Seq<Seq<char>> {
    if node.name@ == "FilterExec"@ {
        expr_names(node.detail->predicate)
    } else if node.name@ == "HashJoinExec"@ {
        pairs_names(node.detail->on@) + option_names(node.detail->HashJoin_filter)
    } else if node.name@ == "NestedLoopJoinExec"@ {
        option_names(node.detail->NestedLoopJoin_filter)
    } else {
        Seq::empty()
    }
}

/// The different items of `s`, each where it occurs first.
pub open spec fn distinct(s: Seq<Seq<char>>) -> Seq<Seq<char>>
    decreases s.len(),
{
    if s.len() == 0 {
        Seq::empty()
    } else {
        let before = distinct(s.drop_last());
        if before.contains(s.last()) {
            before
        } else {
            before.push(s.last())
        }
    }
}

/// Nothing occurs twice, and everything occurs.
pub proof fn lemma_distinct(s: Seq<Seq<char>>)
    ensures
        distinct(s).no_duplicates(),
        distinct(s).len() <= s.len(),
        forall|x: Seq<char>| distinct(s).contains(x) == s.contains(x),
    decreases s.len(),
{
    if s.len() > 0 {
        let before = distinct(s.drop_last());
        lemma_distinct(s.drop_last());
        assert forall|x: Seq<char>| distinct(s).contains(x) == s.contains(x) by {
            if s.contains(x) {
                let i = choose|i: int| 0 <= i < s.len() && s[i] == x;
                if i < s.len() - 1 {
                    assert(s.drop_last()[i] == x);
                    assert(s.drop_last().contains(x));
                    assert(before.contains(x));
                    let j = choose|j: int| 0 <= j < before.len() && before[j] == x;
                    assert(distinct(s)[j] == x);
                } else if !before.contains(x) {
                    assert(distinct(s)[before.len() as int] == x);
                }
            }
            if distinct(s).contains(x) {
                let j = choose|j: int| 0 <= j < distinct(s).len() && distinct(s)[j] == x;
                if j < before.len() {
                    assert(before[j] == x);
                    assert(before.contains(x));
                    assert(s.drop_last().contains(x));
                    let i = choose|i: int| 0 <= i < s.drop_last().len() && s.drop_last()[i] == x;
                    assert(s[i] == x);
                } else {
                    assert(s[s.len() - 1] == x);
                }
            }
        }
    }
}

/// Whether `name` is among `names`.
fn holds(names: &Vec<String>, name: &String) -> (r: bool)
    ensures
        r == texts(names@).contains(name@),
{
    let mut i: usize = 0;
    while i < names.len()
        invariant
            i <= names.len(),
            forall|k: int| 0 <= k < i ==> #[trigger] names@[k]@ != name@,
        decreases names.len() - i,
    {
        if names[i] == *name {
            assert(texts(names@)[i as int] == name@);
            return true;
        }
        i = i + 1;
    }
    proof {
        if texts(names@).contains(name@) {
            let k = choose|k: int| 0 <= k < texts(names@).len() && texts(names@)[k] == name@;
            assert(names@[k]@ != name@);
        }
    }
    false
}

/// The different names, each where it occurs first.
fn without_repeats(names: Vec<String>) -> (r: Vec<String>)
    ensures
        texts(r@) == distinct(texts(names@)),
{
    let ghost s = texts(names@);
    let mut r: Vec<String> = Vec::new();
    let mut i: usize = 0;
    assert(s.take(0) =~= Seq::<Seq<char>>::empty());
    assert(texts(r@) =~= distinct(s.take(0)));
    while i < names.len()
        invariant
            i <= names.len(),
            s == texts(names@),
            texts(r@) == distinct(s.take(i as int)),
        decreases names.len() - i,
    {
        assert(s.take(i + 1).drop_last() =~= s.take(i as int));
        assert(s.take(i + 1).last() == names@[i as int]@);
        if !holds(&r, &names[i]) {
            let ghost before = r@;
            r.push(names[i].clone());
            assert(texts(r@) =~= texts(before).push(names@[i as int]@));
        }
        i = i + 1;
    }
    assert(s.take(i as int) =~= s);
    r
}

/// The different kinds of expressions in the predicates of a node.
pub fn get_pred_nodes(node: &PlanNode) -> (r: Vec<String>)
    requires
        has_predicates(*node),
    ensures
        texts(r@) == distinct(pred_names(*node)),
{
    let mut names: Vec<String> = Vec::new();
    proof {
        reveal_strlit("FilterExec");
        reveal_strlit("HashJoinExec");
        reveal_strlit("NestedLoopJoinExec");
        assert("FilterExec"@.len() == 10);
        assert("HashJoinExec"@.len() == 12);
        assert("NestedLoopJoinExec"@.len() == 18);
        assert(texts(names@) =~= Seq::<Seq<char>>::empty());
    }
    if node.name == "FilterExec".to_owned() {
        match &node.detail {
            NodeDetail::Filter { predicate } => {
                get_pred_nodes_expr(predicate, &mut names);
            },
            _ => {},
        }
    } else if node.name == "HashJoinExec".to_owned() {
        match &node.detail {
            NodeDetail::HashJoin { on, filter } => {
                let ghost s = on@;
                let mut i: usize = 0;
                assert(s.take(0) =~= Seq::<(ExprNode, ExprNode)>::empty());
                while i < on.len()
                    invariant
                        i <= on.len(),
                        s == on@,
                        forall|k: int|
                            0 <= k < s.len() ==> operators_named((#[trigger] s[k]).0)
                                && operators_named(s[k].1),
                        texts(names@) =~= pairs_names(s.take(i as int)),
                    decreases on.len() - i,
                {
                    assert(s.take(i + 1).drop_last() =~= s.take(i as int));
                    assert(operators_named(s[i as int].0));
                    get_pred_nodes_expr(&on[i].0, &mut names);
                    get_pred_nodes_expr(&on[i].1, &mut names);
                    i = i + 1;
                }
                assert(s.take(i as int) =~= s);
                match filter {
                    Some(e) => {
                        get_pred_nodes_expr(e, &mut names);
                    },
                    None => {},
                }
            },
            _ => {},
        }
    } else if node.name == "NestedLoopJoinExec".to_owned() {
        match &node.detail {
            NodeDetail::NestedLoopJoin { filter } => {
                match filter {
                    Some(e) => {
                        get_pred_nodes_expr(e, &mut names);
                    },
                    None => {},
                }
            },
            _ => {},
        }
    }
    assert(texts(names@) =~= pred_names(*node));
    without_repeats(names)
}

/// The first word of a text starts the text, holds no space, and ends at a space or with the text.
pub proof fn lemma_first_word_ends(text: Seq<char>)
    ensures
        first_word(text).len() <= text.len(),
        first_word(text) == text.take(first_word(text).len() as int),
        !first_word(text).contains(' '),
        first_word(text).len() < text.len() ==> text[first_word(text).len() as int] == ' ',
    decreases text.len(),
{
    let n = word_len(text, 0);
    lemma_first_word(text, n);
    assert forall|i: int| 0 <= i < n implies first_word(text)[i] != ' ' by {
        assert(text[i] != ' ');
    }
}

/// Where the first space stands from `from` on, or the length of the text.
proof fn word_len(text: Seq<char>, from: nat) -> (n: nat)
    requires
        from <= text.len(),
        forall|i: int| 0 <= i < from ==> #[trigger] text[i] != ' ',
    ensures
        n <= text.len(),
        forall|i: int| 0 <= i < n ==> #[trigger] text[i] != ' ',
        n < text.len() ==> text[n as int] == ' ',
    decreases text.len() - from,
{
    if from == text.len() || text[from as int] == ' ' {
        from
    } else {
        word_len(text, from + 1)
    }
}

/// A binary expression is named by its operator, every other by the first word of its debug text.
pub proof fn lemma_true_name(e: ExprNode)
    ensures
        first_word(e.debug@) == "BinaryExpr"@ && e.operator is Some ==> true_name(e)
            == e.operator->0@,
        first_word(e.debug@) != "BinaryExpr"@ ==> true_name(e) == first_word(e.debug@),
{
}

/// The kinds in an expression are its own and those in its operands, one after the other.
pub proof fn lemma_expr_names(e: ExprNode)
    ensures
        expr_names(e) == seq![true_name(e)] + Seq::new(
            e.children@.len(),
            |k: int| expr_names(e.children@[k]),
        ).flatten(),
{
    lemma_exprs_names(e.children@);
}

proof fn lemma_exprs_names(s: Seq<ExprNode>)
    ensures
        exprs_names(s) == Seq::new(s.len(), |k: int| expr_names(s[k])).flatten(),
    decreases s.len(),
{
    let all = Seq::new(s.len(), |k: int| expr_names(s[k]));
    all.lemma_flatten_and_flatten_alt_are_equivalent();
    if s.len() > 0 {
        let rest = s.drop_last();
        lemma_exprs_names(rest);
        let before = Seq::new(rest.len(), |k: int| expr_names(rest[k]));
        before.lemma_flatten_and_flatten_alt_are_equivalent();
        assert(all.drop_last() =~= before);
        assert(all.last() == expr_names(s.last()));
    }
}

/// The kinds in pairs of expressions are those in both sides of every pair.
pub proof fn lemma_pairs_names(s: Seq<(ExprNode, ExprNode)>, kind: Seq<char>)
    ensures
        pairs_names(s).contains(kind) <==> exists|i: int|
            0 <= i < s.len() && (expr_names((#[trigger] s[i]).0).contains(kind) || expr_names(
                s[i].1,
            ).contains(kind)),
    decreases s.len(),
{
    if s.len() > 0 {
        let rest = s.drop_last();
        let before = pairs_names(rest);
        let left = expr_names(s.last().0);
        let right = expr_names(s.last().1);
        lemma_pairs_names(rest, kind);
        lemma_contains_joined(before, left, kind);
        lemma_contains_joined(before + left, right, kind);
        if before.contains(kind) {
            let i = choose|i: int|
                0 <= i < rest.len() && (expr_names((#[trigger] rest[i]).0).contains(kind)
                    || expr_names(rest[i].1).contains(kind));
            assert(s[i] == rest[i]);
        } else if pairs_names(s).contains(kind) {
            assert(s[s.len() - 1] == s.last());
        }
        if exists|i: int|
            0 <= i < s.len() && (expr_names((#[trigger] s[i]).0).contains(kind) || expr_names(
                s[i].1,
            ).contains(kind)) {
            let i = choose|i: int|
                0 <= i < s.len() && (expr_names((#[trigger] s[i]).0).contains(kind) || expr_names(
                    s[i].1,
                ).contains(kind));
            if i < rest.len() {
                assert(rest[i] == s[i]);
            }
        }
    }
}

proof fn lemma_contains_joined(a: Seq<Seq<char>>, b: Seq<Seq<char>>, x: Seq<char>)
    ensures
        (a + b).contains(x) <==> a.contains(x) || b.contains(x),
{
    if a.contains(x) {
        let i = choose|i: int| 0 <= i < a.len() && a[i] == x;
        assert((a + b)[i] == x);
    }
    if b.contains(x) {
        let i = choose|i: int| 0 <= i < b.len() && b[i] == x;
        assert((a + b)[a.len() + i] == x);
    }
    if (a + b).contains(x) {
        let i = choose|i: int| 0 <= i < (a + b).len() && (a + b)[i] == x;
        if i < a.len() {
            assert(a[i] == x);
        } else {
            assert(b[i - a.len()] == x);
        }
    }
}

/// The different kinds in the predicates of a node: of a filter, those in its predicate; of a hash
/// join, those in both sides of its pairs and in its further condition; of a nested loop join,
/// those in its condition; of any other node, none. Each stands there once.
pub proof fn lemma_pred_kinds(node: PlanNode, kind: Seq<char>)
    ensures
        distinct(pred_names(node)).no_duplicates(),
        node.name@ == "FilterExec"@ ==> (node.detail matches NodeDetail::Filter { predicate } ==> (
        distinct(pred_names(node)).contains(kind) <==> expr_names(predicate).contains(kind))),
        node.name@ == "HashJoinExec"@ ==> (node.detail matches NodeDetail::HashJoin { on, filter }
            ==> (distinct(pred_names(node)).contains(kind) <==> (exists|i: int|
            0 <= i < on@.len() && (expr_names((#[trigger] on@[i]).0).contains(kind) || expr_names(
                on@[i].1,
            ).contains(kind))) || (filter matches Some(e) && expr_names(e).contains(kind)))),
        node.name@ == "NestedLoopJoinExec"@ ==> (node.detail matches NodeDetail::NestedLoopJoin {
            filter,
        } ==> (distinct(pred_names(node)).contains(kind) <==> (filter matches Some(e)
            && expr_names(e).contains(kind)))),
        node.name@ != "FilterExec"@ && node.name@ != "HashJoinExec"@ && node.name@
            != "NestedLoopJoinExec"@ ==> distinct(pred_names(node)).len() == 0,
{
    reveal_strlit("FilterExec");
    reveal_strlit("HashJoinExec");
    reveal_strlit("NestedLoopJoinExec");
    assert("FilterExec"@.len() == 10);
    assert("HashJoinExec"@.len() == 12);
    assert("NestedLoopJoinExec"@.len() == 18);
    lemma_distinct(pred_names(node));
    assert(distinct(pred_names(node)).contains(kind) == pred_names(node).contains(kind));
    match node.detail {
        NodeDetail::HashJoin { on, filter } => {
            lemma_pairs_names(on@, kind);
            lemma_contains_joined(pairs_names(on@), option_names(filter), kind);
        },
        _ => {},
    }
}

} // verus!
