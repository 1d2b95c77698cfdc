//! What the conditional paths of a forest hold: for every path that leads to
//! a node of the item, and to no other node of it on the way, one row with
//! that node's count.

use crate::database::{equal_to, indicator, some_row, weight_of, weighted_sum, Database};
use crate::label::{label_before, lemma_label_irreflexive, Label};
use crate::lemmas::sums::lemma_sum_push;
use crate::node::{
    branch_paths, child_of, forest_ok, forest_paths, has_child, lemma_child_unique, node_at,
    sorted_forest, NodeView,
};
use vstd::prelude::*;

verus! {

/// The node of `x` that the path `r` leads to, unless `r` passes another
/// node of `x`.
pub open spec fn target(forest: Seq<NodeView>, x: Label, r: Seq<Label>) -> Option<NodeView> {
    if r.contains(x) {
        None
    } else {
        node_at(forest, r.push(x))
    }
}

/// The node of `x` that the rest of `q` behind `path` leads to.
pub open spec fn target_behind(
    forest: Seq<NodeView>,
    x: Label,
    path: Seq<Label>,
    q: Seq<Label>,
) -> Option<NodeView> {
    if path.is_prefix_of(q) {
        target(forest, x, q.skip(path.len() as int))
    } else {
        None
    }
}

/// The rows of `rows` with the items `q` are one row for `found`, or none.
pub open spec fn holds_only(rows: Database, q: Seq<Label>, found: Option<NodeView>) -> bool {
    &&& weight_of(rows, q) == match found {
        Some(n) => n.count,
        None => 0,
    }
    &&& some_row(rows, equal_to(q)) == (found is Some)
}

/// The sum over two lists of rows is the sum of their sums.
pub proof fn lemma_sum_concat(a: Database, b: Database, g: spec_fn(Seq<Label>) -> nat)
    ensures
        weighted_sum(a + b, g) == weighted_sum(a, g) + weighted_sum(b, g),
    decreases b.len(),
{
    if b.len() == 0 {
        assert(a + b =~= a);
    } else {
        lemma_sum_concat(a, b.drop_last(), g);
        assert((a + b).drop_last() =~= a + b.drop_last());
        assert((a + b).last() == b.last());
    }
}

/// A row of two lists of rows is a row of one of them.
pub proof fn lemma_some_row_concat(a: Database, b: Database, pred: spec_fn(Seq<Label>) -> bool)
    ensures
        some_row(a + b, pred) == (some_row(a, pred) || some_row(b, pred)),
{
    let both = a + b;
    if some_row(a, pred) {
        let i = choose|i: int| 0 <= i < a.len() && pred(#[trigger] a[i].0);
        assert(both[i] == a[i]);
    }
    if some_row(b, pred) {
        let i = choose|i: int| 0 <= i < b.len() && pred(#[trigger] b[i].0);
        assert(both[a.len() + i] == b[i]);
    }
    if some_row(both, pred) {
        let i = choose|i: int| 0 <= i < both.len() && pred(#[trigger] both[i].0);
        if i < a.len() {
            assert(both[i] == a[i]);
        } else {
            assert(both[i] == b[i - a.len()]);
        }
    }
}

/// A path with one more item is a prefix of `q` where the path is, and `q`
/// goes on with that item.
pub proof fn lemma_prefix_push(path: Seq<Label>, key: Label, q: Seq<Label>)
    ensures
        path.push(key).is_prefix_of(q) <==> path.is_prefix_of(q) && q.len() > path.len()
            && q[path.len() as int] == key,
{
    let longer = path.push(key);
    if longer.is_prefix_of(q) {
        assert forall|i: int| 0 <= i < path.len() implies path[i] == q[i] by {
            assert(longer[i] == q[i]);
        }
        assert(path =~= q.subrange(0, path.len() as int));
        assert(longer[path.len() as int] == q[path.len() as int]);
    }
    if path.is_prefix_of(q) && q.len() > path.len() && q[path.len() as int] == key {
        assert forall|i: int| 0 <= i < longer.len() implies longer[i] == q[i] by {
            if i < path.len() {
                assert(path[i] == q[i]);
            }
        }
        assert(longer =~= q.subrange(0, longer.len() as int));
    }
}

/// The conditional paths below one node hold one row for the node of `x`
/// that the rest of `q` behind `path` leads to, and no other row with `q`.
pub proof fn lemma_branch_paths(node: NodeView, x: Label, path: Seq<Label>, q: Seq<Label>)
    requires
        forest_ok(node.children),
    ensures
        holds_only(branch_paths(node, x, path), q, target_behind(seq![node], x, path, q)),
    decreases node, 0nat,
{
    let rows = branch_paths(node, x, path);
    let single = seq![node];
    let r = q.skip(path.len() as int);
    let p = r.push(x);
    assert(single[0] == node);
    if node.key == x {
        let g = indicator(equal_to(q));
        let none = Seq::<(Seq<Label>, nat)>::empty();
        assert(rows =~= none.push((path, node.count)));
        lemma_sum_push(none, (path, node.count), g);
        assert(weighted_sum(rows, g) == node.count * g(path));
        assert(node.count * 1 == node.count) by (nonlinear_arith);
        assert(node.count * 0 == 0) by (nonlinear_arith);
        assert(some_row(rows, equal_to(q)) == (path == q)) by {
            if path == q {
                assert(equal_to(q)(rows[0].0));
            }
        }
        if path.is_prefix_of(q) {
            if r.len() == 0 {
                assert(q =~= path);
                assert(p[0] == x);
                assert(!r.contains(x));
                assert(has_child(single, x));
                assert(child_of(single, x) == node);
            } else {
                assert(q != path);
                if !r.contains(x) {
                    assert(r[0] != x);
                    assert(p[0] == r[0]);
                    assert(!has_child(single, p[0]));
                }
            }
        } else {
            if q == path {
                assert(path =~= q.subrange(0, path.len() as int));
            }
        }
    } else {
        let kids = node.children;
        lemma_forest_paths(kids, x, path.push(node.key), kids.len(), q);
        assert(kids.take(kids.len() as int) =~= kids);
        lemma_prefix_push(path, node.key, q);
        let deeper = path.push(node.key);
        if path.is_prefix_of(q) {
            if r.len() == 0 {
                assert(p[0] == x);
                assert(!has_child(single, p[0]));
            } else if r[0] != node.key {
                assert(p[0] == r[0]);
                assert(!has_child(single, p[0]));
                assert(q[path.len() as int] == r[0]);
            } else {
                assert(q[path.len() as int] == r[0]);
                assert(deeper.is_prefix_of(q));
                let r2 = q.skip(deeper.len() as int);
                assert(r2 =~= r.drop_first());
                assert(p[0] == node.key);
                assert(has_child(single, node.key));
                assert(child_of(single, node.key) == node);
                assert(p.drop_first() =~= r2.push(x));
                assert(r.contains(x) == r2.contains(x)) by {
                    if r.contains(x) {
                        let i = choose|i: int| 0 <= i < r.len() && r[i] == x;
                        assert(r2[i - 1] == x);
                    }
                    if r2.contains(x) {
                        let i = choose|i: int| 0 <= i < r2.len() && r2[i] == x;
                        assert(r[i + 1] == x);
                    }
                }
            }
        }
    }
}

/// The conditional paths below the first `k` nodes of a forest hold one row
/// for the node of `x` that the rest of `q` behind `path` leads to in those
/// nodes, and no other row with `q`.
pub proof fn lemma_forest_paths(
    forest: Seq<NodeView>,
    x: Label,
    path: Seq<Label>,
    k: nat,
    q: Seq<Label>,
)
    requires
        forest_ok(forest),
        k <= forest.len(),
    ensures
        holds_only(
            forest_paths(forest, x, path, k),
            q,
            target_behind(forest.take(k as int), x, path, q),
        ),
    decreases forest, k,
{
    let g = indicator(equal_to(q));
    let some = forest.take(k as int);
    let r = q.skip(path.len() as int);
    let p = r.push(x);
    if k == 0 {
        if path.is_prefix_of(q) && !r.contains(x) {
            assert(!has_child(some, p[0]));
        }
    } else {
        let fewer = forest.take(k - 1);
        let node = forest[k - 1];
        let single = seq![node];
        let sooner = forest_paths(forest, x, path, (k - 1) as nat);
        let below = branch_paths(node, x, path);
        lemma_forest_paths(forest, x, path, (k - 1) as nat, q);
        lemma_branch_paths(node, x, path, q);
        lemma_sum_concat(sooner, below, g);
        lemma_some_row_concat(sooner, below, equal_to(q));
        if path.is_prefix_of(q) && !r.contains(x) {
            let first = p[0];
            assert(single[0] == node);
            assert(sorted_forest(some)) by {
                assert forall|i: int, j: int| 0 <= i < j < some.len() implies label_before(
                    (#[trigger] some[i]).key,
                    (#[trigger] some[j]).key,
                ) by {
                    assert(some[i] == forest[i] && some[j] == forest[j]);
                }
            }
            assert(some[k - 1] == node);
            if first == node.key {
                lemma_child_unique(some, k - 1);
                lemma_label_irreflexive(first);
                assert(!has_child(fewer, first)) by {
                    if has_child(fewer, first) {
                        let i = choose|i: int| 0 <= i < fewer.len() && (#[trigger] fewer[i]).key == first;
                        assert(fewer[i] == forest[i]);
                        assert(label_before(forest[i].key, forest[k - 1].key));
                    }
                }
                assert(has_child(single, first));
                assert(child_of(single, first) == node);
            } else {
                assert(!has_child(single, first));
                if has_child(fewer, first) {
                    let i = choose|i: int| 0 <= i < fewer.len() && (#[trigger] fewer[i]).key == first;
                    assert(some[i] == fewer[i]);
                    lemma_child_unique(some, i);
                    assert(sorted_forest(fewer)) by {
                        assert forall|a: int, b: int| 0 <= a < b < fewer.len() implies label_before(
                            (#[trigger] fewer[a]).key,
                            (#[trigger] fewer[b]).key,
                        ) by {
                            assert(fewer[a] == forest[a] && fewer[b] == forest[b]);
                        }
                    }
                    lemma_child_unique(fewer, i);
                }
                if has_child(some, first) {
                    let i = choose|i: int| 0 <= i < some.len() && (#[trigger] some[i]).key == first;
                    assert(fewer[i] == some[i]);
                }
            }
        }
    }
}

} // verus!
