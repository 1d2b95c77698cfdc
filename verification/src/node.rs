//! The nodes of an FP-tree.
//!
//! A node stands for one item on one path from the root. A forest, the
//! children of one node or the top level of a tree, is kept in label order
//! and holds each item once. What a forest means is the count that it gives
//! for every path.

use crate::database::{weighted_view, Database};
use crate::label::{
    compare_labels, label_before, labels_of, lemma_label_connected, lemma_label_irreflexive,
    lemma_label_transitive, Label, Placement,
};
use vstd::prelude::*;

verus! {

/// The value of a node: its item, its count and its children.
pub ghost struct NodeView {
    pub key: Label,
    pub count: nat,
    pub children: Seq<NodeView>,
}

/// One item on one path of the tree.
#[derive(Debug)]
pub struct FpNode<'a> {
    key: &'a str,
    occurences: usize,
    children: Vec<FpNode<'a>>,
}

/// The value of a node, from its fields.
closed spec fn node_view(node: FpNode) -> NodeView
    decreases node,
{
    NodeView {
        key: node.key@,
        count: node.occurences as nat,
        children: Seq::new(
            node.children@.len(),
            |i: int|
                if 0 <= i < node.children@.len() {
                    node_view(node.children@[i])
                } else {
                    arbitrary()
                },
        ),
    }
}

impl<'a> View for FpNode<'a> {
    type V = NodeView;

    closed spec fn view(&self) -> NodeView {
        node_view(*self)
    }
}

/// The values of the nodes of a forest.
pub open spec fn forest_view(nodes: Seq<FpNode>) -> Seq<NodeView> {
    Seq::new(nodes.len(), |i: int| nodes[i]@)
}

/// The forest has a node for the item `k`.
pub open spec fn has_child(forest: Seq<NodeView>, k: Label) -> bool {
    exists|i: int| 0 <= i < forest.len() && (#[trigger] forest[i]).key == k
}

/// The node of the forest for the item `k`.
pub open spec fn child_of(forest: Seq<NodeView>, k: Label) -> NodeView {
    forest[choose|i: int| 0 <= i < forest.len() && (#[trigger] forest[i]).key == k]
}

/// The node at the end of the path `p`, where the forest has that path.
pub open spec fn node_at(forest: Seq<NodeView>, p: Seq<Label>) -> Option<NodeView>
    decreases p.len(),
{
    if p.len() == 0 || !has_child(forest, p[0]) {
        None
    } else if p.len() == 1 {
        Some(child_of(forest, p[0]))
    } else {
        node_at(child_of(forest, p[0]).children, p.drop_first())
    }
}

/// The forest has a node at the end of the path `p`.
pub open spec fn present(forest: Seq<NodeView>, p: Seq<Label>) -> bool {
    node_at(forest, p) is Some
}

/// The count of the node at the end of the path `p`; zero where there is none.
pub open spec fn count_at(forest: Seq<NodeView>, p: Seq<Label>) -> nat {
    match node_at(forest, p) {
        Some(n) => n.count,
        None => 0,
    }
}

/// The items of the forest are in strictly increasing label order.
pub open spec fn sorted_forest(forest: Seq<NodeView>) -> bool {
    forall|i: int, j: int|
        0 <= i < j < forest.len() ==> label_before(
            (#[trigger] forest[i]).key,
            (#[trigger] forest[j]).key,
        )
}

/// Every forest of the tree, from this one down, is in label order.
pub open spec fn forest_ok(forest: Seq<NodeView>) -> bool
    decreases forest,
{
    &&& sorted_forest(forest)
    &&& forall|i: int| 0 <= i < forest.len() ==> forest_ok((#[trigger] forest[i]).children)
}

/// What inserting the row `row` with weight `weight` does to a forest: the
/// nodes along the row exist afterwards, and their counts have grown by
/// `weight`; nothing else has changed.
pub open spec fn grown(
    before: Seq<NodeView>,
    after: Seq<NodeView>,
    row: Seq<Label>,
    weight: nat,
) -> bool {
    forall|p: Seq<Label>|
        #![trigger node_at(after, p)]
        {
            &&& count_at(after, p) == count_at(before, p) + if p.len() > 0 && p.is_prefix_of(row) {
                weight
            } else {
                0nat
            }
            &&& present(after, p) == (present(before, p) || (p.len() > 0 && p.is_prefix_of(row)))
        }
}

/// The index of the first node whose item does not sort before `x`.
pub open spec fn is_slot(forest: Seq<NodeView>, x: Label, pos: int) -> bool {
    &&& 0 <= pos <= forest.len()
    &&& forall|k: int| 0 <= k < pos ==> label_before((#[trigger] forest[k]).key, x)
    &&& forall|k: int| pos <= k < forest.len() ==> !label_before((#[trigger] forest[k]).key, x)
}

/// The conditional paths of `x` below one node: where the node holds `x`,
/// the path that led to it with the node's count; else those of its
/// children, with the node's item added to the path.
pub open spec fn branch_paths(node: NodeView, x: Label, path: Seq<Label>) -> Database
    decreases node, 0nat,
{
    if node.key == x {
        seq![(path, node.count)]
    } else {
        forest_paths(node.children, x, path.push(node.key), node.children.len())
    }
}

/// The conditional paths of `x` below the first `k` nodes of a forest, in
/// the order of the nodes.
pub open spec fn forest_paths(forest: Seq<NodeView>, x: Label, path: Seq<Label>, k: nat) -> Database
    decreases forest, k,
{
    if k == 0 || k > forest.len() {
        Seq::empty()
    } else {
        forest_paths(forest, x, path, (k - 1) as nat) + branch_paths(forest[k - 1], x, path)
    }
}

/// In a sorted forest the node of an item is the only one with that item.
pub proof fn lemma_child_unique(forest: Seq<NodeView>, i: int)
    requires
        sorted_forest(forest),
        0 <= i < forest.len(),
    ensures
        has_child(forest, forest[i].key),
        child_of(forest, forest[i].key) == forest[i],
{
    let k = forest[i].key;
    let j = choose|j: int| 0 <= j < forest.len() && (#[trigger] forest[j]).key == k;
    lemma_label_irreflexive(k);
    if j < i {
        assert(label_before(forest[j].key, forest[i].key));
    }
    if i < j {
        assert(label_before(forest[i].key, forest[j].key));
    }
}

/// In a sorted forest the node of `x` stands at the slot of `x`, if anywhere.
pub proof fn lemma_child_at_slot(forest: Seq<NodeView>, x: Label, pos: int)
    requires
        sorted_forest(forest),
        is_slot(forest, x, pos),
    ensures
        has_child(forest, x) <==> pos < forest.len() && forest[pos].key == x,
{
    lemma_label_irreflexive(x);
    if has_child(forest, x) {
        let j = choose|j: int| 0 <= j < forest.len() && (#[trigger] forest[j]).key == x;
        if j < pos {
            assert(label_before(forest[j].key, x));
        }
        if j > pos {
            assert(label_before(forest[pos].key, forest[j].key));
        }
    }
}

/// A node is its item, its count and the forest of its children.
proof fn lemma_node_view(node: FpNode)
    ensures
        node@.key == node.key@,
        node@.count == node.occurences,
        node@.children == forest_view(node.children@),
{
    let kids = node@.children;
    let view = forest_view(node.children@);
    assert(kids.len() == view.len());
    assert forall|i: int| 0 <= i < kids.len() implies kids[i] == view[i] by {
        assert(node.children[i] == node.children@[i]);
    }
    assert(kids =~= view);
}

/// The prefixes of a row that reach beyond its first item are the first
/// item followed by a prefix of the rest.
pub proof fn lemma_prefix_step(p: Seq<Label>, row: Seq<Label>)
    requires
        p.len() > 0,
        row.len() > 0,
    ensures
        p.is_prefix_of(row) <==> p[0] == row[0] && p.drop_first().is_prefix_of(row.drop_first()),
{
    let q = p.drop_first();
    let rest = row.drop_first();
    if p.is_prefix_of(row) {
        assert(p[0] == row[0]);
        assert forall|i: int| 0 <= i < q.len() implies q[i] == rest[i] by {
            assert(q[i] == p[i + 1]);
            assert(p[i + 1] == row[i + 1]);
        }
        assert(q =~= rest.subrange(0, q.len() as int));
    }
    if p[0] == row[0] && q.is_prefix_of(rest) {
        assert forall|i: int| 0 <= i < p.len() implies p[i] == row[i] by {
            if i > 0 {
                assert(q[i - 1] == rest[i - 1]);
            }
        }
        assert(p =~= row.subrange(0, p.len() as int));
    }
}

/// What happens to a sorted forest when the node for the first item of a row
/// is put in or changed at its slot, and the rest of the row has gone into
/// that node's children.
pub proof fn lemma_grown_step(
    before: Seq<NodeView>,
    after: Seq<NodeView>,
    pos: int,
    node: NodeView,
    row: Seq<Label>,
    weight: nat,
)
    requires
        row.len() > 0,
        sorted_forest(before),
        is_slot(before, row[0], pos),
        node.key == row[0],
        pos < before.len() && before[pos].key == row[0] ==> {
            &&& after == before.update(pos, node)
            &&& node.count == before[pos].count + weight
            &&& row.len() == 1 ==> node.children == before[pos].children
            &&& row.len() > 1 ==> grown(before[pos].children, node.children, row.drop_first(), weight)
        },
        !(pos < before.len() && before[pos].key == row[0]) ==> {
            &&& after == before.insert(pos, node)
            &&& node.count == weight
            &&& row.len() == 1 ==> node.children == Seq::<NodeView>::empty()
            &&& row.len() > 1 ==> grown(Seq::<NodeView>::empty(), node.children, row.drop_first(), weight)
        },
    ensures
        sorted_forest(after),
        grown(before, after, row, weight),
{
    let x = row[0];
    let existed = pos < before.len() && before[pos].key == x;
    lemma_child_at_slot(before, x, pos);
    assert(sorted_forest(after)) by {
        assert forall|i: int, j: int| 0 <= i < j < after.len() implies label_before(
            (#[trigger] after[i]).key,
            (#[trigger] after[j]).key,
        ) by {
            if existed {
                assert(after[i].key == before[i].key && after[j].key == before[j].key);
            } else if j == pos {
                assert(after[i] == before[i]);
            } else if i == pos {
                assert(after[j] == before[j - 1]);
                lemma_label_connected(before[j - 1].key, x);
                if before[j - 1].key == x {
                    if j - 1 > pos {
                        assert(label_before(before[pos].key, before[j - 1].key));
                    }
                }
            } else {
                let a = if i < pos { i } else { i - 1 };
                let b = if j < pos { j } else { j - 1 };
                assert(after[i] == before[a] && after[j] == before[b]);
            }
        }
    }
    assert(after[pos] == node);
    lemma_child_unique(after, pos);
    if existed {
        lemma_child_unique(before, pos);
    }
    assert forall|k: Label| k != x implies has_child(after, k) == has_child(before, k) && (
    has_child(before, k) ==> child_of(after, k) == child_of(before, k)) by {
        if has_child(before, k) {
            let i = choose|i: int| 0 <= i < before.len() && (#[trigger] before[i]).key == k;
            lemma_child_unique(before, i);
            let j = if existed || i < pos { i } else { i + 1 };
            assert(after[j] == before[i]);
            lemma_child_unique(after, j);
        }
        if has_child(after, k) {
            let j = choose|j: int| 0 <= j < after.len() && (#[trigger] after[j]).key == k;
            let i = if existed || j < pos { j } else { j - 1 };
            assert(before[i] == after[j]);
        }
    }
    assert forall|p: Seq<Label>| #![trigger node_at(after, p)] {
        &&& count_at(after, p) == count_at(before, p) + if p.len() > 0 && p.is_prefix_of(row) {
            weight
        } else {
            0nat
        }
        &&& present(after, p) == (present(before, p) || (p.len() > 0 && p.is_prefix_of(row)))
    } by {
        if p.len() > 0 {
            lemma_prefix_step(p, row);
            if p[0] == x {
                let q = p.drop_first();
                let rest = row.drop_first();
                if p.len() == 1 {
                    assert(q.is_prefix_of(rest));
                } else {
                    let base = if existed { before[pos].children } else { Seq::<NodeView>::empty() };
                    assert(node_at(after, p) == node_at(node.children, q));
                    assert(node_at(before, p) == node_at(base, q)) by {
                        if !existed {
                            assert(!has_child(base, q[0]));
                        }
                    }
                    if row.len() == 1 {
                        assert(!q.is_prefix_of(rest));
                    } else {
                        assert(grown(base, node.children, rest, weight));
                    }
                }
            }
        }
    }
}

/// The index of the first node whose item does not sort before `item`.
fn find_slot<'a>(forest: &Vec<FpNode<'a>>, item: &str) -> (pos: usize)
    requires
        sorted_forest(forest_view(forest@)),
    ensures
        is_slot(forest_view(forest@), item@, pos as int),
{
    let ghost view = forest_view(forest@);
    let mut lo: usize = 0;
    let mut hi: usize = forest.len();
    while lo < hi
        invariant
            view == forest_view(forest@),
            sorted_forest(view),
            0 <= lo <= hi <= forest.len(),
            forall|k: int| 0 <= k < lo ==> label_before((#[trigger] view[k]).key, item@),
            forall|k: int| hi <= k < view.len() ==> !label_before((#[trigger] view[k]).key, item@),
        decreases hi - lo,
    {
        let mid = lo + (hi - lo) / 2;
        let here = forest[mid].key;
        proof {
            lemma_node_view(forest[mid as int]);
            assert(here@ == view[mid as int].key);
        }
        match compare_labels(here, item) {
            Placement::Before => {
                proof {
                    assert forall|k: int| 0 <= k < mid + 1 implies label_before(
                        (#[trigger] view[k]).key,
                        item@,
                    ) by {
                        if k < mid {
                            assert(label_before(view[k].key, view[mid as int].key));
                            lemma_label_transitive(view[k].key, here@, item@);
                        }
                    }
                }
                lo = mid + 1;
            },
            _ => {
                proof {
                    assert forall|k: int| mid <= k < view.len() implies !label_before(
                        (#[trigger] view[k]).key,
                        item@,
                    ) by {
                        if k > mid && label_before(view[k].key, item@) {
                            assert(label_before(view[mid as int].key, view[k].key));
                            lemma_label_transitive(here@, view[k].key, item@);
                        }
                    }
                }
                hi = mid;
            },
        }
    }
    lo
}

/// Inserts the row `transaction[start..]` with weight `count` into a forest.
pub fn add_path<'a>(
    forest: &mut Vec<FpNode<'a>>,
    transaction: &[&'a str],
    start: usize,
    count: usize,
)
    requires
        start < transaction.len(),
        forest_ok(forest_view(old(forest)@)),
        forall|p: Seq<Label>|
            p.len() > 0 && p.is_prefix_of(labels_of(transaction@).skip(start as int))
                ==> #[trigger] count_at(forest_view(old(forest)@), p) + count <= usize::MAX,
    ensures
        forest_ok(forest_view(final(forest)@)),
        grown(
            forest_view(old(forest)@),
            forest_view(final(forest)@),
            labels_of(transaction@).skip(start as int),
            count as nat,
        ),
    decreases transaction.len() - start, 1nat,
{
    let ghost before = forest_view(forest@);
    let ghost row = labels_of(transaction@).skip(start as int);
    let item = transaction[start];
    assert(row[0] == item@);
    let pos = find_slot(forest, item);
    let mut found = false;
    if pos < forest.len() {
        proof {
            lemma_node_view(forest[pos as int]);
        }
        found = compare_labels(forest[pos].key, item) == Placement::Same;
    }
    if !found {
        let fresh = FpNode::new(item);
        forest.insert(pos, fresh);
        assert(forest_view(forest@) =~= before.insert(pos as int, fresh@));
    }
    let ghost middle = forest_view(forest@);
    let ghost base = middle[pos as int];
    proof {
        lemma_child_at_slot(before, item@, pos as int);
        assert(forest_ok(base.children)) by {
            if found {
                assert(base == before[pos as int]);
            }
        }
        let single = row.take(1);
        assert(single.is_prefix_of(row));
        if found {
            lemma_child_unique(before, pos as int);
            assert(node_at(before, single) == Some(before[pos as int]));
            assert(count_at(before, single) + count <= usize::MAX);
        }
        assert forall|q: Seq<Label>|
            q.len() > 0 && q.is_prefix_of(row.drop_first()) implies #[trigger] count_at(
            base.children,
            q,
        ) + count <= usize::MAX by {
            let p = seq![item@] + q;
            assert(p.drop_first() =~= q);
            lemma_prefix_step(p, row);
            if found {
                assert(node_at(before, p) == node_at(base.children, q));
                assert(count_at(before, p) + count <= usize::MAX);
            } else {
                assert(!has_child(base.children, q[0]));
            }
        }
        assert(labels_of(transaction@).skip(start + 1) =~= row.drop_first());
    }
    forest[pos].add_tail(transaction, start, count);
    proof {
        let after = forest_view(forest@);
        let node = after[pos as int];
        assert(after =~= middle.update(pos as int, node));
        if found {
            assert(middle == before);
        } else {
            assert(after =~= before.insert(pos as int, node));
        }
        lemma_grown_step(before, after, pos as int, node, row, count as nat);
        assert forall|i: int| 0 <= i < after.len() implies forest_ok(
            (#[trigger] after[i]).children,
        ) by {
            if i != pos {
                if found {
                    assert(after[i] == before[i]);
                } else {
                    let j = if i < pos { i } else { i - 1 };
                    assert(after[i] == before[j]);
                }
            }
        }
    }
}

/// The conditional paths of `item` in a forest that the path `path` leads to:
/// for each node of `item`, reached without passing another node of it, the
/// items from `path` on down to that node, with the node's count.
pub fn collect_paths<'a>(forest: &Vec<FpNode<'a>>, item: &str, path: &Vec<&'a str>) -> (lists: Vec<
    (Vec<&'a str>, usize),
>)
    ensures
        weighted_view(lists@) == forest_paths(
            forest_view(forest@),
            item@,
            labels_of(path@),
            forest.len() as nat,
        ),
    decreases forest,
{
    let mut lists: Vec<(Vec<&'a str>, usize)> = Vec::new();
    let mut i: usize = 0;
    assert(weighted_view(lists@) =~= Seq::empty());
    while i < forest.len()
        invariant
            0 <= i <= forest.len(),
            weighted_view(lists@) == forest_paths(
                forest_view(forest@),
                item@,
                labels_of(path@),
                i as nat,
            ),
        decreases forest.len() - i,
    {
        let mut below = forest[i].build_conditional_tree(item, copy_items(path));
        let ghost sooner = lists@;
        let ghost added = below@;
        lists.append(&mut below);
        assert(weighted_view(lists@) =~= weighted_view(sooner) + weighted_view(added));
        i += 1;
    }
    lists
}

/// A copy of a list of items.
pub fn copy_items<'a>(items: &Vec<&'a str>) -> (copy: Vec<&'a str>)
    ensures
        copy@ == items@,
{
    let mut copy: Vec<&'a str> = Vec::new();
    let mut i: usize = 0;
    while i < items.len()
        invariant
            0 <= i <= items.len(),
            copy@ == items@.take(i as int),
        decreases items.len() - i,
    {
        copy.push(items[i]);
        assert(items@.take(i + 1) =~= items@.take(i as int).push(items@[i as int]));
        i += 1;
    }
    assert(items@.take(i as int) =~= items@);
    copy
}

/// The count of the node at the end of the path `path[start..]` in a
/// forest; zero where the forest has no such node.
pub fn count_along<'a>(forest: &Vec<FpNode<'a>>, path: &[&str], start: usize) -> (count: usize)
    requires
        start <= path.len(),
        forest_ok(forest_view(forest@)),
    ensures
        count == count_at(forest_view(forest@), labels_of(path@).skip(start as int)),
    decreases path.len() - start,
{
    let ghost view = forest_view(forest@);
    let ghost rest = labels_of(path@).skip(start as int);
    if start == path.len() {
        return 0;
    }
    let item = path[start];
    assert(rest[0] == item@);
    let pos = find_slot(forest, item);
    proof {
        lemma_child_at_slot(view, item@, pos as int);
    }
    if pos >= forest.len() {
        return 0;
    }
    let node = &forest[pos];
    proof {
        lemma_node_view(*node);
        assert(view[pos as int] == node@);
    }
    if compare_labels(node.key, item) != Placement::Same {
        return 0;
    }
    proof {
        lemma_child_unique(view, pos as int);
        assert(forest_ok(view[pos as int].children));
        assert(labels_of(path@).skip(start + 1) =~= rest.drop_first());
    }
    if start + 1 == path.len() {
        node.occurences
    } else {
        count_along(&node.children, path, start + 1)
    }
}

impl<'a> FpNode<'a> {
    /// The item of the node.
    pub fn key(&self) -> (key: &'a str)
        ensures
            key@ == self@.key,
    {
        proof {
            lemma_node_view(*self);
        }
        self.key
    }

    /// The number of rows that pass the node, weights counted.
    pub fn occurences(&self) -> (count: usize)
        ensures
            count == self@.count,
    {
        proof {
            lemma_node_view(*self);
        }
        self.occurences
    }

    /// The number of children of the node.
    pub fn fan_out(&self) -> (n: usize)
        ensures
            n == self@.children.len(),
    {
        proof {
            lemma_node_view(*self);
        }
        self.children.len()
    }

    /// The child at index `i`, in label order.
    pub fn child(&self, i: usize) -> (child: &FpNode<'a>)
        requires
            i < self@.children.len(),
        ensures
            child@ == self@.children[i as int],
    {
        proof {
            lemma_node_view(*self);
        }
        &self.children[i]
    }

    /// The conditional paths of `item` at and below this node, which the
    /// path `path` leads to: where this node holds `item`, `path` with the
    /// node's count; else the paths found below it, each starting with
    /// `path` and this node's item.
    pub fn build_conditional_tree(&self, item: &str, path: Vec<&'a str>) -> (lists: Vec<
        (Vec<&'a str>, usize),
    >)
        ensures
            weighted_view(lists@) == branch_paths(self@, item@, labels_of(path@)),
        decreases self,
    {
        proof {
            lemma_node_view(*self);
        }
        if compare_labels(self.key, item) == Placement::Same {
            let mut lists: Vec<(Vec<&'a str>, usize)> = Vec::new();
            let ghost steps = labels_of(path@);
            lists.push((path, self.occurences));
            assert(weighted_view(lists@) =~= seq![(steps, self.occurences as nat)]);
            return lists;
        }
        let mut path = path;
        let ghost steps = labels_of(path@);
        path.push(self.key);
        assert(labels_of(path@) =~= steps.push(self.key@));
        collect_paths(&self.children, item, &path)
    }

    /// The node and every node below it hold their children in label order.
    pub open spec fn well_formed(&self) -> bool {
        forest_ok(seq![self@])
    }

    /// A node for `key` that no row has passed yet.
    pub fn new(key: &'a str) -> (node: Self)
        ensures
            node@ == (NodeView { key: key@, count: 0, children: Seq::empty() }),
            node.well_formed(),
    {
        let node = FpNode { key, occurences: 0, children: Vec::new() };
        proof {
            lemma_node_view(node);
            assert(forest_view(node.children@) =~= Seq::<NodeView>::empty());
            assert(forest_ok(node@.children));
            assert(seq![node@][0] == node@);
        }
        node
    }

    /// Counts `count` more rows through this node, and inserts what follows
    /// `transaction[start]` below it.
    fn add_tail(&mut self, transaction: &[&'a str], start: usize, count: usize)
        requires
            start < transaction.len(),
            forest_ok(old(self)@.children),
            old(self)@.count + count <= usize::MAX,
            forall|q: Seq<Label>|
                q.len() > 0 && q.is_prefix_of(labels_of(transaction@).skip(start + 1))
                    ==> #[trigger] count_at(old(self)@.children, q) + count <= usize::MAX,
        ensures
            final(self)@.key == old(self)@.key,
            final(self)@.count == old(self)@.count + count,
            forest_ok(final(self)@.children),
            start + 1 == transaction.len() ==> final(self)@.children == old(self)@.children,
            start + 1 < transaction.len() ==> grown(
                old(self)@.children,
                final(self)@.children,
                labels_of(transaction@).skip(start + 1),
                count as nat,
            ),
        decreases transaction.len() - start, 0nat,
    {
        proof {
            lemma_node_view(*self);
        }
        self.occurences = self.occurences + count;
        if start + 1 < transaction.len() {
            add_path(&mut self.children, transaction, start + 1, count);
        }
        proof {
            lemma_node_view(*self);
        }
    }

    /// Inserts a row that starts with this node's item: the node and the
    /// nodes along the rest of the row count `count` more, and nodes that
    /// the row needs are made.
    pub fn add(&mut self, transaction: &[&'a str], count: usize)
        requires
            transaction.len() > 0,
            transaction[0]@ == old(self)@.key,
            old(self).well_formed(),
            forall|p: Seq<Label>|
                p.len() > 0 && p.is_prefix_of(labels_of(transaction@)) ==> #[trigger] count_at(
                    seq![old(self)@],
                    p,
                ) + count <= usize::MAX,
        ensures
            final(self)@.key == old(self)@.key,
            final(self).well_formed(),
            grown(seq![old(self)@], seq![final(self)@], labels_of(transaction@), count as nat),
    {
        let ghost row = labels_of(transaction@);
        let ghost before = seq![self@];
        proof {
            lemma_label_irreflexive(self@.key);
            assert(is_slot(before, row[0], 0));
            assert(before[0] == self@);
            lemma_child_unique(before, 0);
            let single = row.take(1);
            assert(single.is_prefix_of(row));
            assert(node_at(before, single) == Some(self@));
            assert(count_at(before, single) + count <= usize::MAX);
            assert(forest_ok(before[0].children));
            assert(labels_of(transaction@).skip(1) =~= row.drop_first());
            assert forall|q: Seq<Label>|
                q.len() > 0 && q.is_prefix_of(row.drop_first()) implies #[trigger] count_at(
                self@.children,
                q,
            ) + count <= usize::MAX by {
                let p = seq![row[0]] + q;
                assert(p.drop_first() =~= q);
                lemma_prefix_step(p, row);
                assert(node_at(before, p) == node_at(self@.children, q));
                assert(count_at(before, p) + count <= usize::MAX);
            }
        }
        self.add_tail(transaction, 0, count);
        proof {
            let after = seq![self@];
            assert(after =~= before.update(0, self@));
            assert(labels_of(transaction@).skip(0) =~= row);
            lemma_grown_step(before, after, 0, self@, row, count as nat);
            assert forall|i: int| 0 <= i < after.len() implies forest_ok(
                (#[trigger] after[i]).children,
            ) by {}
        }
    }
}

} // verus!
