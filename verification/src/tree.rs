//! The FP-tree of a database: its frequency table and the forest of its
//! arranged rows.

use crate::database::{
    along, arrange, conditional, equal_to, indicator, length_of, mass, passing, same_rows, some_row,
    table_of, unit_view, weight_of, weighted_sum, weighted_view, Database,
};
use crate::label::{labels_of, Label};
use crate::lemmas::conditional::{
    lemma_arrange_members, lemma_conditional_size, lemma_conditional_weight,
};
use crate::lemmas::equivalence::{
    lemma_same_rows_counts, lemma_same_rows_paths, lemma_same_rows_table,
};
use crate::lemmas::items::{lemma_table_blank, lemma_table_extend, lemma_table_tally};
use crate::lemmas::paths::lemma_forest_paths;
use crate::lemmas::sums::{
    lemma_frequency_below_mass, lemma_frequency_extend, lemma_frequency_push, lemma_mass_prefix,
    lemma_sum_monotone, lemma_sum_prefix, lemma_sum_take,
};
use crate::node::{
    add_path, collect_paths, copy_items, count_along, count_at, forest_ok, forest_view, grown,
    has_child, node_at, present, FpNode, NodeView,
};
use crate::rows::arrange_row;
use crate::table::FrequencyTable;
use vstd::prelude::*;

verus! {

/// The forest holds the arranged rows of `rows`, arranged by the frequencies
/// of `db`: every path has the count that those rows give it.
pub open spec fn holds_rows(
    forest: Seq<NodeView>,
    db: Database,
    min_support: nat,
    rows: Database,
) -> bool {
    forall|p: Seq<Label>|
        #![trigger node_at(forest, p)]
        {
            &&& count_at(forest, p) == weighted_sum(rows, indicator(along(db, min_support, p)))
            &&& present(forest, p) == some_row(rows, along(db, min_support, p))
        }
}

/// No path of the tree counts more than the database weighs.
pub proof fn lemma_passing_below_mass(db: Database, min_support: nat, p: Seq<Label>)
    ensures
        passing(db, min_support, p) <= mass(db),
{
    let g = indicator(along(db, min_support, p));
    assert forall|i: int| 0 <= i < db.len() implies g(#[trigger] db[i].0) <= length_of()(db[i].0) by {
        lemma_arrange_members(db, min_support, db[i].0);
    }
    lemma_sum_monotone(db, g, length_of());
}

/// An FP-tree: the prefix tree of the arranged rows of a database, with the
/// frequency table of that database and the threshold that the rows were
/// arranged with.
pub struct FpTree<'a> {
    root: Vec<FpNode<'a>>,
    frequencies: FrequencyTable<'a>,
    min_support: usize,
    source: Ghost<Database>,
}

impl<'a> FpTree<'a> {
    /// The database that the tree was built from.
    pub closed spec fn source(&self) -> Database {
        self.source@
    }

    /// The minimum support that the tree was built with.
    pub closed spec fn threshold(&self) -> nat {
        self.min_support as nat
    }

    /// The frequency table of the tree.
    pub closed spec fn table(&self) -> Seq<(Label, nat)> {
        self.frequencies@
    }

    /// The top level of the tree.
    pub closed spec fn forest(&self) -> Seq<NodeView> {
        forest_view(self.root@)
    }

    /// The tree holds the frequency table of its database and, path by path,
    /// the arranged rows of it.
    pub open spec fn well_formed(&self) -> bool {
        &&& self.table() == table_of(self.source())
        &&& forest_ok(self.forest())
        &&& holds_rows(self.forest(), self.source(), self.threshold(), self.source())
        &&& mass(self.source()) <= usize::MAX
    }

    /// The tree of a list of transactions, each counted once.
    pub fn new(transactions: &[Vec<&'a str>], min_support: usize) -> (tree: Self)
        requires
            mass(unit_view(transactions@)) <= usize::MAX,
        ensures
            tree.well_formed(),
            tree.source() == unit_view(transactions@),
            tree.threshold() == min_support,
    {
        let mut weighted: Vec<(Vec<&'a str>, usize)> = Vec::new();
        let mut i: usize = 0;
        while i < transactions.len()
            invariant
                0 <= i <= transactions.len(),
                weighted_view(weighted@) == unit_view(transactions@).take(i as int),
            decreases transactions.len() - i,
        {
            let row = copy_items(&transactions[i]);
            let ghost sooner = weighted@;
            weighted.push((row, 1));
            proof {
                let now = weighted_view(weighted@);
                let goal = unit_view(transactions@).take(i + 1);
                assert(weighted_view(sooner).len() == i);
                assert(sooner.len() == i);
                assert forall|k: int| 0 <= k < now.len() implies now[k] == goal[k] by {
                    if k < i {
                        assert(weighted@[k] == sooner[k]);
                        assert(weighted_view(sooner)[k] == unit_view(transactions@).take(i as int)[k]);
                    }
                }
                assert(now =~= goal);
            }
            i += 1;
        }
        assert(unit_view(transactions@).take(i as int) =~= unit_view(transactions@));
        Self::build_fp_tree(weighted.as_slice(), min_support)
    }

    /// The frequency table of a list of weighted transactions.
    fn count_items(transactions: &[(Vec<&'a str>, usize)]) -> (table: FrequencyTable<'a>)
        requires
            mass(weighted_view(transactions@)) <= usize::MAX,
        ensures
            table@ == table_of(weighted_view(transactions@)),
            table.well_formed(),
    {
        let ghost db = weighted_view(transactions@);
        let mut table = FrequencyTable::new();
        let mut i: usize = 0;
        assert(db.take(0) =~= Seq::empty());
        assert(table_of(Seq::empty()) =~= Seq::empty());
        while i < transactions.len()
            invariant
                0 <= i <= transactions.len(),
                db == weighted_view(transactions@),
                mass(db) <= usize::MAX,
                table@ == table_of(db.take(i as int)),
                table.well_formed(),
            decreases transactions.len() - i,
        {
            let items = &transactions[i].0;
            let weight = transactions[i].1;
            let ghost done = db.take(i as int);
            let ghost row = labels_of(items@);
            let mut j: usize = 0;
            proof {
                assert(db[i as int] == (row, weight as nat));
                assert(row.take(0) =~= Seq::<Label>::empty());
                lemma_table_blank(done, weight as nat);
            }
            while j < items.len()
                invariant
                    0 <= j <= items.len(),
                    0 <= i < transactions.len(),
                    db == weighted_view(transactions@),
                    mass(db) <= usize::MAX,
                    done == db.take(i as int),
                    row == labels_of(items@),
                    db[i as int] == (row, weight as nat),
                    table@ == table_of(done.push((row.take(j as int), weight as nat))),
                    table.well_formed(),
                decreases items.len() - j,
            {
                let item = items[j];
                proof {
                    let part = row.take(j as int);
                    let more = row.take(j + 1);
                    assert(more =~= part.push(item@));
                    let sooner = done.push((part, weight as nat));
                    let later = done.push((more, weight as nat));
                    lemma_table_extend(done, part, weight as nat, item@);
                    lemma_table_tally(sooner, item@);
                    lemma_frequency_extend(done, part, weight as nat, item@, item@);
                    lemma_frequency_below_mass(later, item@);
                    lemma_frequency_push(done, (more, weight as nat), item@);
                    lemma_frequency_push(done, (row, weight as nat), item@);
                    assert(db.take(i + 1) =~= done.push((row, weight as nat)));
                    lemma_mass_prefix(db, i + 1);
                    let w = weight as nat;
                    let short = more.len();
                    let long = row.len();
                    assert(w * short <= w * long) by (nonlinear_arith)
                        requires
                            short <= long,
                    ;
                }
                table.add(item, weight);
                j += 1;
            }
            proof {
                assert(row.take(j as int) =~= row);
                assert(db.take(i + 1) =~= done.push((row, weight as nat)));
            }
            i += 1;
        }
        assert(db.take(i as int) =~= db);
        table
    }

    /// The tree of a list of weighted transactions: the items are counted,
    /// and the frequent items of each transaction go into the tree, the more
    /// frequent first and equally frequent ones by label.
    pub fn build_fp_tree(transactions: &[(Vec<&'a str>, usize)], min_support: usize) -> (tree:
        FpTree<'a>)
        requires
            mass(weighted_view(transactions@)) <= usize::MAX,
        ensures
            tree.well_formed(),
            tree.source() == weighted_view(transactions@),
            tree.threshold() == min_support,
    {
        let ghost db = weighted_view(transactions@);
        let ghost min = min_support as nat;
        let frequencies = Self::count_items(transactions);
        let mut root: Vec<FpNode<'a>> = Vec::new();
        let mut i: usize = 0;
        proof {
            assert(db.take(0) =~= Seq::empty());
            let none = forest_view(root@);
            assert forall|p: Seq<Label>| #![trigger node_at(none, p)] node_at(none, p) is None by {
                if p.len() > 0 {
                    assert(!has_child(none, p[0]));
                }
            }
        }
        while i < transactions.len()
            invariant
                0 <= i <= transactions.len(),
                db == weighted_view(transactions@),
                min == min_support as nat,
                mass(db) <= usize::MAX,
                frequencies@ == table_of(db),
                forest_ok(forest_view(root@)),
                holds_rows(forest_view(root@), db, min, db.take(i as int)),
            decreases transactions.len() - i,
        {
            let weight = transactions[i].1;
            let row = arrange_row(&frequencies, min_support, &transactions[i].0, Ghost(db));
            let ghost before = forest_view(root@);
            let ghost arranged = labels_of(row@);
            proof {
                assert(db[i as int] == (labels_of(transactions[i as int].0@), weight as nat));
                assert(arranged == arrange(db, min, db[i as int].0));
            }
            if row.len() > 0 {
                proof {
                    assert(arranged.skip(0) =~= arranged);
                    assert forall|p: Seq<Label>|
                        p.len() > 0 && p.is_prefix_of(arranged) implies #[trigger] count_at(
                        before,
                        p,
                    ) + weight <= usize::MAX by {
                        let g = indicator(along(db, min, p));
                        assert(node_at(before, p) == node_at(before, p));
                        lemma_sum_take(db, i as int, g);
                        lemma_sum_prefix(db, i + 1, g);
                        lemma_passing_below_mass(db, min, p);
                        assert(weight * 1 == weight) by (nonlinear_arith);
                    }
                }
                add_path(&mut root, row.as_slice(), 0, weight);
            }
            proof {
                let after = forest_view(root@);
                assert forall|p: Seq<Label>| #![trigger node_at(after, p)] {
                    &&& count_at(after, p) == weighted_sum(
                        db.take(i + 1),
                        indicator(along(db, min, p)),
                    )
                    &&& present(after, p) == some_row(db.take(i + 1), along(db, min, p))
                } by {
                    let g = indicator(along(db, min, p));
                    let pred = along(db, min, p);
                    assert(node_at(before, p) == node_at(before, p));
                    lemma_sum_take(db, i as int, g);
                    assert(weight * 1 == weight) by (nonlinear_arith);
                    assert(weight * 0 == 0) by (nonlinear_arith);
                    let fewer = db.take(i as int);
                    let more = db.take(i + 1);
                    assert(some_row(more, pred) == (some_row(fewer, pred) || pred(db[i as int].0))) by {
                        if some_row(fewer, pred) {
                            let k = choose|k: int| 0 <= k < fewer.len() && pred(#[trigger] fewer[k].0);
                            assert(more[k] == fewer[k]);
                        }
                        if pred(db[i as int].0) {
                            assert(more[i as int] == db[i as int]);
                        }
                        if some_row(more, pred) {
                            let k = choose|k: int| 0 <= k < more.len() && pred(#[trigger] more[k].0);
                            if k < i {
                                assert(fewer[k] == more[k]);
                            }
                        }
                    }
                    if row.len() > 0 {
                        assert(arranged.skip(0) =~= arranged);
                        assert(grown(before, after, arranged, weight as nat));
                    }
                }
            }
            i += 1;
        }
        assert(db.take(i as int) =~= db);
        FpTree { root, frequencies, min_support, source: Ghost(db) }
    }

    /// The conditional tree of `item`: the tree of the paths that lead to
    /// the nodes of `item`, each with the count of its node.
    pub fn build_conditional_tree(&self, item: &str) -> (tree: FpTree<'a>)
        requires
            self.well_formed(),
        ensures
            tree.well_formed(),
            tree.source() == conditional(self.source(), self.threshold(), item@),
            tree.threshold() == self.threshold(),
    {
        let path: Vec<&'a str> = Vec::new();
        let lists = collect_paths(&self.root, item, &path);
        let ghost found = weighted_view(lists@);
        let ghost wanted = conditional(self.source(), self.threshold(), item@);
        proof {
            let forest = self.forest();
            let none = Seq::<Label>::empty();
            assert(labels_of(path@) =~= none);
            assert(forest.take(forest.len() as int) =~= forest);
            assert forall|q: Seq<Label>|
                #![trigger weight_of(found, q)]
                #![trigger weight_of(wanted, q)]
                #![trigger some_row(found, equal_to(q))]
                #![trigger some_row(wanted, equal_to(q))]
                weight_of(found, q) == weight_of(wanted, q) && some_row(found, equal_to(q))
                    == some_row(wanted, equal_to(q)) by {
                lemma_forest_paths(forest, item@, none, forest.len(), q);
                lemma_conditional_weight(self.source(), self.threshold(), item@, q);
                assert(none.is_prefix_of(q));
                assert(q.skip(0) =~= q);
                let p = q.push(item@);
                assert(node_at(forest, p) == node_at(forest, p));
            }
            assert(same_rows(found, wanted));
            lemma_same_rows_counts(found, wanted, item@);
            lemma_conditional_size(self.source(), self.threshold(), item@);
        }
        let built = Self::build_fp_tree(lists.as_slice(), self.min_support);
        proof {
            lemma_same_rows_table(found, wanted);
            let forest = built.forest();
            assert forall|p: Seq<Label>| #![trigger node_at(forest, p)] {
                &&& count_at(forest, p) == weighted_sum(
                    wanted,
                    indicator(along(wanted, self.threshold(), p)),
                )
                &&& present(forest, p) == some_row(wanted, along(wanted, self.threshold(), p))
            } by {
                lemma_same_rows_paths(found, wanted, self.threshold(), p);
                assert(node_at(forest, p) == node_at(forest, p));
            }
        }
        FpTree {
            root: built.root,
            frequencies: built.frequencies,
            min_support: built.min_support,
            source: Ghost(wanted),
        }
    }

    /// The count of the node at the end of a path from the root: the
    /// weight of the rows whose arranged form starts with that path.
    pub fn path_count(&self, path: &[&str]) -> (count: usize)
        requires
            self.well_formed(),
        ensures
            count == passing(self.source(), self.threshold(), labels_of(path@)),
    {
        let ghost p = labels_of(path@);
        proof {
            assert(p.skip(0) =~= p);
            assert(node_at(self.forest(), p) == node_at(self.forest(), p));
        }
        count_along(&self.root, path, 0)
    }

    /// The minimum support that the tree was built with.
    pub fn min_support(&self) -> (min_support: usize)
        ensures
            min_support == self.threshold(),
    {
        self.min_support
    }

    /// The frequency table of the database that the tree was built from.
    pub fn frequencies(&self) -> (table: &FrequencyTable<'a>)
        ensures
            table@ == self.table(),
    {
        &self.frequencies
    }
}

} // verus!
