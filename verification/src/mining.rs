//! Mining the frequent item sets of a database.

use crate::database::{
    conditional, frequency, length_of, mass, sorted_items, table_of, unit_view, volume,
    weighted_view, Database,
};
use crate::label::{labels_of, Label};
use crate::lemmas::conditional::lemma_conditional_size;
use crate::lemmas::items::lemma_sorted_items;
use crate::lemmas::sums::{lemma_mass_prefix, lemma_sum_take};
use crate::node::copy_items;
use crate::tree::FpTree;
use vstd::prelude::*;

verus! {

/// The item sets that mining finds from the `i`-th item of `db` on, in label
/// order: each frequent item `x` gives the set `path` with `x`, counted
/// with the frequency of `x`, and then what mining finds in the conditional
/// database of `x` with that set as its path.
pub open spec fn mine_from(db: Database, min_support: nat, path: Seq<Label>, i: nat) -> Database
    decreases volume(db), sorted_items(db).len() - i,
{
    let keys = sorted_items(db);
    if i >= keys.len() {
        Seq::empty()
    } else {
        let x = keys[i as int];
        let rest = mine_from(db, min_support, path, i + 1);
        if frequency(db, x) >= min_support {
            proof {
                lemma_sorted_items(db);
                assert(keys.contains(x));
                lemma_conditional_size(db, min_support, x);
            }
            seq![(path.push(x), frequency(db, x))] + mine_from(
                conditional(db, min_support, x),
                min_support,
                path.push(x),
                0,
            ) + rest
        } else {
            rest
        }
    }
}

/// What mining finds for one item `x` of `db`: where `x` is frequent, the
/// set `path` with `x` and what the conditional database of `x` gives for
/// that set; else nothing.
pub open spec fn branch_sets(db: Database, min_support: nat, path: Seq<Label>, x: Label) -> Database {
    if frequency(db, x) >= min_support {
        seq![(path.push(x), frequency(db, x))] + mine_from(
            conditional(db, min_support, x),
            min_support,
            path.push(x),
            0,
        )
    } else {
        Seq::empty()
    }
}

/// Mining from the `i`-th item on finds what it finds for that item, and
/// then what it finds from the next item on.
pub proof fn lemma_mine_step(db: Database, min_support: nat, path: Seq<Label>, i: nat)
    requires
        i < sorted_items(db).len(),
    ensures
        mine_from(db, min_support, path, i) == branch_sets(
            db,
            min_support,
            path,
            sorted_items(db)[i as int],
        ) + mine_from(db, min_support, path, i + 1),
{
    let x = sorted_items(db)[i as int];
    let rest = mine_from(db, min_support, path, i + 1);
    assert(mine_from(db, min_support, path, i) =~= branch_sets(db, min_support, path, x) + rest);
}

/// The frequent item sets of `db`, each with its count, in the order in
/// which mining finds them.
pub open spec fn frequent_sets(db: Database, min_support: nat) -> Database {
    mine_from(db, min_support, Seq::empty(), 0)
}

/// Mines a tree: for every item of its frequency table that reaches the
/// minimum support, in label order, the item set `path` with that item and
/// the item's frequency, followed by what the item's conditional tree
/// gives for that set.
pub fn fp_growth_tree<'a>(fp_tree: &FpTree<'a>, path: Vec<&'a str>) -> (found: Vec<
    (Vec<&'a str>, usize),
>)
    requires
        fp_tree.well_formed(),
    ensures
        weighted_view(found@) == mine_from(
            fp_tree.source(),
            fp_tree.threshold(),
            labels_of(path@),
            0,
        ),
    decreases volume(fp_tree.source()),
{
    let ghost db = fp_tree.source();
    let ghost min = fp_tree.threshold();
    let ghost steps = labels_of(path@);
    let table = fp_tree.frequencies();
    let min_support = fp_tree.min_support();
    let mut found: Vec<(Vec<&'a str>, usize)> = Vec::new();
    let mut i: usize = 0;
    assert(weighted_view(found@) =~= Seq::empty());
    assert(Seq::<(Seq<Label>, nat)>::empty() + mine_from(db, min, steps, 0) =~= mine_from(
        db,
        min,
        steps,
        0,
    ));
    while i < table.len()
        invariant
            0 <= i <= table@.len(),
            fp_tree.well_formed(),
            db == fp_tree.source(),
            min == fp_tree.threshold(),
            min == min_support,
            steps == labels_of(path@),
            table@ == table_of(db),
            weighted_view(found@) + mine_from(db, min, steps, i as nat) == mine_from(
                db,
                min,
                steps,
                0,
            ),
        decreases table@.len() - i,
    {
        let item = table.key(i);
        let frequency = table.count(i);
        let ghost sooner = weighted_view(found@);
        let ghost rest = mine_from(db, min, steps, (i + 1) as nat);
        if frequency >= min_support {
            let mut extended = copy_items(&path);
            extended.push(item);
            let ghost longer = steps.push(item@);
            assert(labels_of(extended@) =~= longer);
            let ghost before = found@;
            found.push((copy_items(&extended), frequency));
            let conditional_tree = fp_tree.build_conditional_tree(item);
            proof {
                lemma_sorted_items(db);
                assert(sorted_items(db).contains(sorted_items(db)[i as int]));
                lemma_conditional_size(db, min, item@);
            }
            let mut below = fp_growth_tree(&conditional_tree, extended);
            let ghost middle = found@;
            let ghost deeper = below@;
            found.append(&mut below);
            proof {
                let head = seq![(longer, frequency as nat)];
                assert(weighted_view(middle) =~= sooner + head);
                assert(weighted_view(found@) =~= weighted_view(middle) + weighted_view(deeper));
                assert(weighted_view(found@) + rest =~= sooner + (head + weighted_view(deeper) + rest));
            }
        }
        i += 1;
    }
    assert(weighted_view(found@) + Seq::<(Seq<Label>, nat)>::empty() =~= weighted_view(found@));
    found
}

/// The number of items in a list of transactions, where it can be counted:
/// `fp_growth` takes the lists for which this is not `None`.
pub fn total_items(transactions: &[Vec<&str>]) -> (total: Option<usize>)
    ensures
        match total {
            Some(n) => n == mass(unit_view(transactions@)),
            None => mass(unit_view(transactions@)) > usize::MAX,
        },
{
    let ghost db = unit_view(transactions@);
    let mut total: usize = 0;
    let mut i: usize = 0;
    assert(db.take(0) =~= Seq::empty());
    while i < transactions.len()
        invariant
            0 <= i <= transactions.len(),
            db == unit_view(transactions@),
            total == mass(db.take(i as int)),
        decreases transactions.len() - i,
    {
        proof {
            lemma_sum_take(db, i as int, length_of());
            lemma_mass_prefix(db, i + 1);
            assert(db[i as int].0.len() == transactions[i as int].len());
            let n = db[i as int].0.len();
            assert(1 * n == n) by (nonlinear_arith);
        }
        match total.checked_add(transactions[i].len()) {
            Some(more) => {
                total = more;
            },
            None => {
                return None;
            },
        }
        i += 1;
    }
    assert(db.take(i as int) =~= db);
    Some(total)
}

/// The frequent item sets of a list of transactions, in the order in which
/// mining finds them. Where no transaction holds an item twice, these are
/// the sets of items that at least `min_support` transactions hold together,
/// and one at least, each set once and with the number of the transactions
/// that hold it; `laws` has the proofs. An item that a transaction holds
/// twice is counted twice.
///
/// The items of all transactions together must be no more than `usize` can
/// count, which `total_items` tells.
pub fn fp_growth<'a>(transactions: &[Vec<&'a str>], min_support: usize) -> (found: Vec<
    (Vec<&'a str>, usize),
>)
    requires
        mass(unit_view(transactions@)) <= usize::MAX,
    ensures
        weighted_view(found@) == frequent_sets(unit_view(transactions@), min_support as nat),
{
    let fp_tree = FpTree::new(transactions, min_support);
    let found = fp_growth_tree(&fp_tree, Vec::new());
    assert(labels_of(Seq::<&str>::empty()) =~= Seq::<Label>::empty());
    found
}

} // verus!
