//! What is proved of the item sets that mining reports: each is counted
//! with its support, which reaches the minimum support; every set whose
//! support reaches the minimum support is reported, and with it its parts;
//! no set is reported twice; and parallel mining reports what mining
//! reports.

use crate::database::{
    conditional, duplicate_free, frequency, including, indicator, mentions, outranks, positive,
    support, unit_view, weighted_view, Database,
};
use crate::label::{labels_of, Label};
use crate::lemmas::items::lemma_frequency_unmentioned;
use crate::lemmas::mined::{lemma_mined_complete, lemma_mined_distinct, lemma_mined_entry};
use crate::lemmas::sums::lemma_sum_push;
use crate::lemmas::support::{
    lemma_conditional_items, lemma_conditional_rows_kept, lemma_conditional_support,
    lemma_frequency_is_support, lemma_support_antimonotone,
};
use crate::mining::frequent_sets;
use vstd::prelude::*;

verus! {

/// No item set is reported twice.
pub proof fn lemma_reported_once(db: Database, min_support: nat, j: int, k: int)
    requires
        0 <= j < frequent_sets(db, min_support).len(),
        0 <= k < frequent_sets(db, min_support).len(),
        j != k,
    ensures
        frequent_sets(db, min_support)[j].0.to_set() != frequent_sets(db, min_support)[k].0.to_set(),
{
    let mined = frequent_sets(db, min_support);
    assert(mined[j].0.skip(0) =~= mined[j].0);
    assert(mined[k].0.skip(0) =~= mined[k].0);
    if j < k {
        lemma_mined_distinct(db, min_support, Seq::empty(), 0, j, k);
    } else {
        lemma_mined_distinct(db, min_support, Seq::empty(), 0, k, j);
    }
}

/// Every item set that mining reports for a database without duplicates in
/// its rows holds one or more different items, is counted with its
/// support, the weight of the rows that hold all its items, and that count
/// reaches the minimum support.
pub proof fn lemma_reported_sets_counted(db: Database, min_support: nat, k: int)
    requires
        duplicate_free(db),
        0 <= k < frequent_sets(db, min_support).len(),
    ensures
        frequent_sets(db, min_support)[k].0.len() > 0,
        frequent_sets(db, min_support)[k].0.no_duplicates(),
        frequent_sets(db, min_support)[k].1 == support(db, frequent_sets(db, min_support)[k].0.to_set()),
        frequent_sets(db, min_support)[k].1 >= min_support,
{
    lemma_mined_entry(db, min_support, Seq::empty(), 0, k);
    let entry = frequent_sets(db, min_support)[k];
    assert(entry.0.skip(0) =~= entry.0);
}

/// Mining reports every finite, non-empty item set whose support is
/// positive and reaches the minimum support.
pub proof fn lemma_frequent_sets_reported(db: Database, min_support: nat, items: Set<Label>)
    requires
        items.finite(),
        items.len() > 0,
        support(db, items) >= min_support,
        support(db, items) >= 1,
    ensures
        exists|k: int|
            0 <= k < frequent_sets(db, min_support).len() && (#[trigger] frequent_sets(
                db,
                min_support,
            )[k]).0.to_set() == items,
{
    let k = lemma_mined_complete(db, min_support, Seq::empty(), items);
    let entry = frequent_sets(db, min_support)[k];
    assert(entry.0.skip(0) =~= entry.0);
}

/// Every non-empty part of a reported item set is reported too, where no
/// row holds an item twice and every row has a positive weight.
pub proof fn lemma_subsets_reported(db: Database, min_support: nat, k: int, part: Set<Label>)
    requires
        duplicate_free(db),
        positive(db),
        0 <= k < frequent_sets(db, min_support).len(),
        part.subset_of(frequent_sets(db, min_support)[k].0.to_set()),
        exists|y: Label| part.contains(y),
    ensures
        exists|j: int|
            0 <= j < frequent_sets(db, min_support).len() && (#[trigger] frequent_sets(
                db,
                min_support,
            )[j]).0.to_set() == part,
{
    broadcast use vstd::set::group_set_axioms;

    let entry = frequent_sets(db, min_support)[k];
    let whole = entry.0.to_set();
    lemma_mined_entry(db, min_support, Seq::empty(), 0, k);
    assert(entry.0.skip(0) =~= entry.0);
    lemma_support_antimonotone(db, part, whole);
    vstd::seq_lib::seq_to_set_is_finite(entry.0);
    vstd::set_lib::lemma_len_subset(part, whole);
    if part.len() == 0 {
        part.lemma_len0_is_empty();
        let y = choose|y: Label| part.contains(y);
        assert(part.contains(y));
    }
    lemma_frequent_sets_reported(db, min_support, part);
}

/// The number of transactions that hold every item of `items`.
pub open spec fn holders(transactions: Seq<Vec<&str>>, items: Set<Label>) -> nat
    decreases transactions.len(),
{
    if transactions.len() == 0 {
        0
    } else {
        holders(transactions.drop_last(), items) + if items.subset_of(
            labels_of(transactions.last()@).to_set(),
        ) {
            1nat
        } else {
            0nat
        }
    }
}

/// In a list of transactions, each counted once, the support of an item
/// set is the number of transactions that hold every item of it.
pub proof fn lemma_unit_support(transactions: Seq<Vec<&str>>, items: Set<Label>)
    ensures
        support(unit_view(transactions), items) == holders(transactions, items),
    decreases transactions.len(),
{
    if transactions.len() > 0 {
        let front = transactions.drop_last();
        let row = (labels_of(transactions.last()@), 1nat);
        lemma_unit_support(front, items);
        assert(unit_view(transactions) =~= unit_view(front).push(row));
        lemma_sum_push(unit_view(front), row, indicator(including(items)));
        let held = indicator(including(items))(row.0);
        assert(1 * held == held) by (nonlinear_arith);
        assert(held == if items.subset_of(row.0.to_set()) { 1nat } else { 0nat });
    } else {
        assert(unit_view(transactions) =~= Seq::empty());
    }
}

/// Single-threaded and parallel mining report the same item sets with the
/// same counts: what each of them returns is the list of the frequent sets
/// of the transactions, so the two lists agree entry by entry.
pub proof fn lemma_parallel_agrees(
    transactions: Seq<Vec<&str>>,
    min_support: nat,
    sequential: Seq<(Vec<&str>, usize)>,
    parallel: Seq<(Vec<&str>, usize)>,
)
    requires
        weighted_view(sequential) == frequent_sets(unit_view(transactions), min_support),
        weighted_view(parallel) == frequent_sets(unit_view(transactions), min_support),
    ensures
        weighted_view(sequential) == weighted_view(parallel),
        weighted_view(sequential).to_multiset() == weighted_view(parallel).to_multiset(),
        sequential.len() == parallel.len(),
        forall|k: int|
            0 <= k < sequential.len() ==> labels_of((#[trigger] sequential[k]).0@) == labels_of(
                parallel[k].0@,
            ) && sequential[k].1 == parallel[k].1,
{
    assert(weighted_view(sequential).len() == sequential.len());
    assert(weighted_view(parallel).len() == parallel.len());
    assert forall|k: int| 0 <= k < sequential.len() implies labels_of(
        (#[trigger] sequential[k]).0@,
    ) == labels_of(parallel[k].0@) && sequential[k].1 == parallel[k].1 by {
        assert(weighted_view(sequential)[k] == (labels_of(sequential[k].0@), sequential[k].1 as nat));
        assert(weighted_view(parallel)[k] == (labels_of(parallel[k].0@), parallel[k].1 as nat));
    }
}

/// A list of transactions, each counted once, has positive weights.
pub proof fn lemma_unit_view_positive(transactions: Seq<Vec<&str>>)
    ensures
        positive(unit_view(transactions)),
{
}

/// The frequencies of the conditional database of a frequent item `x`, in a
/// database without duplicates in its rows: an item that is frequent and
/// outranks `x` is counted with the weight of the rows that hold both it
/// and `x`; no other item is counted.
pub proof fn lemma_conditional_frequency(db: Database, min_support: nat, x: Label, y: Label)
    requires
        duplicate_free(db),
        frequency(db, x) >= min_support,
    ensures
        frequency(conditional(db, min_support, x), y) == if frequency(db, y) >= min_support
            && outranks(db, y, x) {
            support(db, set![x, y])
        } else {
            0
        },
{
    broadcast use vstd::set::group_set_axioms;

    let below = conditional(db, min_support, x);
    if frequency(db, y) >= min_support && outranks(db, y, x) {
        lemma_conditional_rows_kept(db, min_support, x);
        lemma_frequency_is_support(below, y);
        assert forall|z: Label| #[trigger] set![y].contains(z) implies frequency(db, z)
            >= min_support && outranks(db, z, x) by {}
        lemma_conditional_support(db, min_support, x, set![y]);
        assert(set![y].insert(x) =~= set![x, y]);
    } else {
        if mentions(below, y) {
            lemma_conditional_items(db, min_support, x, y);
        }
        lemma_frequency_unmentioned(below, y);
    }
}

/// Every item set that mining reports is counted with a count that reaches
/// the minimum support.
pub proof fn lemma_counts_reach_minimum_support(db: Database, min_support: nat, k: int)
    requires
        0 <= k < frequent_sets(db, min_support).len(),
    ensures
        frequent_sets(db, min_support)[k].1 >= min_support,
{
    lemma_mined_entry(db, min_support, Seq::empty(), 0, k);
}

/// For transactions that hold no item twice, the count of every reported
/// item set is the number of transactions that hold all its items.
pub proof fn lemma_counts_are_holders(transactions: Seq<Vec<&str>>, min_support: nat, k: int)
    requires
        duplicate_free(unit_view(transactions)),
        0 <= k < frequent_sets(unit_view(transactions), min_support).len(),
    ensures
        frequent_sets(unit_view(transactions), min_support)[k].1 == holders(
            transactions,
            frequent_sets(unit_view(transactions), min_support)[k].0.to_set(),
        ),
{
    let db = unit_view(transactions);
    lemma_reported_sets_counted(db, min_support, k);
    lemma_unit_support(transactions, frequent_sets(db, min_support)[k].0.to_set());
}

/// Every finite, non-empty item set that one transaction at least holds,
/// and as many as the minimum support asks for, is reported.
pub proof fn lemma_held_sets_reported(
    transactions: Seq<Vec<&str>>,
    min_support: nat,
    items: Set<Label>,
)
    requires
        items.finite(),
        items.len() > 0,
        holders(transactions, items) >= min_support,
        holders(transactions, items) >= 1,
    ensures
        exists|k: int|
            0 <= k < frequent_sets(unit_view(transactions), min_support).len() && (
            #[trigger] frequent_sets(unit_view(transactions), min_support)[k]).0.to_set() == items,
{
    lemma_unit_support(transactions, items);
    lemma_frequent_sets_reported(unit_view(transactions), min_support, items);
}

/// For transactions that hold no item twice, every non-empty part of a
/// reported item set is reported too.
pub proof fn lemma_parts_reported(
    transactions: Seq<Vec<&str>>,
    min_support: nat,
    k: int,
    part: Set<Label>,
)
    requires
        duplicate_free(unit_view(transactions)),
        0 <= k < frequent_sets(unit_view(transactions), min_support).len(),
        part.subset_of(frequent_sets(unit_view(transactions), min_support)[k].0.to_set()),
        exists|y: Label| part.contains(y),
    ensures
        exists|j: int|
            0 <= j < frequent_sets(unit_view(transactions), min_support).len() && (
            #[trigger] frequent_sets(unit_view(transactions), min_support)[j]).0.to_set() == part,
{
    lemma_unit_view_positive(transactions);
    lemma_subsets_reported(unit_view(transactions), min_support, k, part);
}

} // verus!
