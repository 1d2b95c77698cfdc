//! The mathematical model of a transaction database.
//!
//! A database is a sequence of rows; a row is a sequence of item labels with
//! the number of transactions that it stands for. Everything that the mining
//! functions compute is stated over the spec functions of this module.

use crate::label::{label_before, labels_of, Label};
use vstd::prelude::*;

verus! {

/// A weighted database: each row holds the items of a transaction and the
/// number of times that the transaction occurs.
pub type Database = Seq<(Seq<Label>, nat)>;

/// The database that a list of weighted transactions stands for.
pub open spec fn weighted_view(list: Seq<(Vec<&str>, usize)>) -> Database {
    Seq::new(list.len(), |i: int| (labels_of(list[i].0@), list[i].1 as nat))
}

/// The database that a list of transactions stands for: each one counts once.
pub open spec fn unit_view(transactions: Seq<Vec<&str>>) -> Database {
    Seq::new(transactions.len(), |i: int| (labels_of(transactions[i]@), 1nat))
}

/// How often `x` occurs in `t`.
pub open spec fn count_in(t: Seq<Label>, x: Label) -> nat
    decreases t.len(),
{
    if t.len() == 0 {
        0
    } else {
        count_in(t.drop_last(), x) + if t.last() == x { 1nat } else { 0nat }
    }
}

/// The sum of `g` over the rows of `db`, each row taken as often as its
/// weight says.
pub open spec fn weighted_sum(db: Database, g: spec_fn(Seq<Label>) -> nat) -> nat
    decreases db.len(),
{
    if db.len() == 0 {
        0
    } else {
        weighted_sum(db.drop_last(), g) + db.last().1 * g(db.last().0)
    }
}

/// Some row of `db` satisfies `pred`.
pub open spec fn some_row(db: Database, pred: spec_fn(Seq<Label>) -> bool) -> bool {
    exists|i: int| 0 <= i < db.len() && pred(#[trigger] db[i].0)
}

/// How often `x` occurs in a row.
pub open spec fn occurrences_of(x: Label) -> spec_fn(Seq<Label>) -> nat {
    |t: Seq<Label>| count_in(t, x)
}

/// The number of items of a row.
pub open spec fn length_of() -> spec_fn(Seq<Label>) -> nat {
    |t: Seq<Label>| t.len()
}

/// The row holds the items `s` in this order, and no others.
pub open spec fn equal_to(s: Seq<Label>) -> spec_fn(Seq<Label>) -> bool {
    |t: Seq<Label>| t == s
}

/// The row holds `x`.
pub open spec fn holding(x: Label) -> spec_fn(Seq<Label>) -> bool {
    |t: Seq<Label>| t.contains(x)
}

/// The row holds every item of `items`.
pub open spec fn including(items: Set<Label>) -> spec_fn(Seq<Label>) -> bool {
    |t: Seq<Label>| items.subset_of(t.to_set())
}

/// One where `pred` holds, zero elsewhere.
pub open spec fn indicator(pred: spec_fn(Seq<Label>) -> bool) -> spec_fn(Seq<Label>) -> nat {
    |t: Seq<Label>| if pred(t) { 1nat } else { 0nat }
}

/// The frequency of `x`: the weighted number of its occurrences in `db`.
pub open spec fn frequency(db: Database, x: Label) -> nat {
    weighted_sum(db, occurrences_of(x))
}

/// The weighted number of item occurrences in `db`.
pub open spec fn mass(db: Database) -> nat {
    weighted_sum(db, length_of())
}

/// The total weight of the rows of `db` whose items are exactly `s`.
pub open spec fn weight_of(db: Database, s: Seq<Label>) -> nat {
    weighted_sum(db, indicator(equal_to(s)))
}

/// `x` occurs in some row of `db`.
pub open spec fn mentions(db: Database, x: Label) -> bool {
    some_row(db, holding(x))
}

/// The support of an item set: the weighted number of rows that hold every
/// item of it.
pub open spec fn support(db: Database, items: Set<Label>) -> nat {
    weighted_sum(db, indicator(including(items)))
}

/// No row holds an item twice.
pub open spec fn duplicate_free(db: Database) -> bool {
    forall|i: int| 0 <= i < db.len() ==> (#[trigger] db[i]).0.no_duplicates()
}

/// Every row of `db` has a weight of one at least.
pub open spec fn positive(db: Database) -> bool {
    forall|i: int| 0 <= i < db.len() ==> (#[trigger] db[i]).1 >= 1
}

/// Two databases with the same rows, up to their order and to the splitting
/// of a row's weight over several rows.
pub open spec fn same_rows(a: Database, b: Database) -> bool {
    forall|s: Seq<Label>|
        #![trigger weight_of(a, s)]
        #![trigger weight_of(b, s)]
        #![trigger some_row(a, equal_to(s))]
        #![trigger some_row(b, equal_to(s))]
        weight_of(a, s) == weight_of(b, s) && some_row(a, equal_to(s)) == some_row(b, equal_to(s))
}

/// `keys` with `x` added at its place, unless it is there already.
pub open spec fn insert_label(keys: Seq<Label>, x: Label) -> Seq<Label>
    decreases keys.len(),
{
    if keys.len() == 0 {
        seq![x]
    } else if keys.last() == x {
        keys
    } else if label_before(keys.last(), x) {
        keys.push(x)
    } else {
        insert_label(keys.drop_last(), x).push(keys.last())
    }
}

/// `keys` with every item of `t` added.
pub open spec fn merge_labels(keys: Seq<Label>, t: Seq<Label>) -> Seq<Label>
    decreases t.len(),
{
    if t.len() == 0 {
        keys
    } else {
        insert_label(merge_labels(keys, t.drop_last()), t.last())
    }
}

/// The items that `db` mentions, each once, in label order.
pub open spec fn sorted_items(db: Database) -> Seq<Label>
    decreases db.len(),
{
    if db.len() == 0 {
        Seq::empty()
    } else {
        merge_labels(sorted_items(db.drop_last()), db.last().0)
    }
}

/// The frequency table of `db`: its items in label order, each with its
/// frequency.
pub open spec fn table_of(db: Database) -> Seq<(Label, nat)> {
    Seq::new(
        sorted_items(db).len(),
        |i: int| (sorted_items(db)[i], frequency(db, sorted_items(db)[i])),
    )
}

/// `a` comes before `b` in a row prepared for the tree: the more frequent
/// item first, and of two equally frequent items the one with the smaller
/// label.
pub open spec fn outranks(db: Database, a: Label, b: Label) -> bool {
    frequency(db, a) > frequency(db, b) || (frequency(db, a) == frequency(db, b) && label_before(
        a,
        b,
    ))
}

/// `s` with `x` put behind the last item that `x` does not outrank.
pub open spec fn place(db: Database, s: Seq<Label>, x: Label) -> Seq<Label>
    decreases s.len(),
{
    if s.len() == 0 {
        seq![x]
    } else if outranks(db, x, s.last()) {
        place(db, s.drop_last(), x).push(s.last())
    } else {
        s.push(x)
    }
}

/// The row as the tree holds it: the items of `t` whose frequency reaches
/// `min_support`, ordered by falling frequency and then by label.
pub open spec fn arrange(db: Database, min_support: nat, t: Seq<Label>) -> Seq<Label>
    decreases t.len(),
{
    if t.len() == 0 {
        Seq::empty()
    } else if frequency(db, t.last()) >= min_support {
        place(db, arrange(db, min_support, t.drop_last()), t.last())
    } else {
        arrange(db, min_support, t.drop_last())
    }
}

/// The items of `a` in front of the first `x`; all of `a` where it holds no `x`.
pub open spec fn prefix_before(a: Seq<Label>, x: Label) -> Seq<Label>
    decreases a.len(),
{
    if a.len() == 0 || a[0] == x {
        Seq::empty()
    } else {
        seq![a[0]] + prefix_before(a.drop_first(), x)
    }
}

/// The arranged row of `t` starts with the non-empty path `p`.
pub open spec fn along(db: Database, min_support: nat, p: Seq<Label>) -> spec_fn(Seq<Label>) -> bool {
    |t: Seq<Label>| p.len() > 0 && p.is_prefix_of(arrange(db, min_support, t))
}

/// The weight of the rows of `db` whose arranged form starts with `p`:
/// the count of the tree node at the end of the path `p`.
pub open spec fn passing(db: Database, min_support: nat, p: Seq<Label>) -> nat {
    weighted_sum(db, indicator(along(db, min_support, p)))
}

/// Some arranged row of `db` starts with `p`: the tree has a node at the end
/// of the path `p`.
pub open spec fn reaching(db: Database, min_support: nat, p: Seq<Label>) -> bool {
    some_row(db, along(db, min_support, p))
}

/// The rows of the conditional database of `x` that come from `rows`, each
/// arranged by the frequencies of `db`.
pub open spec fn conditional_rows(
    db: Database,
    min_support: nat,
    x: Label,
    rows: Database,
) -> Database
    decreases rows.len(),
{
    if rows.len() == 0 {
        Seq::empty()
    } else {
        let rest = conditional_rows(db, min_support, x, rows.drop_last());
        let a = arrange(db, min_support, rows.last().0);
        if a.contains(x) {
            rest.push((prefix_before(a, x), rows.last().1))
        } else {
            rest
        }
    }
}

/// The conditional database of `x`: of each arranged row that holds `x`, the
/// items in front of `x`, with the row's weight.
pub open spec fn conditional(db: Database, min_support: nat, x: Label) -> Database {
    conditional_rows(db, min_support, x, db)
}

/// The number of item occurrences in `db`, weights left aside.
pub open spec fn volume(db: Database) -> nat
    decreases db.len(),
{
    if db.len() == 0 {
        0
    } else {
        volume(db.drop_last()) + db.last().0.len()
    }
}

} // verus!
