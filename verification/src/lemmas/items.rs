//! Facts about the items of a database in label order, and about its
//! frequency table.

use crate::database::{
    frequency, holding, insert_label, mentions, merge_labels, sorted_items, table_of, Database,
};
use crate::label::{
    label_before, lemma_label_asymmetric, lemma_label_connected, lemma_label_irreflexive,
    lemma_label_transitive, strictly_increasing, Label,
};
use crate::lemmas::sums::{lemma_count_bounds, lemma_frequency_blank, lemma_frequency_extend};
use crate::table::{counted, keys_of, ordered, tally};
use vstd::prelude::*;

verus! {

/// The front of a strictly increasing sequence is strictly increasing.
pub proof fn lemma_increasing_front(keys: Seq<Label>)
    requires
        strictly_increasing(keys),
        keys.len() > 0,
    ensures
        strictly_increasing(keys.drop_last()),
{
    let front = keys.drop_last();
    assert forall|i: int, j: int| 0 <= i < j < front.len() implies label_before(
        #[trigger] front[i],
        #[trigger] front[j],
    ) by {
        assert(front[i] == keys[i] && front[j] == keys[j]);
    }
}

/// A strictly increasing sequence stays so with a larger label at its end.
pub proof fn lemma_increasing_push(keys: Seq<Label>, x: Label)
    requires
        strictly_increasing(keys),
        forall|i: int| 0 <= i < keys.len() ==> label_before(#[trigger] keys[i], x),
    ensures
        strictly_increasing(keys.push(x)),
{
    let more = keys.push(x);
    assert forall|i: int, j: int| 0 <= i < j < more.len() implies label_before(
        #[trigger] more[i],
        #[trigger] more[j],
    ) by {
        assert(more[i] == keys[i]);
        if j < keys.len() {
            assert(more[j] == keys[j]);
        }
    }
}

/// Inserting a label keeps the order and adds that label only.
pub proof fn lemma_insert_label(keys: Seq<Label>, x: Label)
    requires
        strictly_increasing(keys),
    ensures
        strictly_increasing(insert_label(keys, x)),
        forall|y: Label|
            #![trigger insert_label(keys, x).contains(y)]
            #![trigger keys.contains(y)]
            insert_label(keys, x).contains(y) <==> keys.contains(y) || y == x,
    decreases keys.len(),
{
    let result = insert_label(keys, x);
    if keys.len() == 0 {
        assert(result[0] == x);
        assert forall|y: Label| result.contains(y) <==> keys.contains(y) || y == x by {}
    } else {
        let last = keys.last();
        let front = keys.drop_last();
        assert(keys[keys.len() - 1] == last);
        if last == x {
        } else if label_before(last, x) {
            assert forall|i: int| 0 <= i < keys.len() implies label_before(#[trigger] keys[i], x) by {
                if i < keys.len() - 1 {
                    assert(label_before(keys[i], keys[keys.len() - 1]));
                    lemma_label_transitive(keys[i], last, x);
                }
            }
            lemma_increasing_push(keys, x);
            assert(result[keys.len() as int] == x);
            assert forall|y: Label| result.contains(y) <==> keys.contains(y) || y == x by {
                if keys.contains(y) {
                    let i = choose|i: int| 0 <= i < keys.len() && keys[i] == y;
                    assert(result[i] == y);
                }
                if result.contains(y) {
                    let i = choose|i: int| 0 <= i < result.len() && result[i] == y;
                    if i < keys.len() {
                        assert(keys[i] == y);
                    }
                }
            }
        } else {
            lemma_increasing_front(keys);
            lemma_insert_label(front, x);
            let inner = insert_label(front, x);
            lemma_label_connected(last, x);
            assert forall|i: int| 0 <= i < inner.len() implies label_before(
                #[trigger] inner[i],
                last,
            ) by {
                assert(inner.contains(inner[i]));
                if inner[i] != x {
                    assert(front.contains(inner[i]));
                    let k = choose|k: int| 0 <= k < front.len() && front[k] == inner[i];
                    assert(label_before(keys[k], keys[keys.len() - 1]));
                }
            }
            lemma_increasing_push(inner, last);
            assert forall|y: Label| result.contains(y) <==> keys.contains(y) || y == x by {
                if result.contains(y) {
                    let i = choose|i: int| 0 <= i < result.len() && result[i] == y;
                    if i < inner.len() {
                        assert(inner[i] == y);
                        assert(inner.contains(y));
                        if y != x {
                            let k = choose|k: int| 0 <= k < front.len() && front[k] == y;
                            assert(keys[k] == y);
                        }
                    }
                }
                if keys.contains(y) {
                    let k = choose|k: int| 0 <= k < keys.len() && keys[k] == y;
                    if k < front.len() {
                        assert(front[k] == y);
                        assert(inner.contains(y));
                        let i = choose|i: int| 0 <= i < inner.len() && inner[i] == y;
                        assert(result[i] == y);
                    } else {
                        assert(result[inner.len() as int] == y);
                    }
                }
                if y == x {
                    assert(inner.contains(x));
                    let i = choose|i: int| 0 <= i < inner.len() && inner[i] == x;
                    assert(result[i] == x);
                }
            }
        }
    }
}

/// Merging the items of a row keeps the order and adds those items only.
pub proof fn lemma_merge_labels(keys: Seq<Label>, t: Seq<Label>)
    requires
        strictly_increasing(keys),
    ensures
        strictly_increasing(merge_labels(keys, t)),
        forall|y: Label|
            #![trigger merge_labels(keys, t).contains(y)]
            #![trigger keys.contains(y)]
            #![trigger t.contains(y)]
            merge_labels(keys, t).contains(y) <==> keys.contains(y) || t.contains(y),
    decreases t.len(),
{
    if t.len() > 0 {
        let front = t.drop_last();
        lemma_merge_labels(keys, front);
        lemma_insert_label(merge_labels(keys, front), t.last());
        assert forall|y: Label| merge_labels(keys, t).contains(y) <==> keys.contains(y)
            || t.contains(y) by {
            if front.contains(y) {
                let i = choose|i: int| 0 <= i < front.len() && front[i] == y;
                assert(t[i] == y);
            }
            if t.contains(y) {
                let i = choose|i: int| 0 <= i < t.len() && t[i] == y;
                if i < front.len() {
                    assert(front[i] == y);
                }
            }
            assert(t[t.len() - 1] == t.last());
        }
    } else {
        assert forall|y: Label| !t.contains(y) by {}
    }
}

/// A further row is mentioned with what was mentioned before.
pub proof fn lemma_mentions_push(db: Database, row: (Seq<Label>, nat), y: Label)
    ensures
        mentions(db.push(row), y) <==> mentions(db, y) || row.0.contains(y),
{
    let more = db.push(row);
    if mentions(db, y) {
        let i = choose|i: int| 0 <= i < db.len() && holding(y)(#[trigger] db[i].0);
        assert(more[i] == db[i]);
    }
    if row.0.contains(y) {
        assert(more[db.len() as int] == row);
    }
    if mentions(more, y) {
        let i = choose|i: int| 0 <= i < more.len() && holding(y)(#[trigger] more[i].0);
        if i < db.len() {
            assert(more[i] == db[i]);
        }
    }
}

/// The sorted items of a database are its items, each once, in label order.
pub proof fn lemma_sorted_items(db: Database)
    ensures
        strictly_increasing(sorted_items(db)),
        forall|y: Label|
            #![trigger sorted_items(db).contains(y)]
            #![trigger mentions(db, y)]
            sorted_items(db).contains(y) <==> mentions(db, y),
    decreases db.len(),
{
    if db.len() > 0 {
        let front = db.drop_last();
        lemma_sorted_items(front);
        lemma_merge_labels(sorted_items(front), db.last().0);
        assert(db =~= front.push(db.last()));
        assert forall|y: Label| sorted_items(db).contains(y) <==> mentions(db, y) by {
            lemma_mentions_push(front, db.last(), y);
        }
    } else {
        assert forall|y: Label| !sorted_items(db).contains(y) by {}
    }
}

/// An item that the database does not mention has frequency zero.
pub proof fn lemma_frequency_unmentioned(db: Database, y: Label)
    requires
        !mentions(db, y),
    ensures
        frequency(db, y) == 0,
    decreases db.len(),
{
    if db.len() > 0 {
        let front = db.drop_last();
        assert(db =~= front.push(db.last()));
        lemma_mentions_push(front, db.last(), y);
        lemma_frequency_unmentioned(front, y);
        lemma_count_bounds(db.last().0, y);
        assert(db.last().1 * 0 == 0) by (nonlinear_arith);
    }
}

/// Two strictly increasing sequences with the same members are equal.
pub proof fn lemma_increasing_unique(a: Seq<Label>, b: Seq<Label>)
    requires
        strictly_increasing(a),
        strictly_increasing(b),
        forall|y: Label|
            #![trigger a.contains(y)]
            #![trigger b.contains(y)]
            a.contains(y) <==> b.contains(y),
    ensures
        a == b,
    decreases a.len(),
{
    if a.len() == 0 {
        if b.len() > 0 {
            assert(b.contains(b[0]));
        }
        assert(a =~= b);
    } else if b.len() == 0 {
        assert(a.contains(a[0]));
    } else {
        let x = a.last();
        let y = b.last();
        assert(a[a.len() - 1] == x && b[b.len() - 1] == y);
        assert(a.contains(x) && b.contains(y));
        let i = choose|i: int| 0 <= i < b.len() && b[i] == x;
        let j = choose|j: int| 0 <= j < a.len() && a[j] == y;
        if x != y {
            assert(label_before(b[i], b[b.len() - 1]));
            assert(label_before(a[j], a[a.len() - 1]));
            lemma_label_asymmetric(x, y);
        }
        lemma_increasing_front(a);
        lemma_increasing_front(b);
        let fa = a.drop_last();
        let fb = b.drop_last();
        assert forall|z: Label| fa.contains(z) <==> fb.contains(z) by {
            lemma_label_irreflexive(x);
            if fa.contains(z) {
                let k = choose|k: int| 0 <= k < fa.len() && fa[k] == z;
                assert(a[k] == z && label_before(a[k], a[a.len() - 1]));
                assert(b.contains(z));
                let m = choose|m: int| 0 <= m < b.len() && b[m] == z;
                assert(fb[m] == z);
            }
            if fb.contains(z) {
                let k = choose|k: int| 0 <= k < fb.len() && fb[k] == z;
                assert(b[k] == z && label_before(b[k], b[b.len() - 1]));
                assert(a.contains(z));
                let m = choose|m: int| 0 <= m < a.len() && a[m] == z;
                assert(fa[m] == z);
            }
        }
        lemma_increasing_unique(fa, fb);
        assert(a =~= fa.push(x));
        assert(b =~= fb.push(y));
    }
}

/// The front of an ordered table is ordered.
pub proof fn lemma_ordered_front(entries: Seq<(Label, nat)>)
    requires
        ordered(entries),
        entries.len() > 0,
    ensures
        ordered(entries.drop_last()),
{
    let front = entries.drop_last();
    assert forall|i: int, j: int| 0 <= i < j < front.len() implies label_before(
        (#[trigger] front[i]).0,
        (#[trigger] front[j]).0,
    ) by {
        assert(front[i] == entries[i] && front[j] == entries[j]);
    }
}

/// An ordered table holds for each of its items the tally of its entry.
pub proof fn lemma_tally_entry(entries: Seq<(Label, nat)>, i: int)
    requires
        ordered(entries),
        0 <= i < entries.len(),
    ensures
        tally(entries, entries[i].0) == Some(entries[i].1),
    decreases entries.len(),
{
    if i < entries.len() - 1 {
        assert(label_before(entries[i].0, entries[entries.len() - 1].0));
        lemma_label_irreflexive(entries[i].0);
        lemma_ordered_front(entries);
        assert(entries.drop_last()[i] == entries[i]);
        lemma_tally_entry(entries.drop_last(), i);
    }
}

/// A table holds a tally for exactly the items among its keys.
pub proof fn lemma_tally_some(entries: Seq<(Label, nat)>, y: Label)
    ensures
        tally(entries, y) is Some <==> keys_of(entries).contains(y),
    decreases entries.len(),
{
    let keys = keys_of(entries);
    if entries.len() > 0 {
        let front = entries.drop_last();
        lemma_tally_some(front, y);
        assert(keys_of(front) =~= keys.drop_last());
        if entries.last().0 == y {
            assert(keys[keys.len() - 1] == y);
        } else {
            if keys.contains(y) {
                let i = choose|i: int| 0 <= i < keys.len() && keys[i] == y;
                assert(keys.drop_last()[i] == y);
            }
            if keys_of(front).contains(y) {
                let i = choose|i: int| 0 <= i < keys.drop_last().len() && keys.drop_last()[i] == y;
                assert(keys[i] == y);
            }
        }
    }
}

/// The keys of a table after counting for `x`.
pub proof fn lemma_counted_keys(entries: Seq<(Label, nat)>, x: Label, weight: nat)
    ensures
        keys_of(counted(entries, x, weight)) == insert_label(keys_of(entries), x),
    decreases entries.len(),
{
    let keys = keys_of(entries);
    if entries.len() == 0 {
        assert(keys_of(counted(entries, x, weight)) =~= seq![x]);
    } else {
        let front = entries.drop_last();
        assert(keys_of(front) =~= keys.drop_last());
        if entries.last().0 == x {
            assert(keys_of(counted(entries, x, weight)) =~= keys);
        } else if label_before(entries.last().0, x) {
            assert(keys_of(counted(entries, x, weight)) =~= keys.push(x));
        } else {
            lemma_counted_keys(front, x, weight);
            assert(keys_of(counted(entries, x, weight)) =~= insert_label(keys.drop_last(), x).push(
                keys.last(),
            ));
        }
    }
}

/// The tallies of a table after counting for `x`.
pub proof fn lemma_counted_tally(entries: Seq<(Label, nat)>, x: Label, weight: nat, y: Label)
    requires
        ordered(entries),
    ensures
        tally(counted(entries, x, weight), y) == if y == x {
            Some(
                match tally(entries, x) {
                    Some(n) => n + weight,
                    None => weight,
                },
            )
        } else {
            tally(entries, y)
        },
    decreases entries.len(),
{
    let after = counted(entries, x, weight);
    if entries.len() == 0 {
        assert(after.drop_last() =~= entries);
    } else {
        let front = entries.drop_last();
        let last = entries.last();
        if last.0 == x {
            assert(after.drop_last() =~= front);
        } else if label_before(last.0, x) {
            assert(after.drop_last() =~= entries);
            if y == x {
                lemma_tally_some(entries, x);
                if keys_of(entries).contains(x) {
                    let i = choose|i: int| 0 <= i < entries.len() && keys_of(entries)[i] == x;
                    if i < entries.len() - 1 {
                        assert(label_before(entries[i].0, entries[entries.len() - 1].0));
                    }
                    lemma_label_asymmetric(last.0, x);
                    lemma_label_irreflexive(x);
                }
            }
        } else {
            lemma_ordered_front(entries);
            lemma_counted_tally(front, x, weight, y);
            assert(after.drop_last() =~= counted(front, x, weight));
        }
    }
}

/// The frequency table holds for each item of the database its frequency.
pub proof fn lemma_table_tally(db: Database, y: Label)
    ensures
        ordered(table_of(db)),
        keys_of(table_of(db)) == sorted_items(db),
        tally(table_of(db), y) == if mentions(db, y) {
            Some(frequency(db, y))
        } else {
            None::<nat>
        },
{
    let table = table_of(db);
    lemma_sorted_items(db);
    assert(keys_of(table) =~= sorted_items(db));
    assert forall|i: int, j: int| 0 <= i < j < table.len() implies label_before(
        (#[trigger] table[i]).0,
        (#[trigger] table[j]).0,
    ) by {
        assert(label_before(sorted_items(db)[i], sorted_items(db)[j]));
    }
    lemma_tally_some(table, y);
    if mentions(db, y) {
        let i = choose|i: int| 0 <= i < sorted_items(db).len() && sorted_items(db)[i] == y;
        lemma_tally_entry(table, i);
    }
}

/// A row without items leaves the frequency table as it is.
pub proof fn lemma_table_blank(db: Database, weight: nat)
    ensures
        table_of(db.push((Seq::empty(), weight))) == table_of(db),
{
    let more = db.push((Seq::<Label>::empty(), weight));
    assert(more.drop_last() =~= db);
    assert(sorted_items(more) == sorted_items(db));
    assert forall|i: int| 0 <= i < sorted_items(db).len() implies frequency(
        more,
        #[trigger] sorted_items(db)[i],
    ) == frequency(db, sorted_items(db)[i]) by {
        lemma_frequency_blank(db, weight, sorted_items(db)[i]);
    }
    assert(table_of(more) =~= table_of(db));
}

/// A further item in the last row is counted in the frequency table.
pub proof fn lemma_table_extend(db: Database, t: Seq<Label>, weight: nat, x: Label)
    ensures
        table_of(db.push((t.push(x), weight))) == counted(table_of(db.push((t, weight))), x, weight),
{
    let before = db.push((t, weight));
    let after = db.push((t.push(x), weight));
    let sooner = table_of(before);
    let later = counted(sooner, x, weight);
    assert(before.drop_last() =~= db);
    assert(after.drop_last() =~= db);
    assert(t.push(x).drop_last() =~= t);
    assert(sorted_items(after) == insert_label(sorted_items(before), x));
    lemma_table_tally(before, x);
    lemma_table_tally(after, x);
    lemma_counted_keys(sooner, x, weight);
    assert(keys_of(later) == sorted_items(after));
    assert(later.len() == keys_of(later).len());
    assert forall|i: int, j: int| 0 <= i < j < later.len() implies label_before(
        (#[trigger] later[i]).0,
        (#[trigger] later[j]).0,
    ) by {
        assert(keys_of(later)[i] == later[i].0 && keys_of(later)[j] == later[j].0);
    }
    assert forall|i: int| 0 <= i < later.len() implies later[i] == table_of(after)[i] by {
        let y = later[i].0;
        assert(keys_of(later)[i] == y);
        lemma_tally_entry(later, i);
        lemma_counted_tally(sooner, x, weight, y);
        lemma_table_tally(before, y);
        lemma_frequency_extend(db, t, weight, x, y);
        if !mentions(before, y) {
            lemma_frequency_unmentioned(before, y);
            lemma_tally_some(sooner, y);
            lemma_sorted_items(before);
            lemma_insert_label(sorted_items(before), x);
            assert(sorted_items(after).contains(y));
        }
    }
    assert(later =~= table_of(after));
}

} // verus!
