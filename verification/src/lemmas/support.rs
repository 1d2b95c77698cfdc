//! Facts about the support of item sets, in a database and in its
//! conditional databases.

use crate::database::{
    arrange, conditional, conditional_rows, count_in, duplicate_free, frequency, holding, including,
    indicator, mentions, occurrences_of, outranks, positive, prefix_before, support, weighted_sum,
    Database,
};
use crate::label::Label;
use crate::lemmas::conditional::{lemma_arrange_members, lemma_prefix_before};
use crate::lemmas::ranking::{
    lemma_arrange_ranked, lemma_outranks_asymmetric, lemma_outranks_connected,
};
use crate::lemmas::sums::{
    lemma_count_bounds, lemma_count_distinct, lemma_sum_agree, lemma_sum_monotone,
    lemma_sum_positive, lemma_sum_push,
};
use vstd::prelude::*;

verus! {

/// Where no row holds an item twice, the frequency of an item is the
/// support of the set of that item alone.
pub proof fn lemma_frequency_is_support(db: Database, x: Label)
    requires
        duplicate_free(db),
    ensures
        frequency(db, x) == support(db, set![x]),
{
    let g = occurrences_of(x);
    let h = indicator(including(set![x]));
    assert forall|i: int| 0 <= i < db.len() implies g(#[trigger] db[i].0) == h(db[i].0) by {
        let t = db[i].0;
        lemma_count_distinct(t, x);
        if t.contains(x) {
            assert forall|a: Label| set![x].contains(a) implies t.to_set().contains(a) by {}
        } else {
            assert(set![x].contains(x));
        }
    }
    lemma_sum_agree(db, g, h);
}

/// A set has at most the support of each of its parts.
pub proof fn lemma_support_antimonotone(db: Database, part: Set<Label>, whole: Set<Label>)
    requires
        part.subset_of(whole),
    ensures
        support(db, whole) <= support(db, part),
{
    let g = indicator(including(whole));
    let h = indicator(including(part));
    assert forall|i: int| 0 <= i < db.len() implies g(#[trigger] db[i].0) <= h(db[i].0) by {}
    lemma_sum_monotone(db, g, h);
}

/// An item is at least as frequent as any set that holds it is supported.
pub proof fn lemma_support_below_frequency(db: Database, items: Set<Label>, x: Label)
    requires
        items.contains(x),
    ensures
        support(db, items) <= frequency(db, x),
{
    let g = indicator(including(items));
    let h = occurrences_of(x);
    assert forall|i: int| 0 <= i < db.len() implies g(#[trigger] db[i].0) <= h(db[i].0) by {
        let t = db[i].0;
        lemma_count_bounds(t, x);
        if including(items)(t) {
            assert(t.to_set().contains(x));
        }
    }
    lemma_sum_monotone(db, g, h);
}

/// The items of a set with positive support are items of the database.
pub proof fn lemma_supported_mentioned(db: Database, items: Set<Label>, x: Label)
    requires
        items.contains(x),
        support(db, items) >= 1,
    ensures
        mentions(db, x),
{
    lemma_sum_positive(db, including(items));
    let i = choose|i: int| 0 <= i < db.len() && including(items)(#[trigger] db[i].0);
    assert(db[i].0.to_set().contains(x));
    assert(holding(x)(db[i].0));
}

/// An item of a database with positive weights has a positive frequency.
pub proof fn lemma_positive_frequency(db: Database, x: Label)
    requires
        positive(db),
        mentions(db, x),
    ensures
        frequency(db, x) >= 1,
    decreases db.len(),
{
    let i = choose|i: int| 0 <= i < db.len() && holding(x)(#[trigger] db[i].0);
    let front = db.drop_last();
    let w = db.last().1;
    let c = count_in(db.last().0, x);
    if i == db.len() - 1 {
        lemma_count_bounds(db.last().0, x);
        assert(db.last() == db[i]);
        assert(w * c >= 1) by (nonlinear_arith)
            requires
                w >= 1,
                c >= 1,
        ;
    } else {
        assert(front[i] == db[i]);
        assert forall|k: int| 0 <= k < front.len() implies (#[trigger] front[k]).1 >= 1 by {
            assert(front[k] == db[k]);
        }
        lemma_positive_frequency(front, x);
    }
}

/// Every row of a conditional database comes from a row whose arranged
/// form holds the item, and is what stands in front of the item there.
pub proof fn lemma_conditional_origin(
    db: Database,
    min_support: nat,
    x: Label,
    rows: Database,
    k: int,
) -> (i: int)
    requires
        0 <= k < conditional_rows(db, min_support, x, rows).len(),
    ensures
        0 <= i < rows.len(),
        arrange(db, min_support, rows[i].0).contains(x),
        conditional_rows(db, min_support, x, rows)[k] == (
            prefix_before(arrange(db, min_support, rows[i].0), x),
            rows[i].1,
        ),
    decreases rows.len(),
{
    let front = rows.drop_last();
    let rest = conditional_rows(db, min_support, x, front);
    if k < rest.len() {
        let i = lemma_conditional_origin(db, min_support, x, front, k);
        assert(front[i] == rows[i]);
        i
    } else {
        rows.len() - 1
    }
}

/// The items of the conditional database of `x` are frequent items of the
/// database that outrank `x`.
pub proof fn lemma_conditional_items(db: Database, min_support: nat, x: Label, y: Label)
    requires
        mentions(conditional(db, min_support, x), y),
    ensures
        mentions(db, y),
        frequency(db, y) >= min_support,
        outranks(db, y, x),
        y != x,
{
    let found = conditional(db, min_support, x);
    let k = choose|k: int| 0 <= k < found.len() && holding(y)(#[trigger] found[k].0);
    let i = lemma_conditional_origin(db, min_support, x, db, k);
    let t = db[i].0;
    let a = arrange(db, min_support, t);
    let q = prefix_before(a, x);
    lemma_prefix_before(a, x);
    lemma_arrange_members(db, min_support, t);
    lemma_arrange_ranked(db, min_support, t);
    let n = choose|n: int| 0 <= n < q.len() && q[n] == y;
    assert(q.push(x).is_prefix_of(a));
    assert(a[n] == q.push(x)[n]);
    assert(a[q.len() as int] == q.push(x)[q.len() as int]);
    assert(a.contains(y));
    assert(q.contains(y));
    assert(holding(y)(db[i].0));
    assert(!outranks(db, a[q.len() as int], a[n]));
    lemma_outranks_connected(db, y, x);
}

/// The conditional database of a database without duplicates in its rows
/// has none either, and positive weights where the database has.
pub proof fn lemma_conditional_rows_kept(db: Database, min_support: nat, x: Label)
    ensures
        duplicate_free(db) ==> duplicate_free(conditional(db, min_support, x)),
        positive(db) ==> positive(conditional(db, min_support, x)),
{
    let found = conditional(db, min_support, x);
    if duplicate_free(db) {
        assert forall|k: int| 0 <= k < found.len() implies (#[trigger] found[k]).0.no_duplicates() by {
            let i = lemma_conditional_origin(db, min_support, x, db, k);
            let a = arrange(db, min_support, db[i].0);
            let q = prefix_before(a, x);
            lemma_arrange_ranked(db, min_support, db[i].0);
            lemma_prefix_before(a, x);
            assert forall|m: int, n: int| 0 <= m < q.len() && 0 <= n < q.len() && m != n implies q[m]
                != q[n] by {
                assert(q[m] == a[m] && q[n] == a[n]);
            }
        }
    }
    if positive(db) {
        assert forall|k: int| 0 <= k < found.len() implies (#[trigger] found[k]).1 >= 1 by {
            let i = lemma_conditional_origin(db, min_support, x, db, k);
        }
    }
}

/// For items that are frequent and outrank `x`, the rows in front of `x`
/// hold them where the transactions hold them together with `x`.
pub proof fn lemma_conditional_rows_support(
    db: Database,
    min_support: nat,
    x: Label,
    items: Set<Label>,
    rows: Database,
)
    requires
        frequency(db, x) >= min_support,
        forall|y: Label|
            #[trigger] items.contains(y) ==> frequency(db, y) >= min_support && outranks(db, y, x),
    ensures
        weighted_sum(conditional_rows(db, min_support, x, rows), indicator(including(items)))
            == weighted_sum(rows, indicator(including(items.insert(x)))),
    decreases rows.len(),
{
    if rows.len() > 0 {
        let front = rows.drop_last();
        let rest = conditional_rows(db, min_support, x, front);
        let t = rows.last().0;
        let w = rows.last().1;
        let a = arrange(db, min_support, t);
        let q = prefix_before(a, x);
        lemma_conditional_rows_support(db, min_support, x, items, front);
        lemma_arrange_members(db, min_support, t);
        lemma_arrange_ranked(db, min_support, t);
        lemma_prefix_before(a, x);
        let with_x = items.insert(x);
        if a.contains(x) {
            lemma_sum_push(rest, (q, w), indicator(including(items)));
            assert(t.contains(x));
            let n = q.len() as int;
            assert(a[n] == q.push(x)[n]);
            assert(including(items)(q) == including(with_x)(t)) by {
                if including(items)(q) {
                    assert forall|y: Label| with_x.contains(y) implies t.to_set().contains(y) by {
                        if y != x {
                            assert(q.to_set().contains(y));
                            let m = choose|m: int| 0 <= m < q.len() && q[m] == y;
                            assert(a[m] == q[m]);
                            assert(a.contains(y));
                        }
                    }
                }
                if including(with_x)(t) {
                    assert forall|y: Label| items.contains(y) implies q.to_set().contains(y) by {
                        assert(with_x.contains(y));
                        assert(t.to_set().contains(y));
                        assert(outranks(db, y, x));
                        assert(a.contains(y));
                        let m = choose|m: int| 0 <= m < a.len() && a[m] == y;
                        lemma_outranks_asymmetric(db, y, x);
                        if m > n {
                            assert(!outranks(db, a[m], a[n]));
                        }
                        assert(m < n);
                        assert(q[m] == a[m]);
                    }
                }
            }
        } else {
            assert(!including(with_x)(t)) by {
                if including(with_x)(t) {
                    assert(with_x.contains(x));
                    assert(t.to_set().contains(x));
                }
            }
            assert(w * 0 == 0) by (nonlinear_arith);
        }
    }
}

/// In the conditional database of a frequent item `x`, a set of frequent
/// items that outrank `x` has the support that the set with `x` has in the
/// database.
pub proof fn lemma_conditional_support(db: Database, min_support: nat, x: Label, items: Set<Label>)
    requires
        frequency(db, x) >= min_support,
        forall|y: Label|
            #[trigger] items.contains(y) ==> frequency(db, y) >= min_support && outranks(db, y, x),
    ensures
        support(conditional(db, min_support, x), items) == support(db, items.insert(x)),
{
    lemma_conditional_rows_support(db, min_support, x, items, db);
}

} // verus!
