//! The count of a node of the tree is made up of the counts of its children
//! and of the weight of the rows that end at the node.

use crate::database::{
    along, arrange, count_in, holding, indicator, mentions, passing, sorted_items, weighted_sum,
    Database,
};
use crate::label::{label_before, lemma_label_irreflexive, strictly_increasing, Label};
use crate::lemmas::conditional::lemma_arrange_members;
use crate::lemmas::items::lemma_sorted_items;
use crate::lemmas::paths::lemma_prefix_push;
use crate::lemmas::sums::{lemma_count_distinct, lemma_sum_agree};
use vstd::prelude::*;

verus! {

/// The arranged row of `t` is the path `p`.
pub open spec fn arranged_as(db: Database, min_support: nat, p: Seq<Label>) -> spec_fn(
    Seq<Label>,
) -> bool {
    |t: Seq<Label>| arrange(db, min_support, t) == p
}

/// The weight of the rows of `db` whose arranged form is the path `p`: the
/// weight of the rows that end at the node at the end of `p`.
pub open spec fn ending(db: Database, min_support: nat, p: Seq<Label>) -> nat {
    weighted_sum(db, indicator(arranged_as(db, min_support, p)))
}

/// The counts of the nodes that the path `p` followed by one of `keys`
/// leads to, added up.
pub open spec fn passing_on(db: Database, min_support: nat, p: Seq<Label>, keys: Seq<Label>) -> nat
    decreases keys.len(),
{
    if keys.len() == 0 {
        0
    } else {
        passing_on(db, min_support, p, keys.drop_last()) + passing(
            db,
            min_support,
            p.push(keys.last()),
        )
    }
}

/// For how many of `keys` the arranged row of `t` starts with `p` and then
/// that key.
pub open spec fn continuations(
    db: Database,
    min_support: nat,
    p: Seq<Label>,
    keys: Seq<Label>,
    t: Seq<Label>,
) -> nat
    decreases keys.len(),
{
    if keys.len() == 0 {
        0
    } else {
        continuations(db, min_support, p, keys.drop_last(), t) + indicator(
            along(db, min_support, p.push(keys.last())),
        )(t)
    }
}

/// The number of continuations of a row among `keys`.
pub open spec fn continuing(db: Database, min_support: nat, p: Seq<Label>, keys: Seq<Label>) -> spec_fn(
    Seq<Label>,
) -> nat {
    |t: Seq<Label>| continuations(db, min_support, p, keys, t)
}

/// The sum of a sum of two functions is the sum of their sums.
pub proof fn lemma_sum_plus(
    db: Database,
    g: spec_fn(Seq<Label>) -> nat,
    h: spec_fn(Seq<Label>) -> nat,
    both: spec_fn(Seq<Label>) -> nat,
)
    requires
        forall|i: int| 0 <= i < db.len() ==> both(#[trigger] db[i].0) == g(db[i].0) + h(db[i].0),
    ensures
        weighted_sum(db, both) == weighted_sum(db, g) + weighted_sum(db, h),
    decreases db.len(),
{
    if db.len() > 0 {
        let front = db.drop_last();
        assert forall|i: int| 0 <= i < front.len() implies both(#[trigger] front[i].0) == g(
            front[i].0,
        ) + h(front[i].0) by {
            assert(front[i] == db[i]);
        }
        lemma_sum_plus(front, g, h, both);
        let w = db.last().1;
        let a = g(db.last().0);
        let b = h(db.last().0);
        assert(db.last() == db[db.len() - 1]);
        assert(w * (a + b) == w * a + w * b) by (nonlinear_arith);
    }
}

/// The counts of the children add up to the weighted number of
/// continuations of the rows.
pub proof fn lemma_passing_on(db: Database, min_support: nat, p: Seq<Label>, keys: Seq<Label>)
    ensures
        passing_on(db, min_support, p, keys) == weighted_sum(
            db,
            continuing(db, min_support, p, keys),
        ),
    decreases keys.len(),
{
    if keys.len() == 0 {
        let zero = |t: Seq<Label>| 0nat;
        lemma_sum_plus(db, zero, zero, zero);
        lemma_sum_agree(db, zero, continuing(db, min_support, p, keys));
    } else {
        let front = keys.drop_last();
        lemma_passing_on(db, min_support, p, front);
        lemma_sum_plus(
            db,
            continuing(db, min_support, p, front),
            indicator(along(db, min_support, p.push(keys.last()))),
            continuing(db, min_support, p, keys),
        );
    }
}

/// A row whose arranged form goes on behind `p` with the item `y` has as
/// many continuations among `keys` as `y` occurs in `keys`; a row whose
/// arranged form does not go on behind `p` has none.
pub proof fn lemma_continuations(
    db: Database,
    min_support: nat,
    p: Seq<Label>,
    keys: Seq<Label>,
    t: Seq<Label>,
)
    requires
        p.len() > 0,
    ensures
        continuations(db, min_support, p, keys, t) == if p.is_prefix_of(arrange(db, min_support, t))
            && arrange(db, min_support, t).len() > p.len() {
            count_in(keys, arrange(db, min_support, t)[p.len() as int])
        } else {
            0
        },
    decreases keys.len(),
{
    if keys.len() > 0 {
        lemma_continuations(db, min_support, p, keys.drop_last(), t);
        lemma_prefix_push(p, keys.last(), arrange(db, min_support, t));
    }
}

/// A strictly increasing sequence holds no label twice.
pub proof fn lemma_increasing_distinct(keys: Seq<Label>)
    requires
        strictly_increasing(keys),
    ensures
        keys.no_duplicates(),
{
    assert forall|i: int, j: int| 0 <= i < keys.len() && 0 <= j < keys.len() && i != j implies keys[i]
        != keys[j] by {
        lemma_label_irreflexive(keys[i]);
        if i < j {
            assert(label_before(keys[i], keys[j]));
        } else {
            assert(label_before(keys[j], keys[i]));
        }
    }
}

/// The count of a node is the weight of the rows that end at it and the
/// counts of its children together.
pub proof fn lemma_count_splits(db: Database, min_support: nat, p: Seq<Label>)
    requires
        p.len() > 0,
    ensures
        passing(db, min_support, p) == ending(db, min_support, p) + passing_on(
            db,
            min_support,
            p,
            sorted_items(db),
        ),
{
    let keys = sorted_items(db);
    let whole = indicator(along(db, min_support, p));
    let ends = indicator(arranged_as(db, min_support, p));
    let goes_on = continuing(db, min_support, p, keys);
    lemma_sorted_items(db);
    lemma_increasing_distinct(keys);
    assert forall|i: int| 0 <= i < db.len() implies whole(#[trigger] db[i].0) == ends(db[i].0)
        + goes_on(db[i].0) by {
        let t = db[i].0;
        let a = arrange(db, min_support, t);
        lemma_continuations(db, min_support, p, keys, t);
        if p.is_prefix_of(a) {
            if a.len() > p.len() {
                let y = a[p.len() as int];
                lemma_arrange_members(db, min_support, t);
                assert(a.contains(y));
                assert(holding(y)(db[i].0));
                assert(mentions(db, y));
                lemma_count_distinct(keys, y);
            } else {
                assert(a =~= p);
            }
        }
    }
    lemma_sum_plus(db, ends, goes_on, whole);
    lemma_passing_on(db, min_support, p, keys);
}

} // verus!
