//! Databases with the same rows: what is computed from a database does not
//! depend on the order of its rows, nor on whether equal rows are written
//! once with their whole weight or several times with parts of it.

use crate::database::{
    along, arrange, equal_to, frequency, holding, indicator, length_of, mass, mentions,
    occurrences_of, passing, place, reaching, same_rows, some_row, sorted_items, table_of,
    weight_of, weighted_sum, Database,
};
use crate::label::Label;
use crate::lemmas::items::{lemma_increasing_unique, lemma_sorted_items};
use crate::lemmas::sums::{lemma_sum_agree, lemma_weight_covers};
use vstd::prelude::*;

verus! {

/// The rows of `db` whose items are not `s`.
pub open spec fn without(db: Database, s: Seq<Label>) -> Database
    decreases db.len(),
{
    if db.len() == 0 {
        Seq::empty()
    } else if db.last().0 == s {
        without(db.drop_last(), s)
    } else {
        without(db.drop_last(), s).push(db.last())
    }
}

/// A sum is the part of the rows with the items `s` and the sum over the
/// other rows.
pub proof fn lemma_sum_split(db: Database, s: Seq<Label>, g: spec_fn(Seq<Label>) -> nat)
    ensures
        weighted_sum(db, g) == weight_of(db, s) * g(s) + weighted_sum(without(db, s), g),
        without(db, s).len() <= db.len(),
        db.len() > 0 && db.last().0 == s ==> without(db, s).len() < db.len(),
    decreases db.len(),
{
    if db.len() > 0 {
        let front = db.drop_last();
        lemma_sum_split(front, s, g);
        let w = db.last().1;
        let before = weight_of(front, s);
        let v = g(s);
        if db.last().0 == s {
            assert((before + w * 1) * v == before * v + w * v) by (nonlinear_arith);
        } else {
            assert(without(db, s).drop_last() =~= without(front, s));
            assert((before + w * 0) * v == before * v) by (nonlinear_arith);
        }
    } else {
        assert(0 * g(s) == 0) by (nonlinear_arith);
    }
}

/// The weights of the rows that are left when those with the items `s` are
/// taken out.
pub proof fn lemma_weight_without(db: Database, s: Seq<Label>, t: Seq<Label>)
    ensures
        weight_of(without(db, s), t) == if t == s {
            0
        } else {
            weight_of(db, t)
        },
{
    let g = indicator(equal_to(t));
    lemma_sum_split(db, s, g);
    let w = weight_of(db, s);
    if t == s {
        assert(w * 1 == w) by (nonlinear_arith);
    } else {
        assert(w * 0 == 0) by (nonlinear_arith);
    }
}

/// A database whose rows all weigh nothing sums to zero.
pub proof fn lemma_sum_weightless(db: Database, g: spec_fn(Seq<Label>) -> nat)
    requires
        forall|s: Seq<Label>| #[trigger] weight_of(db, s) == 0,
    ensures
        weighted_sum(db, g) == 0,
{
    assert forall|i: int| 0 <= i < db.len() implies (#[trigger] db[i]).1 == 0 by {
        lemma_weight_covers(db, i);
    }
    lemma_sum_zero_weights(db, g);
}

proof fn lemma_sum_zero_weights(db: Database, g: spec_fn(Seq<Label>) -> nat)
    requires
        forall|i: int| 0 <= i < db.len() ==> (#[trigger] db[i]).1 == 0,
    ensures
        weighted_sum(db, g) == 0,
    decreases db.len(),
{
    if db.len() > 0 {
        let front = db.drop_last();
        assert forall|i: int| 0 <= i < front.len() implies (#[trigger] front[i]).1 == 0 by {
            assert(front[i] == db[i]);
        }
        lemma_sum_zero_weights(front, g);
        assert(db[db.len() - 1].1 == 0);
        assert(0 * g(db.last().0) == 0) by (nonlinear_arith);
    }
}

/// Two databases that give every row the same weight have the same sums.
pub proof fn lemma_sum_same(a: Database, b: Database, g: spec_fn(Seq<Label>) -> nat)
    requires
        forall|s: Seq<Label>|
            #![trigger weight_of(a, s)]
            #![trigger weight_of(b, s)]
            weight_of(a, s) == weight_of(b, s),
    ensures
        weighted_sum(a, g) == weighted_sum(b, g),
    decreases a.len(),
{
    if a.len() == 0 {
        assert forall|s: Seq<Label>| #[trigger] weight_of(b, s) == 0 by {
            assert(weight_of(a, s) == 0);
        }
        lemma_sum_weightless(b, g);
    } else {
        let s = a.last().0;
        let fewer = without(a, s);
        let other = without(b, s);
        lemma_sum_split(a, s, g);
        lemma_sum_split(b, s, g);
        assert forall|t: Seq<Label>|
            #![trigger weight_of(fewer, t)]
            #![trigger weight_of(other, t)]
            weight_of(fewer, t) == weight_of(other, t) by {
            lemma_weight_without(a, s, t);
            lemma_weight_without(b, s, t);
            assert(weight_of(a, t) == weight_of(b, t));
        }
        lemma_sum_same(fewer, other, g);
        assert(weight_of(a, s) == weight_of(b, s));
    }
}

/// Of two databases with the same rows, either both have a row that meets
/// a condition or none has.
pub proof fn lemma_some_row_same(a: Database, b: Database, pred: spec_fn(Seq<Label>) -> bool)
    requires
        same_rows(a, b),
    ensures
        some_row(a, pred) == some_row(b, pred),
{
    if some_row(a, pred) {
        let i = choose|i: int| 0 <= i < a.len() && pred(#[trigger] a[i].0);
        let s = a[i].0;
        assert(equal_to(s)(a[i].0));
        assert(some_row(a, equal_to(s)));
        assert(some_row(b, equal_to(s)));
        let j = choose|j: int| 0 <= j < b.len() && equal_to(s)(#[trigger] b[j].0);
        assert(pred(b[j].0));
    }
    if some_row(b, pred) {
        let i = choose|i: int| 0 <= i < b.len() && pred(#[trigger] b[i].0);
        let s = b[i].0;
        assert(equal_to(s)(b[i].0));
        assert(some_row(b, equal_to(s)));
        assert(some_row(a, equal_to(s)));
        let j = choose|j: int| 0 <= j < a.len() && equal_to(s)(#[trigger] a[j].0);
        assert(pred(a[j].0));
    }
}

/// Two databases with the same frequencies place an item alike.
pub proof fn lemma_place_same(a: Database, b: Database, s: Seq<Label>, x: Label)
    requires
        forall|y: Label| #[trigger] frequency(a, y) == frequency(b, y),
    ensures
        place(a, s, x) == place(b, s, x),
    decreases s.len(),
{
    if s.len() > 0 {
        assert(frequency(a, x) == frequency(b, x));
        assert(frequency(a, s.last()) == frequency(b, s.last()));
        lemma_place_same(a, b, s.drop_last(), x);
    }
}

/// Two databases with the same frequencies arrange a row alike.
pub proof fn lemma_arrange_same(a: Database, b: Database, min_support: nat, t: Seq<Label>)
    requires
        forall|y: Label| #[trigger] frequency(a, y) == frequency(b, y),
    ensures
        arrange(a, min_support, t) == arrange(b, min_support, t),
    decreases t.len(),
{
    if t.len() > 0 {
        assert(frequency(a, t.last()) == frequency(b, t.last()));
        lemma_arrange_same(a, b, min_support, t.drop_last());
        lemma_place_same(a, b, arrange(a, min_support, t.drop_last()), t.last());
    }
}

/// Two databases with the same rows have the same frequencies, the same
/// mass and the same items.
pub proof fn lemma_same_rows_counts(a: Database, b: Database, y: Label)
    requires
        same_rows(a, b),
    ensures
        frequency(a, y) == frequency(b, y),
        mass(a) == mass(b),
        mentions(a, y) == mentions(b, y),
{
    assert forall|s: Seq<Label>|
        #![trigger weight_of(a, s)]
        #![trigger weight_of(b, s)]
        weight_of(a, s) == weight_of(b, s) by {}
    lemma_sum_same(a, b, occurrences_of(y));
    lemma_sum_same(a, b, length_of());
    lemma_some_row_same(a, b, holding(y));
}

/// Two databases with the same rows have the same frequency table.
pub proof fn lemma_same_rows_table(a: Database, b: Database)
    requires
        same_rows(a, b),
    ensures
        sorted_items(a) == sorted_items(b),
        table_of(a) == table_of(b),
{
    lemma_sorted_items(a);
    lemma_sorted_items(b);
    assert forall|y: Label|
        #![trigger sorted_items(a).contains(y)]
        #![trigger sorted_items(b).contains(y)]
        sorted_items(a).contains(y) <==> sorted_items(b).contains(y) by {
        lemma_same_rows_counts(a, b, y);
    }
    lemma_increasing_unique(sorted_items(a), sorted_items(b));
    assert forall|i: int| 0 <= i < sorted_items(a).len() implies table_of(a)[i] == table_of(b)[i] by {
        lemma_same_rows_counts(a, b, sorted_items(a)[i]);
    }
    assert(table_of(a) =~= table_of(b));
}

/// Two databases with the same rows arrange every row alike and give every
/// path of the tree the same count.
pub proof fn lemma_same_rows_paths(a: Database, b: Database, min_support: nat, p: Seq<Label>)
    requires
        same_rows(a, b),
    ensures
        passing(a, min_support, p) == passing(b, min_support, p),
        reaching(a, min_support, p) == reaching(b, min_support, p),
        forall|t: Seq<Label>| #[trigger] arrange(a, min_support, t) == arrange(b, min_support, t),
{
    assert forall|y: Label| #[trigger] frequency(a, y) == frequency(b, y) by {
        lemma_same_rows_counts(a, b, y);
    }
    assert forall|t: Seq<Label>| #[trigger] arrange(a, min_support, t) == arrange(
        b,
        min_support,
        t,
    ) by {
        lemma_arrange_same(a, b, min_support, t);
    }
    assert forall|s: Seq<Label>|
        #![trigger weight_of(a, s)]
        #![trigger weight_of(b, s)]
        weight_of(a, s) == weight_of(b, s) by {}
    let ga = indicator(along(a, min_support, p));
    let gb = indicator(along(b, min_support, p));
    lemma_sum_same(a, b, ga);
    assert forall|i: int| 0 <= i < b.len() implies ga(#[trigger] b[i].0) == gb(b[i].0) by {
        assert(arrange(a, min_support, b[i].0) == arrange(b, min_support, b[i].0));
    }
    lemma_sum_agree(b, ga, gb);
    lemma_some_row_same(a, b, along(a, min_support, p));
    assert(some_row(b, along(a, min_support, p)) == some_row(b, along(b, min_support, p))) by {
        if some_row(b, along(a, min_support, p)) {
            let i = choose|i: int| 0 <= i < b.len() && along(a, min_support, p)(#[trigger] b[i].0);
            assert(arrange(a, min_support, b[i].0) == arrange(b, min_support, b[i].0));
            assert(along(b, min_support, p)(b[i].0));
        }
        if some_row(b, along(b, min_support, p)) {
            let i = choose|i: int| 0 <= i < b.len() && along(b, min_support, p)(#[trigger] b[i].0);
            assert(arrange(a, min_support, b[i].0) == arrange(b, min_support, b[i].0));
            assert(along(a, min_support, p)(b[i].0));
        }
    }
}

} // verus!
