//! Facts about weighted sums over the rows of a database.

use crate::database::{
    count_in, equal_to, frequency, indicator, length_of, mass, occurrences_of, some_row, weight_of,
    weighted_sum, Database,
};
use crate::label::Label;
use vstd::prelude::*;

verus! {

/// A further row adds its weight times its value.
pub proof fn lemma_sum_push(db: Database, row: (Seq<Label>, nat), g: spec_fn(Seq<Label>) -> nat)
    ensures
        weighted_sum(db.push(row), g) == weighted_sum(db, g) + row.1 * g(row.0),
{
    assert(db.push(row).drop_last() =~= db);
}

/// The sum over the first `i + 1` rows, from that over the first `i`.
pub proof fn lemma_sum_take(db: Database, i: int, g: spec_fn(Seq<Label>) -> nat)
    requires
        0 <= i < db.len(),
    ensures
        weighted_sum(db.take(i + 1), g) == weighted_sum(db.take(i), g) + db[i].1 * g(db[i].0),
{
    assert(db.take(i + 1) =~= db.take(i).push(db[i]));
    lemma_sum_push(db.take(i), db[i], g);
}

/// The sum over the first rows is at most the sum over all.
pub proof fn lemma_sum_prefix(db: Database, i: int, g: spec_fn(Seq<Label>) -> nat)
    requires
        0 <= i <= db.len(),
    ensures
        weighted_sum(db.take(i), g) <= weighted_sum(db, g),
    decreases db.len() - i,
{
    if i == db.len() {
        assert(db.take(i) =~= db);
    } else {
        lemma_sum_take(db, i, g);
        lemma_sum_prefix(db, i + 1, g);
    }
}

/// A sum grows with the function summed, as far as the rows of `db` go.
pub proof fn lemma_sum_monotone(
    db: Database,
    g: spec_fn(Seq<Label>) -> nat,
    h: spec_fn(Seq<Label>) -> nat,
)
    requires
        forall|i: int| 0 <= i < db.len() ==> g(#[trigger] db[i].0) <= h(db[i].0),
    ensures
        weighted_sum(db, g) <= weighted_sum(db, h),
    decreases db.len(),
{
    if db.len() > 0 {
        let front = db.drop_last();
        assert forall|i: int| 0 <= i < front.len() implies g(#[trigger] front[i].0) <= h(
            front[i].0,
        ) by {
            assert(front[i] == db[i]);
        }
        lemma_sum_monotone(front, g, h);
        let w = db.last().1;
        let a = g(db.last().0);
        let b = h(db.last().0);
        assert(db.last() == db[db.len() - 1]);
        assert(w * a <= w * b) by (nonlinear_arith)
            requires
                a <= b,
        ;
    }
}

/// Two functions that agree on the rows of `db` have the same sum.
pub proof fn lemma_sum_agree(
    db: Database,
    g: spec_fn(Seq<Label>) -> nat,
    h: spec_fn(Seq<Label>) -> nat,
)
    requires
        forall|i: int| 0 <= i < db.len() ==> g(#[trigger] db[i].0) == h(db[i].0),
    ensures
        weighted_sum(db, g) == weighted_sum(db, h),
{
    lemma_sum_monotone(db, g, h);
    lemma_sum_monotone(db, h, g);
}

/// A sum of an indicator is positive only where some row satisfies it.
pub proof fn lemma_sum_positive(db: Database, pred: spec_fn(Seq<Label>) -> bool)
    requires
        weighted_sum(db, indicator(pred)) > 0,
    ensures
        some_row(db, pred),
    decreases db.len(),
{
    if db.len() > 0 {
        let front = db.drop_last();
        if pred(db.last().0) {
            assert(db.last() == db[db.len() - 1]);
        } else {
            assert(db.last().1 * 0 == 0) by (nonlinear_arith);
            lemma_sum_positive(front, pred);
            let i = choose|i: int| 0 <= i < front.len() && pred(#[trigger] front[i].0);
            assert(front[i] == db[i]);
        }
    }
}

/// Adding an item to a row adds one occurrence of that item.
pub proof fn lemma_count_push(t: Seq<Label>, x: Label, y: Label)
    ensures
        count_in(t.push(x), y) == count_in(t, y) + if x == y { 1nat } else { 0nat },
{
    assert(t.push(x).drop_last() =~= t);
}

/// An item occurs in a row at most as often as the row is long, and at
/// least once where the row holds it.
pub proof fn lemma_count_bounds(t: Seq<Label>, y: Label)
    ensures
        count_in(t, y) <= t.len(),
        t.contains(y) <==> count_in(t, y) > 0,
    decreases t.len(),
{
    if t.len() > 0 {
        let front = t.drop_last();
        lemma_count_bounds(front, y);
        if front.contains(y) {
            let i = choose|i: int| 0 <= i < front.len() && front[i] == y;
            assert(t[i] == y);
        }
        if t.last() == y {
            assert(t[t.len() - 1] == y);
        }
        if t.contains(y) && t.last() != y {
            let i = choose|i: int| 0 <= i < t.len() && t[i] == y;
            assert(front[i] == y);
        }
    }
}

/// In a row without duplicates an item occurs once or not at all.
pub proof fn lemma_count_distinct(t: Seq<Label>, y: Label)
    requires
        t.no_duplicates(),
    ensures
        count_in(t, y) == if t.contains(y) { 1nat } else { 0nat },
    decreases t.len(),
{
    lemma_count_bounds(t, y);
    if t.len() > 0 {
        let front = t.drop_last();
        lemma_count_distinct(front, y);
        lemma_count_bounds(front, y);
        if t.last() == y && front.contains(y) {
            let i = choose|i: int| 0 <= i < front.len() && front[i] == y;
            assert(t[i] == t[t.len() - 1]);
        }
    }
}

/// A further row adds its weight for each occurrence of the item.
pub proof fn lemma_frequency_push(db: Database, row: (Seq<Label>, nat), y: Label)
    ensures
        frequency(db.push(row), y) == frequency(db, y) + row.1 * count_in(row.0, y),
        mass(db.push(row)) == mass(db) + row.1 * row.0.len(),
{
    lemma_sum_push(db, row, occurrences_of(y));
    lemma_sum_push(db, row, length_of());
}

/// A further item in the last row adds that row's weight to the item's
/// frequency and to the mass.
pub proof fn lemma_frequency_extend(db: Database, t: Seq<Label>, weight: nat, x: Label, y: Label)
    ensures
        frequency(db.push((t.push(x), weight)), y) == frequency(db.push((t, weight)), y) + if x
            == y {
            weight
        } else {
            0nat
        },
        mass(db.push((t.push(x), weight))) == mass(db.push((t, weight))) + weight,
{
    lemma_frequency_push(db, (t.push(x), weight), y);
    lemma_frequency_push(db, (t, weight), y);
    lemma_count_push(t, x, y);
    let c = count_in(t, y);
    let n = t.len();
    assert(weight * (c + 1) == weight * c + weight) by (nonlinear_arith);
    assert(weight * (n + 1) == weight * n + weight) by (nonlinear_arith);
    assert(weight * (c + 0) == weight * c + 0) by (nonlinear_arith);
}

/// A row without items changes no frequency.
pub proof fn lemma_frequency_blank(db: Database, weight: nat, y: Label)
    ensures
        frequency(db.push((Seq::empty(), weight)), y) == frequency(db, y),
        mass(db.push((Seq::empty(), weight))) == mass(db),
{
    lemma_frequency_push(db, (Seq::empty(), weight), y);
    assert(weight * 0 == 0) by (nonlinear_arith);
}

/// No frequency exceeds the mass of the database.
pub proof fn lemma_frequency_below_mass(db: Database, y: Label)
    ensures
        frequency(db, y) <= mass(db),
{
    assert forall|i: int| 0 <= i < db.len() implies occurrences_of(y)(#[trigger] db[i].0)
        <= length_of()(db[i].0) by {
        lemma_count_bounds(db[i].0, y);
    }
    lemma_sum_monotone(db, occurrences_of(y), length_of());
}

/// The mass of the first rows is at most the mass of all.
pub proof fn lemma_mass_prefix(db: Database, i: int)
    requires
        0 <= i <= db.len(),
    ensures
        mass(db.take(i)) <= mass(db),
{
    lemma_sum_prefix(db, i, length_of());
}

/// The weight of the rows that equal `s` is that of every such row at least.
pub proof fn lemma_weight_covers(db: Database, i: int)
    requires
        0 <= i < db.len(),
    ensures
        db[i].1 <= weight_of(db, db[i].0),
    decreases db.len(),
{
    let g = indicator(equal_to(db[i].0));
    let front = db.drop_last();
    if i == db.len() - 1 {
        assert(db.last().1 * 1 == db.last().1) by (nonlinear_arith);
    } else {
        assert(front[i] == db[i]);
        lemma_weight_covers(front, i);
    }
}

} // verus!
