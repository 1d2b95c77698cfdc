//! Facts about arranged rows and about the conditional database of an item.

use crate::database::{
    along, arrange, conditional, conditional_rows, equal_to, frequency, holding, indicator,
    length_of, mass, mentions, outranks, passing, place, prefix_before, reaching, some_row, volume,
    weight_of, weighted_sum, Database,
};
use crate::label::Label;
use crate::lemmas::sums::lemma_sum_push;
use vstd::prelude::*;

verus! {

/// Placing an item adds that item and nothing else.
pub proof fn lemma_place_members(db: Database, s: Seq<Label>, x: Label)
    ensures
        place(db, s, x).len() == s.len() + 1,
        forall|y: Label|
            #![trigger place(db, s, x).contains(y)]
            #![trigger s.contains(y)]
            place(db, s, x).contains(y) <==> s.contains(y) || y == x,
    decreases s.len(),
{
    let result = place(db, s, x);
    if s.len() == 0 {
        assert(result[0] == x);
    } else if outranks(db, x, s.last()) {
        let front = s.drop_last();
        let inner = place(db, front, x);
        lemma_place_members(db, front, x);
        assert forall|y: Label|
            #![trigger result.contains(y)]
            #![trigger s.contains(y)]
            result.contains(y) <==> s.contains(y) || y == x by {
            if result.contains(y) {
                let i = choose|i: int| 0 <= i < result.len() && result[i] == y;
                if i < inner.len() {
                    assert(inner[i] == y);
                    assert(inner.contains(y));
                    if y != x {
                        let k = choose|k: int| 0 <= k < front.len() && front[k] == y;
                        assert(s[k] == y);
                    }
                } else {
                    assert(s[s.len() - 1] == y);
                }
            }
            if s.contains(y) {
                let k = choose|k: int| 0 <= k < s.len() && s[k] == y;
                if k < front.len() {
                    assert(front[k] == y);
                    assert(inner.contains(y));
                    let i = choose|i: int| 0 <= i < inner.len() && inner[i] == y;
                    assert(result[i] == y);
                } else {
                    assert(result[inner.len() as int] == y);
                }
            }
            if y == x {
                assert(inner.contains(x));
                let i = choose|i: int| 0 <= i < inner.len() && inner[i] == x;
                assert(result[i] == x);
            }
        }
    } else {
        assert(result[s.len() as int] == x);
        assert forall|y: Label|
            #![trigger result.contains(y)]
            #![trigger s.contains(y)]
            result.contains(y) <==> s.contains(y) || y == x by {
            if s.contains(y) {
                let k = choose|k: int| 0 <= k < s.len() && s[k] == y;
                assert(result[k] == y);
            }
            if result.contains(y) {
                let i = choose|i: int| 0 <= i < result.len() && result[i] == y;
                if i < s.len() {
                    assert(s[i] == y);
                }
            }
        }
    }
}

/// An arranged row holds the items of the transaction that reach the
/// threshold, and is no longer than the transaction.
pub proof fn lemma_arrange_members(db: Database, min_support: nat, t: Seq<Label>)
    ensures
        arrange(db, min_support, t).len() <= t.len(),
        forall|y: Label|
            #![trigger arrange(db, min_support, t).contains(y)]
            arrange(db, min_support, t).contains(y) <==> t.contains(y) && frequency(db, y)
                >= min_support,
    decreases t.len(),
{
    let result = arrange(db, min_support, t);
    if t.len() > 0 {
        let front = t.drop_last();
        let inner = arrange(db, min_support, front);
        lemma_arrange_members(db, min_support, front);
        lemma_place_members(db, inner, t.last());
        assert forall|y: Label| #![trigger result.contains(y)] result.contains(y) <==> t.contains(y)
            && frequency(db, y) >= min_support by {
            if front.contains(y) {
                let k = choose|k: int| 0 <= k < front.len() && front[k] == y;
                assert(t[k] == y);
            }
            if t.contains(y) {
                let k = choose|k: int| 0 <= k < t.len() && t[k] == y;
                if k < front.len() {
                    assert(front[k] == y);
                }
            }
            assert(t[t.len() - 1] == t.last());
            assert(inner.contains(y) <==> front.contains(y) && frequency(db, y) >= min_support);
        }
    } else {
        assert forall|y: Label| #![trigger result.contains(y)] !result.contains(y) by {}
    }
}

/// The items in front of the first `x` form a prefix without `x`, and `x`
/// follows it where the row holds `x`.
pub proof fn lemma_prefix_before(a: Seq<Label>, x: Label)
    ensures
        prefix_before(a, x).is_prefix_of(a),
        !prefix_before(a, x).contains(x),
        a.contains(x) ==> prefix_before(a, x).push(x).is_prefix_of(a),
        !a.contains(x) ==> prefix_before(a, x) == a,
    decreases a.len(),
{
    let q = prefix_before(a, x);
    if a.len() == 0 {
        assert(q =~= a);
    } else if a[0] == x {
        assert(q.push(x) =~= a.subrange(0, 1));
        assert(a.contains(x));
    } else {
        let rest = a.drop_first();
        let inner = prefix_before(rest, x);
        lemma_prefix_before(rest, x);
        assert forall|i: int| 0 <= i < q.len() implies q[i] == a[i] by {
            if i > 0 {
                assert(inner[i - 1] == rest[i - 1]);
            }
        }
        assert(q =~= a.subrange(0, q.len() as int));
        if q.contains(x) {
            let i = choose|i: int| 0 <= i < q.len() && q[i] == x;
            assert(inner[i - 1] == x);
        }
        if a.contains(x) {
            let i = choose|i: int| 0 <= i < a.len() && a[i] == x;
            assert(rest[i - 1] == x);
            let longer = q.push(x);
            let deeper = inner.push(x);
            assert forall|i: int| 0 <= i < longer.len() implies longer[i] == a[i] by {
                if i > 0 {
                    assert(deeper[i - 1] == rest[i - 1]);
                }
            }
            assert(longer =~= a.subrange(0, longer.len() as int));
        } else {
            if rest.contains(x) {
                let i = choose|i: int| 0 <= i < rest.len() && rest[i] == x;
                assert(a[i + 1] == x);
            }
            assert(q =~= a);
        }
    }
}

/// A row holds `x` with `q` in front of its first `x` exactly where `q`,
/// which holds no `x`, and then `x` start the row.
pub proof fn lemma_prefix_before_is(a: Seq<Label>, x: Label, q: Seq<Label>)
    ensures
        (a.contains(x) && prefix_before(a, x) == q) <==> (!q.contains(x) && q.push(x).is_prefix_of(a)),
{
    lemma_prefix_before(a, x);
    let found = prefix_before(a, x);
    let longer = q.push(x);
    if !q.contains(x) && longer.is_prefix_of(a) {
        assert(a[q.len() as int] == longer[q.len() as int]);
        assert(a.contains(x));
        let other = found.push(x);
        if found.len() < q.len() {
            assert(other[found.len() as int] == a[found.len() as int]);
            assert(longer[found.len() as int] == a[found.len() as int]);
            assert(q[found.len() as int] == x);
        }
        if q.len() < found.len() {
            assert(found[q.len() as int] == a[q.len() as int]);
        }
        assert forall|i: int| 0 <= i < q.len() implies q[i] == found[i] by {
            assert(longer[i] == a[i]);
            assert(found[i] == a[i]);
        }
        assert(q =~= found);
    }
}

/// What the rows of a conditional database weigh: the rows in front of `x`
/// with the items `q` weigh what the arranged rows that start with `q` and
/// then `x` weigh.
pub proof fn lemma_conditional_rows_weight(
    db: Database,
    min_support: nat,
    x: Label,
    rows: Database,
    q: Seq<Label>,
)
    ensures
        weight_of(conditional_rows(db, min_support, x, rows), q) == if q.contains(x) {
            0
        } else {
            weighted_sum(rows, indicator(along(db, min_support, q.push(x))))
        },
        some_row(conditional_rows(db, min_support, x, rows), equal_to(q)) == (!q.contains(x)
            && some_row(rows, along(db, min_support, q.push(x)))),
    decreases rows.len(),
{
    let p = q.push(x);
    let found = conditional_rows(db, min_support, x, rows);
    let g = indicator(equal_to(q));
    let h = indicator(along(db, min_support, p));
    if rows.len() > 0 {
        let front = rows.drop_last();
        let rest = conditional_rows(db, min_support, x, front);
        let a = arrange(db, min_support, rows.last().0);
        let w = rows.last().1;
        lemma_conditional_rows_weight(db, min_support, x, front, q);
        lemma_prefix_before_is(a, x, q);
        assert(rows[rows.len() - 1] == rows.last());
        if a.contains(x) {
            let row = (prefix_before(a, x), w);
            lemma_sum_push(rest, row, g);
            assert(w * 0 == 0) by (nonlinear_arith);
            assert(some_row(found, equal_to(q)) == (some_row(rest, equal_to(q)) || row.0 == q)) by {
                if some_row(rest, equal_to(q)) {
                    let i = choose|i: int| 0 <= i < rest.len() && equal_to(q)(#[trigger] rest[i].0);
                    assert(found[i] == rest[i]);
                }
                if row.0 == q {
                    assert(equal_to(q)(found[rest.len() as int].0));
                }
                if some_row(found, equal_to(q)) {
                    let i = choose|i: int| 0 <= i < found.len() && equal_to(q)(#[trigger] found[i].0);
                    if i < rest.len() {
                        assert(found[i] == rest[i]);
                    }
                }
            }
        } else {
            assert(w * 0 == 0) by (nonlinear_arith);
        }
        assert(some_row(rows, along(db, min_support, p)) == (some_row(
            front,
            along(db, min_support, p),
        ) || along(db, min_support, p)(rows.last().0))) by {
            let pred = along(db, min_support, p);
            if some_row(front, pred) {
                let i = choose|i: int| 0 <= i < front.len() && pred(#[trigger] front[i].0);
                assert(rows[i] == front[i]);
            }
            if some_row(rows, pred) {
                let i = choose|i: int| 0 <= i < rows.len() && pred(#[trigger] rows[i].0);
                if i < front.len() {
                    assert(rows[i] == front[i]);
                }
            }
        }
    }
}

/// The conditional database of `x` gives the path `q` the weight that the
/// tree gives the path `q` followed by `x`.
pub proof fn lemma_conditional_weight(db: Database, min_support: nat, x: Label, q: Seq<Label>)
    ensures
        weight_of(conditional(db, min_support, x), q) == if q.contains(x) {
            0
        } else {
            passing(db, min_support, q.push(x))
        },
        some_row(conditional(db, min_support, x), equal_to(q)) == (!q.contains(x) && reaching(
            db,
            min_support,
            q.push(x),
        )),
{
    lemma_conditional_rows_weight(db, min_support, x, db, q);
}

/// The rows of a conditional database are shorter than the rows that they
/// come from.
pub proof fn lemma_conditional_rows_size(db: Database, min_support: nat, x: Label, rows: Database)
    ensures
        mass(conditional_rows(db, min_support, x, rows)) <= mass(rows),
        volume(conditional_rows(db, min_support, x, rows)) <= volume(rows),
        some_row(rows, holding(x)) && frequency(db, x) >= min_support ==> volume(
            conditional_rows(db, min_support, x, rows),
        ) < volume(rows),
    decreases rows.len(),
{
    if rows.len() > 0 {
        let front = rows.drop_last();
        let rest = conditional_rows(db, min_support, x, front);
        let t = rows.last().0;
        let a = arrange(db, min_support, t);
        let w = rows.last().1;
        lemma_conditional_rows_size(db, min_support, x, front);
        lemma_arrange_members(db, min_support, t);
        lemma_prefix_before(a, x);
        let q = prefix_before(a, x);
        if a.contains(x) {
            assert(q.len() < a.len()) by {
                assert(q.push(x).is_prefix_of(a));
            }
            lemma_sum_push(rest, (q, w), length_of());
            assert(rest.push((q, w)).drop_last() =~= rest);
            let n = q.len();
            let m = t.len();
            assert(w * n <= w * m) by (nonlinear_arith)
                requires
                    n <= m,
            ;
        }
        if some_row(rows, holding(x)) && frequency(db, x) >= min_support {
            let i = choose|i: int| 0 <= i < rows.len() && holding(x)(#[trigger] rows[i].0);
            if i < front.len() {
                assert(front[i] == rows[i]);
                assert(some_row(front, holding(x)));
            } else {
                assert(t.contains(x));
                assert(a.contains(x));
            }
        }
    }
}

/// The conditional database of an item weighs no more than the database,
/// and the conditional database of a frequent item of the database holds
/// fewer items.
pub proof fn lemma_conditional_size(db: Database, min_support: nat, x: Label)
    ensures
        mass(conditional(db, min_support, x)) <= mass(db),
        volume(conditional(db, min_support, x)) <= volume(db),
        mentions(db, x) && frequency(db, x) >= min_support ==> volume(
            conditional(db, min_support, x),
        ) < volume(db),
{
    lemma_conditional_rows_size(db, min_support, x, db);
}

} // verus!
