//! The order of the items in an arranged row.

use crate::database::{arrange, frequency, outranks, place, Database};
use crate::label::{
    label_before, lemma_label_asymmetric, lemma_label_connected, lemma_label_irreflexive,
    lemma_label_transitive, Label,
};
use crate::lemmas::conditional::lemma_arrange_members;
use vstd::prelude::*;

verus! {

/// No item outranks itself, and no two items outrank each other.
pub proof fn lemma_outranks_asymmetric(db: Database, a: Label, b: Label)
    ensures
        !outranks(db, a, a),
        outranks(db, a, b) ==> !outranks(db, b, a),
{
    lemma_label_irreflexive(a);
    if label_before(a, b) {
        lemma_label_asymmetric(a, b);
    }
}

/// Outranking is transitive.
pub proof fn lemma_outranks_transitive(db: Database, a: Label, b: Label, c: Label)
    requires
        outranks(db, a, b),
        outranks(db, b, c),
    ensures
        outranks(db, a, c),
{
    if frequency(db, a) == frequency(db, b) && frequency(db, b) == frequency(db, c) {
        lemma_label_transitive(a, b, c);
    }
}

/// Of two different items one outranks the other.
pub proof fn lemma_outranks_connected(db: Database, a: Label, b: Label)
    ensures
        a == b || outranks(db, a, b) || outranks(db, b, a),
{
    lemma_label_connected(a, b);
}

/// No item of `s` is outranked by an item behind it.
pub open spec fn ranked(db: Database, s: Seq<Label>) -> bool {
    forall|i: int, j: int| 0 <= i < j < s.len() ==> !outranks(db, #[trigger] s[j], #[trigger] s[i])
}

/// Where `place` puts an item: behind the items that it does not outrank,
/// in front of those that it outranks.
pub proof fn lemma_place_position(db: Database, s: Seq<Label>, x: Label) -> (pos: int)
    requires
        ranked(db, s),
    ensures
        0 <= pos <= s.len(),
        place(db, s, x) == s.insert(pos, x),
        forall|k: int| pos <= k < s.len() ==> outranks(db, x, #[trigger] s[k]),
        forall|k: int| 0 <= k < pos ==> !outranks(db, x, #[trigger] s[k]),
    decreases s.len(),
{
    if s.len() == 0 {
        assert(s.insert(0, x) =~= seq![x]);
        0
    } else if outranks(db, x, s.last()) {
        let front = s.drop_last();
        assert(ranked(db, front)) by {
            assert forall|i: int, j: int| 0 <= i < j < front.len() implies !outranks(
                db,
                #[trigger] front[j],
                #[trigger] front[i],
            ) by {
                assert(front[i] == s[i] && front[j] == s[j]);
            }
        }
        let pos = lemma_place_position(db, front, x);
        assert(s.insert(pos, x) =~= front.insert(pos, x).push(s.last()));
        assert forall|k: int| pos <= k < s.len() implies outranks(db, x, #[trigger] s[k]) by {
            if k < front.len() {
                assert(front[k] == s[k]);
            }
        }
        assert forall|k: int| 0 <= k < pos implies !outranks(db, x, #[trigger] s[k]) by {
            assert(front[k] == s[k]);
        }
        pos
    } else {
        let last = s.len() - 1;
        assert(s.insert(s.len() as int, x) =~= s.push(x));
        assert forall|k: int| 0 <= k < s.len() implies !outranks(db, x, #[trigger] s[k]) by {
            if k < last && outranks(db, x, s[k]) {
                assert(!outranks(db, s[last], s[k]));
                lemma_outranks_connected(db, x, s[last]);
                if outranks(db, s[last], x) {
                    lemma_outranks_transitive(db, s[last], x, s[k]);
                }
            }
        }
        s.len() as int
    }
}

/// Placing an item keeps a row ranked, and free of duplicates where the
/// item is new to it.
pub proof fn lemma_place_ranked(db: Database, s: Seq<Label>, x: Label)
    requires
        ranked(db, s),
    ensures
        ranked(db, place(db, s, x)),
        s.no_duplicates() && !s.contains(x) ==> place(db, s, x).no_duplicates(),
{
    let pos = lemma_place_position(db, s, x);
    let result = place(db, s, x);
    assert forall|i: int, j: int| 0 <= i < j < result.len() implies !outranks(
        db,
        #[trigger] result[j],
        #[trigger] result[i],
    ) by {
        if j == pos {
            assert(result[i] == s[i]);
        } else if i == pos {
            assert(result[j] == s[j - 1]);
            lemma_outranks_asymmetric(db, x, s[j - 1]);
        } else {
            let a = if i < pos { i } else { i - 1 };
            let b = if j < pos { j } else { j - 1 };
            assert(result[i] == s[a] && result[j] == s[b]);
        }
    }
    if s.no_duplicates() && !s.contains(x) {
        assert forall|i: int, j: int| 0 <= i < result.len() && 0 <= j < result.len() && i
            != j implies result[i] != result[j] by {
            let a = if i < pos { i } else { i - 1 };
            let b = if j < pos { j } else { j - 1 };
            if i == pos {
                assert(result[j] == s[b]);
                assert(s.contains(s[b]));
            } else if j == pos {
                assert(result[i] == s[a]);
                assert(s.contains(s[a]));
            } else {
                assert(result[i] == s[a] && result[j] == s[b]);
            }
        }
    }
}

/// An arranged row is ranked, and free of duplicates where the transaction is.
pub proof fn lemma_arrange_ranked(db: Database, min_support: nat, t: Seq<Label>)
    ensures
        ranked(db, arrange(db, min_support, t)),
        t.no_duplicates() ==> arrange(db, min_support, t).no_duplicates(),
    decreases t.len(),
{
    if t.len() > 0 {
        let front = t.drop_last();
        let inner = arrange(db, min_support, front);
        lemma_arrange_ranked(db, min_support, front);
        lemma_place_ranked(db, inner, t.last());
        lemma_arrange_members(db, min_support, front);
        if t.no_duplicates() {
            assert forall|i: int, j: int| 0 <= i < front.len() && 0 <= j < front.len() && i
                != j implies front[i] != front[j] by {
                assert(front[i] == t[i] && front[j] == t[j]);
            }
            if front.contains(t.last()) {
                let k = choose|k: int| 0 <= k < front.len() && front[k] == t.last();
                assert(t[k] == t[t.len() - 1]);
            }
        }
    }
}

} // verus!
