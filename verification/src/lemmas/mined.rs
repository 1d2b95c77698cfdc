//! Induction over the course of mining: what every entry that mining finds
//! looks like, that every frequent set is found, and that no set is found
//! twice.

use crate::database::{
    conditional, duplicate_free, frequency, mentions, outranks, positive, sorted_items, support,
    volume, Database,
};
use crate::label::{label_before, lemma_label_irreflexive, Label};
use crate::lemmas::conditional::lemma_conditional_size;
use crate::lemmas::items::lemma_sorted_items;
use crate::lemmas::ranking::{
    lemma_outranks_asymmetric, lemma_outranks_connected, lemma_outranks_transitive,
};
use crate::lemmas::support::{
    lemma_conditional_items, lemma_conditional_rows_kept, lemma_conditional_support,
    lemma_frequency_is_support, lemma_positive_frequency, lemma_support_below_frequency,
    lemma_supported_mentioned,
};
use crate::mining::mine_from;
use vstd::prelude::*;

verus! {

/// What holds of an entry that mining below `path` has found in `db`: its
/// items are `path` and then one or more different items of `db`, and its
/// count reaches the threshold; where no row of `db` holds an item twice,
/// the count is the support of those items in `db`.
pub open spec fn sound_entry(
    db: Database,
    min_support: nat,
    path: Seq<Label>,
    entry: (Seq<Label>, nat),
) -> bool {
    let found = entry.0.skip(path.len() as int);
    &&& path.is_prefix_of(entry.0)
    &&& found.len() > 0
    &&& found.no_duplicates()
    &&& forall|y: Label| #[trigger] found.contains(y) ==> mentions(db, y)
    &&& entry.1 >= min_support
    &&& duplicate_free(db) ==> entry.1 == support(db, found.to_set())
    &&& positive(db) ==> entry.1 >= 1
}

/// Every entry that mining finds is sound.
pub proof fn lemma_mined_entry(db: Database, min_support: nat, path: Seq<Label>, i: nat, k: int)
    requires
        0 <= k < mine_from(db, min_support, path, i).len(),
    ensures
        sound_entry(db, min_support, path, mine_from(db, min_support, path, i)[k]),
    decreases volume(db), sorted_items(db).len() - i,
{
    let keys = sorted_items(db);
    let mined = mine_from(db, min_support, path, i);
    let x = keys[i as int];
    let rest = mine_from(db, min_support, path, i + 1);
    if frequency(db, x) >= min_support {
        let deeper = path.push(x);
        let below = conditional(db, min_support, x);
        let sub = mine_from(below, min_support, deeper, 0);
        let head = seq![(deeper, frequency(db, x))];
        assert(mined == head + sub + rest);
        lemma_sorted_items(db);
        assert(keys.contains(x));
        let entry = mined[k];
        let found = entry.0.skip(path.len() as int);
        if k == 0 {
            assert(found =~= seq![x]);
            assert(found.to_set() =~= set![x]) by {
                assert(found[0] == x);
                assert forall|y: Label| found.to_set().contains(y) <==> set![x].contains(y) by {
                    if found.contains(y) {
                        let n = choose|n: int| 0 <= n < found.len() && found[n] == y;
                    }
                }
            }
            if duplicate_free(db) {
                lemma_frequency_is_support(db, x);
            }
            assert(deeper.subrange(0, path.len() as int) =~= path);
            if positive(db) {
                lemma_positive_frequency(db, x);
            }
            assert forall|y: Label| #[trigger] found.contains(y) implies mentions(db, y) by {
                let n = choose|n: int| 0 <= n < found.len() && found[n] == y;
            }
        } else if k <= sub.len() {
            lemma_conditional_size(db, min_support, x);
            lemma_conditional_rows_kept(db, min_support, x);
            lemma_mined_entry(below, min_support, deeper, 0, k - 1);
            assert(entry == sub[k - 1]);
            let inner = entry.0.skip(deeper.len() as int);
            assert(entry.0[path.len() as int] == deeper[path.len() as int]);
            assert(found =~= seq![x] + inner);
            assert(path =~= entry.0.subrange(0, path.len() as int)) by {
                assert forall|n: int| 0 <= n < path.len() implies path[n] == entry.0[n] by {
                    assert(deeper[n] == entry.0[n]);
                }
            }
            assert forall|y: Label| #[trigger] inner.contains(y) implies frequency(db, y)
                >= min_support && outranks(db, y, x) && y != x && mentions(db, y) by {
                lemma_conditional_items(db, min_support, x, y);
            }
            assert forall|y: Label| #[trigger]
                inner.to_set().contains(y) implies frequency(db, y) >= min_support && outranks(
                db,
                y,
                x,
            ) by {
                assert(inner.contains(y));
            }
            lemma_conditional_support(db, min_support, x, inner.to_set());
            assert(found.to_set() =~= inner.to_set().insert(x)) by {
                assert forall|y: Label| found.to_set().contains(y) <==> inner.to_set().insert(
                    x,
                ).contains(y) by {
                    if found.contains(y) {
                        let n = choose|n: int| 0 <= n < found.len() && found[n] == y;
                        if n > 0 {
                            assert(inner[n - 1] == y);
                        }
                    }
                    if inner.contains(y) {
                        let n = choose|n: int| 0 <= n < inner.len() && inner[n] == y;
                        assert(found[n + 1] == y);
                    }
                    assert(found[0] == x);
                }
            }
            assert forall|y: Label| #[trigger] found.contains(y) implies mentions(db, y) by {
                let n = choose|n: int| 0 <= n < found.len() && found[n] == y;
                if n > 0 {
                    assert(inner[n - 1] == y);
                    assert(inner.contains(y));
                }
            }
            assert forall|m: int, n: int|
                0 <= m < found.len() && 0 <= n < found.len() && m != n implies found[m]
                != found[n] by {
                if m > 0 {
                    assert(inner[m - 1] == found[m]);
                    assert(inner.contains(found[m]));
                }
                if n > 0 {
                    assert(inner[n - 1] == found[n]);
                    assert(inner.contains(found[n]));
                }
            }
        } else {
            lemma_mined_entry(db, min_support, path, i + 1, k - 1 - sub.len());
        }
    } else {
        lemma_mined_entry(db, min_support, path, i + 1, k);
    }
}

/// Where mining finds the sets of the `i`-th item: at `offset` the set of
/// the item alone, and behind it what mining finds in its conditional
/// database.
pub proof fn lemma_block_offset(
    db: Database,
    min_support: nat,
    path: Seq<Label>,
    from: nat,
    i: nat,
) -> (offset: int)
    requires
        from <= i < sorted_items(db).len(),
        frequency(db, sorted_items(db)[i as int]) >= min_support,
    ensures
        ({
            let x = sorted_items(db)[i as int];
            let mined = mine_from(db, min_support, path, from);
            let sub = mine_from(conditional(db, min_support, x), min_support, path.push(x), 0);
            &&& 0 <= offset
            &&& offset + 1 + sub.len() <= mined.len()
            &&& mined[offset] == (path.push(x), frequency(db, x))
            &&& forall|j: int| 0 <= j < sub.len() ==> mined[offset + 1 + j] == #[trigger] sub[j]
        }),
    decreases i - from,
{
    let keys = sorted_items(db);
    let here = keys[from as int];
    let rest = mine_from(db, min_support, path, from + 1);
    let block = if frequency(db, here) >= min_support {
        seq![(path.push(here), frequency(db, here))] + mine_from(
            conditional(db, min_support, here),
            min_support,
            path.push(here),
            0,
        )
    } else {
        Seq::empty()
    };
    assert(mine_from(db, min_support, path, from) =~= block + rest);
    if from == i {
        0
    } else {
        let inner = lemma_block_offset(db, min_support, path, from + 1, i);
        block.len() + inner
    }
}

/// Of the items of a finite set, one is outranked by all the others.
pub proof fn lemma_lowest_ranked(db: Database, items: Set<Label>) -> (x: Label)
    requires
        items.finite(),
        items.len() > 0,
    ensures
        items.contains(x),
        forall|y: Label| #[trigger] items.contains(y) && y != x ==> outranks(db, y, x),
    decreases items.len(),
{
    broadcast use vstd::set::group_set_axioms;

    let e = items.choose();
    let fewer = items.remove(e);
    if items.len() == 1 {
        fewer.lemma_len0_is_empty();
        assert forall|y: Label| #[trigger] items.contains(y) && y != e implies outranks(db, y, e) by {
            assert(fewer.contains(y));
        }
        e
    } else {
        let other = lemma_lowest_ranked(db, fewer);
        if outranks(db, other, e) {
            assert forall|y: Label| #[trigger] items.contains(y) && y != e implies outranks(
                db,
                y,
                e,
            ) by {
                assert(fewer.contains(y));
                if y != other {
                    lemma_outranks_transitive(db, y, other, e);
                }
            }
            e
        } else {
            lemma_outranks_connected(db, e, other);
            assert forall|y: Label| #[trigger] items.contains(y) && y != other implies outranks(
                db,
                y,
                other,
            ) by {
                if y != e {
                    assert(fewer.contains(y));
                }
            }
            other
        }
    }
}

/// Mining finds every finite, non-empty item set whose support is positive
/// and reaches the threshold.
pub proof fn lemma_mined_complete(
    db: Database,
    min_support: nat,
    path: Seq<Label>,
    items: Set<Label>,
) -> (k: int)
    requires
        items.finite(),
        items.len() > 0,
        support(db, items) >= min_support,
        support(db, items) >= 1,
    ensures
        0 <= k < mine_from(db, min_support, path, 0).len(),
        path.is_prefix_of(mine_from(db, min_support, path, 0)[k].0),
        mine_from(db, min_support, path, 0)[k].0.skip(path.len() as int).to_set() == items,
    decreases volume(db),
{
    broadcast use vstd::set::group_set_axioms;

    let mined = mine_from(db, min_support, path, 0);
    let x = lemma_lowest_ranked(db, items);
    lemma_support_below_frequency(db, items, x);
    lemma_supported_mentioned(db, items, x);
    lemma_sorted_items(db);
    let keys = sorted_items(db);
    assert(keys.contains(x));
    let i = choose|i: int| 0 <= i < keys.len() && keys[i] == x;
    let deeper = path.push(x);
    let below = conditional(db, min_support, x);
    let sub = mine_from(below, min_support, deeper, 0);
    let offset = lemma_block_offset(db, min_support, path, 0, i as nat);
    let fewer = items.remove(x);
    if fewer.len() == 0 {
        fewer.lemma_len0_is_empty();
        let found = mined[offset].0.skip(path.len() as int);
        assert(found =~= seq![x]);
        assert(deeper.subrange(0, path.len() as int) =~= path);
        assert(found.to_set() =~= items) by {
            assert(found[0] == x);
            assert forall|y: Label| found.to_set().contains(y) <==> items.contains(y) by {
                if found.contains(y) {
                    let n = choose|n: int| 0 <= n < found.len() && found[n] == y;
                }
                if items.contains(y) && y != x {
                    assert(fewer.contains(y));
                }
            }
        }
        offset
    } else {
        assert forall|y: Label| #[trigger] fewer.contains(y) implies frequency(db, y)
            >= min_support && outranks(db, y, x) by {
            assert(items.contains(y));
            lemma_support_below_frequency(db, items, y);
        }
        lemma_conditional_support(db, min_support, x, fewer);
        assert(fewer.insert(x) =~= items);
        lemma_conditional_size(db, min_support, x);
        let inner = lemma_mined_complete(below, min_support, deeper, fewer);
        let k = offset + 1 + inner;
        assert(mined[k] == sub[inner]);
        let entry = mined[k];
        let found = entry.0.skip(path.len() as int);
        let rest = entry.0.skip(deeper.len() as int);
        assert(entry.0[path.len() as int] == deeper[path.len() as int]);
        assert(found =~= seq![x] + rest);
        assert(path =~= entry.0.subrange(0, path.len() as int)) by {
            assert forall|n: int| 0 <= n < path.len() implies path[n] == entry.0[n] by {
                assert(deeper[n] == entry.0[n]);
            }
        }
        assert(found.to_set() =~= items) by {
            assert forall|y: Label| found.to_set().contains(y) <==> items.contains(y) by {
                if found.contains(y) {
                    let n = choose|n: int| 0 <= n < found.len() && found[n] == y;
                    if n > 0 {
                        assert(rest[n - 1] == y);
                        assert(rest.to_set().contains(y));
                    }
                }
                if items.contains(y) {
                    if y == x {
                        assert(found[0] == x);
                    } else {
                        assert(fewer.contains(y));
                        assert(rest.to_set().contains(y));
                        let n = choose|n: int| 0 <= n < rest.len() && rest[n] == y;
                        assert(found[n + 1] == y);
                    }
                }
            }
        }
        k
    }
}

/// The entry holds, behind `path`, the item `x` and then only items that
/// outrank `x`.
pub open spec fn anchored(db: Database, path: Seq<Label>, entry: (Seq<Label>, nat), x: Label) -> bool {
    &&& path.push(x).is_prefix_of(entry.0)
    &&& forall|n: int| path.len() < n < entry.0.len() ==> outranks(db, #[trigger] entry.0[n], x)
}

/// What mining finds for the `i`-th item, a frequent one, is anchored at
/// that item.
pub proof fn lemma_block_anchor(db: Database, min_support: nat, path: Seq<Label>, i: nat, k: int)
    requires
        i < sorted_items(db).len(),
        frequency(db, sorted_items(db)[i as int]) >= min_support,
        0 <= k <= mine_from(
            conditional(db, min_support, sorted_items(db)[i as int]),
            min_support,
            path.push(sorted_items(db)[i as int]),
            0,
        ).len(),
    ensures
        k < mine_from(db, min_support, path, i).len(),
        anchored(db, path, mine_from(db, min_support, path, i)[k], sorted_items(db)[i as int]),
{
    let x = sorted_items(db)[i as int];
    let deeper = path.push(x);
    let below = conditional(db, min_support, x);
    let sub = mine_from(below, min_support, deeper, 0);
    let rest = mine_from(db, min_support, path, i + 1);
    let head = seq![(deeper, frequency(db, x))];
    let mined = mine_from(db, min_support, path, i);
    assert(mined == head + sub + rest);
    let entry = mined[k];
    if k == 0 {
        assert(deeper =~= entry.0.subrange(0, deeper.len() as int));
    } else {
        assert(entry == sub[k - 1]);
        lemma_mined_entry(below, min_support, deeper, 0, k - 1);
        let inner = entry.0.skip(deeper.len() as int);
        assert forall|n: int| path.len() < n < entry.0.len() implies outranks(
            db,
            #[trigger] entry.0[n],
            x,
        ) by {
            assert(inner[n - deeper.len()] == entry.0[n]);
            assert(inner.contains(entry.0[n]));
            lemma_conditional_items(db, min_support, x, entry.0[n]);
        }
    }
}

/// Every entry that mining finds from the `i`-th item on is anchored at
/// that item or a later one.
pub proof fn lemma_mined_anchor(db: Database, min_support: nat, path: Seq<Label>, i: nat, k: int) -> (b:
    nat)
    requires
        0 <= k < mine_from(db, min_support, path, i).len(),
    ensures
        i <= b < sorted_items(db).len(),
        anchored(db, path, mine_from(db, min_support, path, i)[k], sorted_items(db)[b as int]),
    decreases sorted_items(db).len() - i,
{
    let x = sorted_items(db)[i as int];
    let rest = mine_from(db, min_support, path, i + 1);
    if frequency(db, x) >= min_support {
        let sub = mine_from(conditional(db, min_support, x), min_support, path.push(x), 0);
        let head = seq![(path.push(x), frequency(db, x))];
        assert(mine_from(db, min_support, path, i) == head + sub + rest);
        if k <= sub.len() {
            lemma_block_anchor(db, min_support, path, i, k);
            i
        } else {
            lemma_mined_anchor(db, min_support, path, i + 1, k - 1 - sub.len())
        }
    } else {
        lemma_mined_anchor(db, min_support, path, i + 1, k)
    }
}

/// Two entries that are anchored at different items hold different sets.
pub proof fn lemma_anchors_differ(
    db: Database,
    path: Seq<Label>,
    first: (Seq<Label>, nat),
    x: Label,
    second: (Seq<Label>, nat),
    y: Label,
)
    requires
        anchored(db, path, first, x),
        anchored(db, path, second, y),
        x != y,
    ensures
        first.0.skip(path.len() as int).to_set() != second.0.skip(path.len() as int).to_set(),
{
    let n = path.len() as int;
    let p = first.0.skip(n);
    let q = second.0.skip(n);
    assert(first.0[n] == path.push(x)[n]);
    assert(second.0[n] == path.push(y)[n]);
    assert(p[0] == x && q[0] == y);
    if p.to_set() == q.to_set() {
        assert(p.contains(x) && q.contains(y));
        assert(q.to_set().contains(x));
        assert(p.to_set().contains(y));
        let a = choose|a: int| 0 <= a < q.len() && q[a] == x;
        let b = choose|b: int| 0 <= b < p.len() && p[b] == y;
        assert(second.0[n + a] == x);
        assert(first.0[n + b] == y);
        lemma_outranks_asymmetric(db, x, y);
    }
}

/// No two entries that mining finds hold the same set of items.
pub proof fn lemma_mined_distinct(
    db: Database,
    min_support: nat,
    path: Seq<Label>,
    i: nat,
    j: int,
    k: int,
)
    requires
        0 <= j < k < mine_from(db, min_support, path, i).len(),
    ensures
        mine_from(db, min_support, path, i)[j].0.skip(path.len() as int).to_set() != mine_from(
            db,
            min_support,
            path,
            i,
        )[k].0.skip(path.len() as int).to_set(),
    decreases volume(db), sorted_items(db).len() - i,
{
    let keys = sorted_items(db);
    let x = keys[i as int];
    let rest = mine_from(db, min_support, path, i + 1);
    let mined = mine_from(db, min_support, path, i);
    if frequency(db, x) >= min_support {
        let deeper = path.push(x);
        let below = conditional(db, min_support, x);
        let sub = mine_from(below, min_support, deeper, 0);
        let head = seq![(deeper, frequency(db, x))];
        assert(mined == head + sub + rest);
        let n = path.len() as int;
        if k <= sub.len() {
            lemma_block_anchor(db, min_support, path, i, j);
            lemma_block_anchor(db, min_support, path, i, k);
            lemma_mined_entry(below, min_support, deeper, 0, k - 1);
            let p = mined[j].0.skip(n);
            let q = mined[k].0.skip(n);
            let q_rest = mined[k].0.skip(n + 1);
            assert(mined[k] == sub[k - 1]);
            assert(mined[k].0[n] == deeper[n]);
            assert(q =~= seq![x] + q_rest);
            lemma_outranks_asymmetric(db, x, x);
            assert(q[1] == mined[k].0[n + 1]);
            assert(q[1] != x);
            assert(q.contains(q[1]));
            if j == 0 {
                assert(p =~= seq![x]);
                if p.to_set() == q.to_set() {
                    assert(p.to_set().contains(q[1]));
                    let a = choose|a: int| 0 <= a < p.len() && p[a] == q[1];
                }
            } else {
                lemma_sorted_items(db);
                assert(keys.contains(x));
                lemma_conditional_size(db, min_support, x);
                lemma_mined_distinct(below, min_support, deeper, 0, j - 1, k - 1);
                lemma_mined_entry(below, min_support, deeper, 0, j - 1);
                let p_rest = mined[j].0.skip(n + 1);
                assert(mined[j] == sub[j - 1]);
                assert(mined[j].0[n] == deeper[n]);
                assert(p =~= seq![x] + p_rest);
                if p.to_set() == q.to_set() {
                    assert forall|y: Label| p_rest.to_set().contains(y) <==> q_rest.to_set().contains(
                        y,
                    ) by {
                        if p_rest.contains(y) {
                            let a = choose|a: int| 0 <= a < p_rest.len() && p_rest[a] == y;
                            assert(p[a + 1] == y);
                            assert(mined[j].0[n + 1 + a] == y);
                            assert(p.to_set().contains(y));
                            assert(q.contains(y));
                            let b = choose|b: int| 0 <= b < q.len() && q[b] == y;
                            assert(q_rest[b - 1] == y);
                        }
                        if q_rest.contains(y) {
                            let a = choose|a: int| 0 <= a < q_rest.len() && q_rest[a] == y;
                            assert(q[a + 1] == y);
                            assert(mined[k].0[n + 1 + a] == y);
                            assert(q.to_set().contains(y));
                            assert(p.contains(y));
                            let b = choose|b: int| 0 <= b < p.len() && p[b] == y;
                            assert(p_rest[b - 1] == y);
                        }
                    }
                    assert(p_rest.to_set() =~= q_rest.to_set());
                }
            }
        } else if j <= sub.len() {
            lemma_block_anchor(db, min_support, path, i, j);
            let b = lemma_mined_anchor(db, min_support, path, i + 1, k - 1 - sub.len());
            lemma_sorted_items(db);
            assert(label_before(keys[i as int], keys[b as int]));
            lemma_label_irreflexive(x);
            lemma_anchors_differ(db, path, mined[j], x, mined[k], keys[b as int]);
        } else {
            lemma_mined_distinct(db, min_support, path, i + 1, j - 1 - sub.len(), k - 1 - sub.len());
        }
    } else {
        lemma_mined_distinct(db, min_support, path, i + 1, j, k);
    }
}

} // verus!
