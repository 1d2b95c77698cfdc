//! Preparing a row for the tree: the frequent items of a transaction, in the
//! order of the frequency table.

use crate::database::{arrange, frequency, mentions, outranks, place, table_of, Database};
use crate::label::{compare_labels, labels_of, Label, Placement};
use crate::lemmas::items::{lemma_frequency_unmentioned, lemma_table_tally};
use crate::table::FrequencyTable;
use vstd::prelude::*;

verus! {

/// Placing `x` puts it at the index behind which every item is outranked by
/// `x`, and in front of which the next item is not.
pub proof fn lemma_place_at(db: Database, s: Seq<Label>, x: Label, pos: int)
    requires
        0 <= pos <= s.len(),
        forall|k: int| pos <= k < s.len() ==> outranks(db, x, #[trigger] s[k]),
        pos > 0 ==> !outranks(db, x, s[pos - 1]),
    ensures
        place(db, s, x) == s.insert(pos, x),
    decreases s.len(),
{
    if s.len() == 0 {
        assert(s.insert(0, x) =~= seq![x]);
    } else if outranks(db, x, s.last()) {
        let front = s.drop_last();
        assert(s[s.len() - 1] == s.last());
        assert(pos < s.len());
        assert forall|k: int| pos <= k < front.len() implies outranks(db, x, #[trigger] front[k]) by {
            assert(front[k] == s[k]);
        }
        if pos > 0 {
            assert(front[pos - 1] == s[pos - 1]);
        }
        lemma_place_at(db, front, x, pos);
        assert(s.insert(pos, x) =~= front.insert(pos, x).push(s.last()));
    } else {
        if pos < s.len() {
            assert(outranks(db, x, s[s.len() - 1]));
        }
        assert(s.insert(pos, x) =~= s.push(x));
    }
}

/// The arranged row of a transaction: its items that reach `min_support`,
/// the more frequent first and equally frequent ones by label.
pub(crate) fn arrange_row<'a>(
    table: &FrequencyTable<'a>,
    min_support: usize,
    transaction: &Vec<&'a str>,
    Ghost(db): Ghost<Database>,
) -> (row: Vec<&'a str>)
    requires
        table@ == table_of(db),
    ensures
        labels_of(row@) == arrange(db, min_support as nat, labels_of(transaction@)),
{
    let mut row: Vec<&'a str> = Vec::new();
    let mut ranks: Vec<usize> = Vec::new();
    let ghost items = labels_of(transaction@);
    let mut i: usize = 0;
    assert(items.take(0) =~= Seq::<Label>::empty());
    assert(labels_of(row@) =~= Seq::<Label>::empty());
    while i < transaction.len()
        invariant
            table@ == table_of(db),
            items == labels_of(transaction@),
            0 <= i <= transaction.len(),
            ranks.len() == row.len(),
            forall|k: int| 0 <= k < row.len() ==> #[trigger] ranks[k] == frequency(db, row[k]@),
            labels_of(row@) == arrange(db, min_support as nat, items.take(i as int)),
        decreases transaction.len() - i,
    {
        let item = transaction[i];
        proof {
            lemma_table_tally(db, item@);
            if !mentions(db, item@) {
                lemma_frequency_unmentioned(db, item@);
            }
            assert(items.take(i + 1).drop_last() =~= items.take(i as int));
            assert(items.take(i + 1).last() == item@);
        }
        let tally = match table.get(item) {
            Some(n) => n,
            None => 0,
        };
        assert(tally == frequency(db, item@));
        if tally >= min_support {
            let mut pos: usize = row.len();
            while pos > 0 && (tally > ranks[pos - 1] || (tally == ranks[pos - 1] && compare_labels(
                item,
                row[pos - 1],
            ) == Placement::Before))
                invariant
                    0 <= pos <= row.len(),
                    ranks.len() == row.len(),
                    tally == frequency(db, item@),
                    forall|k: int| 0 <= k < row.len() ==> #[trigger] ranks[k] == frequency(db, row[k]@),
                    forall|k: int| pos <= k < row.len() ==> outranks(db, item@, #[trigger] row[k]@),
                decreases pos,
            {
                pos -= 1;
            }
            proof {
                let before = labels_of(row@);
                assert forall|k: int| pos <= k < before.len() implies outranks(
                    db,
                    item@,
                    #[trigger] before[k],
                ) by {
                    assert(before[k] == row[k]@);
                }
                if pos > 0 {
                    assert(before[pos - 1] == row[pos - 1]@);
                    assert(ranks[pos - 1] == frequency(db, row[pos - 1]@));
                }
                lemma_place_at(db, before, item@, pos as int);
            }
            let ghost before = labels_of(row@);
            row.insert(pos, item);
            ranks.insert(pos, tally);
            assert(labels_of(row@) =~= before.insert(pos as int, item@));
        }
        i += 1;
    }
    assert(items.take(i as int) =~= items);
    row
}

} // verus!
