//! The frequency table: items in label order, each with its tally.

use crate::label::{
    compare_labels, label_before, lemma_label_irreflexive, lemma_label_transitive, Label, Placement,
};
use vstd::prelude::*;

verus! {

/// The labels of a table's entries, in order.
pub open spec fn keys_of(entries: Seq<(Label, nat)>) -> Seq<Label> {
    Seq::new(entries.len(), |i: int| entries[i].0)
}

/// The entries are in strictly increasing label order.
pub open spec fn ordered(entries: Seq<(Label, nat)>) -> bool {
    forall|i: int, j: int|
        0 <= i < j < entries.len() ==> label_before(
            (#[trigger] entries[i]).0,
            (#[trigger] entries[j]).0,
        )
}

/// The tally that the entries hold for `x`.
pub open spec fn tally(entries: Seq<(Label, nat)>, x: Label) -> Option<nat>
    decreases entries.len(),
{
    if entries.len() == 0 {
        None
    } else if entries.last().0 == x {
        Some(entries.last().1)
    } else {
        tally(entries.drop_last(), x)
    }
}

/// The entries after `weight` has been counted for `x`: the tally of `x`
/// grows by `weight`, and an item not yet in the table enters at its place.
pub open spec fn counted(entries: Seq<(Label, nat)>, x: Label, weight: nat) -> Seq<(Label, nat)>
    decreases entries.len(),
{
    if entries.len() == 0 {
        seq![(x, weight)]
    } else if entries.last().0 == x {
        entries.drop_last().push((x, entries.last().1 + weight))
    } else if label_before(entries.last().0, x) {
        entries.push((x, weight))
    } else {
        counted(entries.drop_last(), x, weight).push(entries.last())
    }
}

/// The first index whose label does not sort before `x`.
pub open spec fn is_lower_bound(entries: Seq<(Label, nat)>, x: Label, pos: int) -> bool {
    &&& 0 <= pos <= entries.len()
    &&& forall|k: int| 0 <= k < pos ==> label_before((#[trigger] entries[k]).0, x)
    &&& forall|k: int| pos <= k < entries.len() ==> !label_before((#[trigger] entries[k]).0, x)
}

/// In an ordered table the tally of `x` stands at its lower bound, if anywhere.
pub proof fn lemma_tally_at_bound(entries: Seq<(Label, nat)>, x: Label, pos: int)
    requires
        ordered(entries),
        is_lower_bound(entries, x, pos),
    ensures
        tally(entries, x) == if pos < entries.len() && entries[pos].0 == x {
            Some(entries[pos].1)
        } else {
            None::<nat>
        },
    decreases entries.len(),
{
    if entries.len() > 0 {
        let last = entries.len() - 1;
        let front = entries.drop_last();
        if entries.last().0 == x {
            lemma_label_irreflexive(x);
            if pos < last {
                assert(label_before(entries[pos].0, entries[last].0));
            }
        } else if pos == entries.len() {
            assert(is_lower_bound(front, x, pos - 1)) by {
                assert forall|k: int| pos - 1 <= k < front.len() implies !label_before(
                    (#[trigger] front[k]).0,
                    x,
                ) by {}
            }
            lemma_tally_none_when_all_before(front, x);
        } else {
            assert(is_lower_bound(front, x, pos)) by {
                assert forall|k: int| 0 <= k < pos implies label_before((#[trigger] front[k]).0, x) by {
                    assert(front[k] == entries[k]);
                }
                assert forall|k: int| pos <= k < front.len() implies !label_before(
                    (#[trigger] front[k]).0,
                    x,
                ) by {
                    assert(front[k] == entries[k]);
                }
            }
            assert(ordered(front)) by {
                assert forall|i: int, j: int| 0 <= i < j < front.len() implies label_before(
                    (#[trigger] front[i]).0,
                    (#[trigger] front[j]).0,
                ) by {
                    assert(front[i] == entries[i] && front[j] == entries[j]);
                }
            }
            lemma_tally_at_bound(front, x, pos);
        }
    }
}

pub proof fn lemma_tally_none_when_all_before(entries: Seq<(Label, nat)>, x: Label)
    requires
        forall|k: int| 0 <= k < entries.len() ==> label_before((#[trigger] entries[k]).0, x),
    ensures
        tally(entries, x) == None::<nat>,
    decreases entries.len(),
{
    if entries.len() > 0 {
        lemma_label_irreflexive(x);
        let front = entries.drop_last();
        assert(label_before(entries[entries.len() - 1].0, x));
        assert forall|k: int| 0 <= k < front.len() implies label_before((#[trigger] front[k]).0, x) by {
            assert(front[k] == entries[k]);
        }
        lemma_tally_none_when_all_before(front, x);
    }
}

/// Counting for `x` in an ordered table changes the entry at the lower bound
/// of `x`, or puts a new entry there.
pub proof fn lemma_counted_at_bound(entries: Seq<(Label, nat)>, x: Label, weight: nat, pos: int)
    requires
        ordered(entries),
        is_lower_bound(entries, x, pos),
    ensures
        counted(entries, x, weight) == if pos < entries.len() && entries[pos].0 == x {
            entries.update(pos, (x, entries[pos].1 + weight))
        } else {
            entries.insert(pos, (x, weight))
        },
    decreases entries.len(),
{
    if entries.len() == 0 {
        assert(entries.insert(0, (x, weight)) =~= seq![(x, weight)]);
    } else {
        let last = entries.len() - 1;
        let front = entries.drop_last();
        if entries.last().0 == x {
            lemma_label_irreflexive(x);
            if pos < last {
                assert(label_before(entries[pos].0, entries[last].0));
            }
            assert(pos == last);
            assert(entries.update(pos, (x, entries[pos].1 + weight)) =~= front.push(
                (x, entries.last().1 + weight),
            ));
        } else if label_before(entries.last().0, x) {
            assert(pos == entries.len());
            assert(entries.insert(pos, (x, weight)) =~= entries.push((x, weight)));
        } else {
            assert(pos <= last);
            assert(is_lower_bound(front, x, pos)) by {
                assert forall|k: int| 0 <= k < pos implies label_before((#[trigger] front[k]).0, x) by {
                    assert(front[k] == entries[k]);
                }
                assert forall|k: int| pos <= k < front.len() implies !label_before(
                    (#[trigger] front[k]).0,
                    x,
                ) by {
                    assert(front[k] == entries[k]);
                }
            }
            assert(ordered(front)) by {
                assert forall|i: int, j: int| 0 <= i < j < front.len() implies label_before(
                    (#[trigger] front[i]).0,
                    (#[trigger] front[j]).0,
                ) by {
                    assert(front[i] == entries[i] && front[j] == entries[j]);
                }
            }
            lemma_counted_at_bound(front, x, weight, pos);
            if pos < front.len() && front[pos].0 == x {
                assert(front[pos] == entries[pos]);
                assert(entries.update(pos, (x, entries[pos].1 + weight)) =~= front.update(
                    pos,
                    (x, front[pos].1 + weight),
                ).push(entries.last()));
            } else {
                if pos < front.len() {
                    assert(front[pos] == entries[pos]);
                }
                assert(entries.insert(pos, (x, weight)) =~= front.insert(pos, (x, weight)).push(
                    entries.last(),
                ));
            }
        }
    }
}

/// Counting keeps a table ordered.
pub proof fn lemma_counted_ordered(entries: Seq<(Label, nat)>, x: Label, weight: nat, pos: int)
    requires
        ordered(entries),
        is_lower_bound(entries, x, pos),
    ensures
        ordered(counted(entries, x, weight)),
{
    lemma_counted_at_bound(entries, x, weight, pos);
    let after = counted(entries, x, weight);
    if pos < entries.len() && entries[pos].0 == x {
        assert forall|i: int, j: int| 0 <= i < j < after.len() implies label_before(
            (#[trigger] after[i]).0,
            (#[trigger] after[j]).0,
        ) by {
            assert(after[i].0 == entries[i].0 && after[j].0 == entries[j].0);
        }
    } else {
        assert forall|i: int, j: int| 0 <= i < j < after.len() implies label_before(
            (#[trigger] after[i]).0,
            (#[trigger] after[j]).0,
        ) by {
            if j == pos {
                assert(after[i] == entries[i]);
            } else if i == pos {
                assert(after[j] == entries[j - 1]);
                crate::label::lemma_label_connected(entries[j - 1].0, x);
            } else {
                let a = if i < pos { i } else { i - 1 };
                let b = if j < pos { j } else { j - 1 };
                assert(after[i] == entries[a] && after[j] == entries[b]);
            }
        }
    }
}

/// A frequency table: the items counted so far, in label order, each with
/// its tally.
#[derive(Debug)]
pub struct FrequencyTable<'a> {
    entries: Vec<(&'a str, usize)>,
}

impl<'a> View for FrequencyTable<'a> {
    type V = Seq<(Label, nat)>;

    closed spec fn view(&self) -> Seq<(Label, nat)> {
        Seq::new(self.entries@.len(), |i: int| (self.entries@[i].0@, self.entries@[i].1 as nat))
    }
}

impl<'a> FrequencyTable<'a> {
    /// The table is in strictly increasing label order.
    pub open spec fn well_formed(&self) -> bool {
        ordered(self@)
    }

    /// An empty table.
    pub fn new() -> (table: Self)
        ensures
            table@ == Seq::<(Label, nat)>::empty(),
            table.well_formed(),
    {
        let table = FrequencyTable { entries: Vec::new() };
        assert(table@ =~= Seq::<(Label, nat)>::empty());
        table
    }

    /// The number of items in the table.
    pub fn len(&self) -> (n: usize)
        ensures
            n == self@.len(),
    {
        self.entries.len()
    }

    /// The item at index `i`, in label order.
    pub fn key(&self, i: usize) -> (item: &'a str)
        requires
            i < self@.len(),
        ensures
            item@ == self@[i as int].0,
    {
        self.entries[i].0
    }

    /// The tally of the item at index `i`.
    pub fn count(&self, i: usize) -> (n: usize)
        requires
            i < self@.len(),
        ensures
            n == self@[i as int].1,
    {
        self.entries[i].1
    }

    /// The entries of the table, in label order.
    pub fn entries(&self) -> (entries: &Vec<(&'a str, usize)>)
        ensures
            entries@.len() == self@.len(),
            forall|i: int|
                0 <= i < entries@.len() ==> (#[trigger] entries@[i]).0@ == self@[i].0
                    && entries@[i].1 == self@[i].1,
    {
        &self.entries
    }

    fn position(&self, item: &str) -> (pos: usize)
        requires
            self.well_formed(),
        ensures
            is_lower_bound(self@, item@, pos as int),
    {
        let mut lo: usize = 0;
        let mut hi: usize = self.entries.len();
        while lo < hi
            invariant
                self.well_formed(),
                0 <= lo <= hi <= self.entries.len(),
                self@.len() == self.entries.len(),
                forall|k: int| 0 <= k < lo ==> label_before((#[trigger] self@[k]).0, item@),
                forall|k: int| hi <= k < self@.len() ==> !label_before((#[trigger] self@[k]).0, item@),
            decreases hi - lo,
        {
            let mid = lo + (hi - lo) / 2;
            let here = self.entries[mid].0;
            assert(here@ == self@[mid as int].0);
            match compare_labels(here, item) {
                Placement::Before => {
                    proof {
                        assert forall|k: int| 0 <= k < mid + 1 implies label_before(
                            (#[trigger] self@[k]).0,
                            item@,
                        ) by {
                            if k < mid {
                                assert(label_before(self@[k].0, self@[mid as int].0));
                                lemma_label_transitive(self@[k].0, here@, item@);
                            }
                        }
                    }
                    lo = mid + 1;
                },
                _ => {
                    proof {
                        assert forall|k: int| mid <= k < self@.len() implies !label_before(
                            (#[trigger] self@[k]).0,
                            item@,
                        ) by {
                            if k > mid && label_before(self@[k].0, item@) {
                                assert(label_before(self@[mid as int].0, self@[k].0));
                                lemma_label_transitive(here@, self@[k].0, item@);
                            }
                        }
                    }
                    hi = mid;
                },
            }
        }
        lo
    }

    /// The tally of `item`, if the table holds it.
    pub fn get(&self, item: &str) -> (found: Option<usize>)
        requires
            self.well_formed(),
        ensures
            match found {
                Some(n) => tally(self@, item@) == Some(n as nat),
                None => tally(self@, item@) == None::<nat>,
            },
    {
        let pos = self.position(item);
        proof {
            lemma_tally_at_bound(self@, item@, pos as int);
        }
        if pos < self.entries.len() {
            let here = self.entries[pos];
            assert(here.0@ == self@[pos as int].0);
            match compare_labels(here.0, item) {
                Placement::Same => Some(here.1),
                _ => None,
            }
        } else {
            None
        }
    }

    /// Counts `weight` more occurrences of `item`.
    pub fn add(&mut self, item: &'a str, weight: usize)
        requires
            old(self).well_formed(),
            match tally(old(self)@, item@) {
                Some(n) => n + weight <= usize::MAX,
                None => true,
            },
        ensures
            final(self)@ == counted(old(self)@, item@, weight as nat),
            final(self).well_formed(),
    {
        let pos = self.position(item);
        proof {
            lemma_tally_at_bound(self@, item@, pos as int);
            lemma_counted_at_bound(self@, item@, weight as nat, pos as int);
            lemma_counted_ordered(self@, item@, weight as nat, pos as int);
        }
        let ghost before = self@;
        if pos < self.entries.len() {
            let here = self.entries[pos];
            assert(here.0@ == self@[pos as int].0);
            match compare_labels(here.0, item) {
                Placement::Same => {
                    self.entries.set(pos, (here.0, here.1 + weight));
                    let ghost more = (before[pos as int].1 + weight) as nat;
                    assert(self@ =~= before.update(pos as int, (item@, more)));
                    return ;
                },
                _ => {},
            }
        }
        self.entries.insert(pos, (item, weight));
        assert(self@ =~= before.insert(pos as int, (item@, weight as nat)));
    }
}

} // verus!
