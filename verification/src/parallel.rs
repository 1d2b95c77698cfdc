//! Mining with the branches of the items handed out to a pool of threads.

use crate::database::{
    frequency, mass, mentions, sorted_items, table_of, unit_view, volume, weighted_view,
};
use crate::label::{labels_of, Label};
use crate::lemmas::conditional::lemma_conditional_size;
use crate::lemmas::items::lemma_sorted_items;
use crate::mining::{branch_sets, frequent_sets, lemma_mine_step, mine_from};
use crate::node::copy_items;
use crate::tree::FpTree;
use rayon::iter::{IntoParallelRefIterator, ParallelIterator};
use vstd::prelude::*;

verus! {

/// Applies `f` to every item of `items` on rayon's thread pool, through
/// `par_iter`, `ParallelIterator::map` and `ParallelIterator::collect`.
/// The contract claims that the result holds, at each index, what one call
/// of `f` on the item at that index returned: `collect` into a `Vec` keeps
/// the items of an indexed parallel iterator in their order.
#[verifier::external_body]
fn par_map<T: Sync, U: Send, F: Fn(&T) -> U + Sync + Send>(items: &Vec<T>, f: F) -> (out: Vec<U>)
    requires
        forall|i: int| 0 <= i < items.len() ==> call_requires(f, (&#[trigger] items[i],)),
    ensures
        out.len() == items.len(),
        forall|i: int| 0 <= i < items.len() ==> call_ensures(f, (&items[i],), #[trigger] out[i]),
{
    items.par_iter().map(f).collect()
}

/// What mining finds for one item of the tree's frequency table: where the
/// item reaches the minimum support, the set `path` with the item and what
/// the item's conditional tree gives for that set.
fn handle_item<'a>(
    fp_tree: &FpTree<'a>,
    path: &Vec<&'a str>,
    item: &'a str,
    tally: usize,
) -> (found: Vec<(Vec<&'a str>, usize)>)
    requires
        fp_tree.well_formed(),
        mentions(fp_tree.source(), item@),
        tally == frequency(fp_tree.source(), item@),
    ensures
        weighted_view(found@) == branch_sets(
            fp_tree.source(),
            fp_tree.threshold(),
            labels_of(path@),
            item@,
        ),
    decreases volume(fp_tree.source()), 0nat,
{
    let mut found: Vec<(Vec<&'a str>, usize)> = Vec::new();
    if tally >= fp_tree.min_support() {
        let mut extended = copy_items(path);
        extended.push(item);
        let ghost longer = labels_of(path@).push(item@);
        assert(labels_of(extended@) =~= longer);
        found.push((copy_items(&extended), tally));
        let conditional_tree = fp_tree.build_conditional_tree(item);
        proof {
            lemma_conditional_size(fp_tree.source(), fp_tree.threshold(), item@);
        }
        let mut below = parallel_fp_growth_tree(&conditional_tree, &extended);
        let ghost head = found@;
        let ghost deeper = below@;
        found.append(&mut below);
        assert(weighted_view(found@) =~= seq![(longer, tally as nat)] + weighted_view(deeper));
    } else {
        assert(weighted_view(found@) =~= Seq::empty());
    }
    found
}

/// Mines a tree with one task for each item of its frequency table; what
/// the tasks find is put together in the order of the items.
pub fn parallel_fp_growth_tree<'a>(fp_tree: &FpTree<'a>, path: &Vec<&'a str>) -> (found: Vec<
    (Vec<&'a str>, usize),
>)
    requires
        fp_tree.well_formed(),
    ensures
        weighted_view(found@) == mine_from(
            fp_tree.source(),
            fp_tree.threshold(),
            labels_of(path@),
            0,
        ),
    decreases volume(fp_tree.source()), 1nat,
{
    let ghost db = fp_tree.source();
    let ghost min = fp_tree.threshold();
    let ghost steps = labels_of(path@);
    let entries = fp_tree.frequencies().entries();
    let task = |entry: &(&'a str, usize)| -> (found: Vec<(Vec<&'a str>, usize)>)
        requires
            mentions(fp_tree.source(), entry.0@),
            entry.1 == frequency(fp_tree.source(), entry.0@),
        ensures
            weighted_view(found@) == branch_sets(
                fp_tree.source(),
                fp_tree.threshold(),
                labels_of(path@),
                entry.0@,
            ),
        { handle_item(fp_tree, path, entry.0, entry.1) };
    proof {
        lemma_sorted_items(db);
        assert forall|i: int| 0 <= i < entries.len() implies call_requires(
            task,
            (&#[trigger] entries[i],),
        ) by {
            assert(table_of(db)[i].0 == sorted_items(db)[i]);
            assert(sorted_items(db).contains(sorted_items(db)[i]));
        }
    }
    let mut branches = par_map(entries, task);
    let mut found: Vec<(Vec<&'a str>, usize)> = Vec::new();
    let mut i: usize = 0;
    assert(weighted_view(found@) + mine_from(db, min, steps, 0) =~= mine_from(db, min, steps, 0));
    while i < branches.len()
        invariant
            0 <= i <= branches.len(),
            branches.len() == entries.len(),
            entries.len() == sorted_items(db).len(),
            forall|k: int| 0 <= k < entries.len() ==> (#[trigger] entries[k]).0@ == sorted_items(db)[k],
            forall|k: int|
                i <= k < branches.len() ==> weighted_view((#[trigger] branches[k])@)
                    == branch_sets(db, min, steps, sorted_items(db)[k]),
            weighted_view(found@) + mine_from(db, min, steps, i as nat) == mine_from(
                db,
                min,
                steps,
                0,
            ),
        decreases branches.len() - i,
    {
        let ghost sooner = found@;
        let ghost part = branches[i as int]@;
        found.append(&mut branches[i]);
        proof {
            lemma_mine_step(db, min, steps, i as nat);
            let rest = mine_from(db, min, steps, (i + 1) as nat);
            assert(weighted_view(found@) =~= weighted_view(sooner) + weighted_view(part));
            assert(weighted_view(found@) + rest =~= weighted_view(sooner) + (weighted_view(part)
                + rest));
        }
        i += 1;
    }
    assert(weighted_view(found@) + Seq::<(Seq<Label>, nat)>::empty() =~= weighted_view(found@));
    found
}

/// The frequent item sets of a list of transactions, mined in parallel:
/// the list that `fp_growth` returns, with the same sets and counts in the
/// same order. The branches of the items run as tasks of rayon's thread
/// pool, and a branch hands out the items of its conditional tree in turn;
/// a task that panics takes the whole call with it.
pub fn parallel_fp_growth<'a>(transactions: &[Vec<&'a str>], min_support: usize) -> (found: Vec<
    (Vec<&'a str>, usize),
>)
    requires
        mass(unit_view(transactions@)) <= usize::MAX,
    ensures
        weighted_view(found@) == frequent_sets(unit_view(transactions@), min_support as nat),
{
    let fp_tree = FpTree::new(transactions, min_support);
    let path: Vec<&'a str> = Vec::new();
    assert(labels_of(path@) =~= Seq::<Label>::empty());
    parallel_fp_growth_tree(&fp_tree, &path)
}

} // verus!
