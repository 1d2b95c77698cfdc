//! Association rules from the counts of frequent item sets.
//!
//! A rule splits an item set into one item, the consequent, and the other
//! items, the antecedent. The library gives each rule the counts that its
//! measures are made of: the support of a set is its count divided by the
//! number of transactions, the confidence of a rule is the support of the
//! whole set divided by that of the antecedent, and its lift is the
//! confidence divided by the support of the consequent.

use crate::database::Database;
use crate::label::Label;
use vstd::prelude::*;

verus! {

/// Why no rules could be made.
#[derive(Clone, Copy, Debug, PartialEq, Eq, Structural)]
pub enum RuleError {
    /// There are no transactions, so no set has a support.
    NoTransactions,
    /// The antecedent or the consequent of a rule is not among the item sets.
    MissingItemSet,
    /// The antecedent or the consequent of a rule has the count zero, so
    /// the rule has no confidence or no lift.
    ZeroSupport,
}

/// The value of a rule.
pub ghost struct RuleView {
    pub antecedent: Seq<Label>,
    pub consequent: Seq<Label>,
    pub antecedent_count: nat,
    pub consequent_count: nat,
    pub combined_count: nat,
    pub num_transactions: nat,
}

/// An association rule with the counts behind its measures.
#[derive(Debug, PartialEq, Eq)]
pub struct AssociationRule {
    pub antecedent_set: Vec<String>,
    pub consequent_set: Vec<String>,
    pub antecedent_count: usize,
    pub consequent_count: usize,
    pub combined_count: usize,
    pub num_transactions: usize,
}

/// The labels of a list of items.
pub open spec fn names_of(items: Seq<String>) -> Seq<Label> {
    Seq::new(items.len(), |i: int| items[i]@)
}

/// The item sets with their counts that a list of pairs stands for.
pub open spec fn counts_view(list: Seq<(Vec<String>, usize)>) -> Database {
    Seq::new(list.len(), |i: int| (names_of(list[i].0@), list[i].1 as nat))
}

/// The values of a list of rules.
pub open spec fn rules_view(rules: Seq<AssociationRule>) -> Seq<RuleView> {
    Seq::new(rules.len(), |i: int| rules[i]@)
}

impl View for AssociationRule {
    type V = RuleView;

    open spec fn view(&self) -> RuleView {
        RuleView {
            antecedent: names_of(self.antecedent_set@),
            consequent: names_of(self.consequent_set@),
            antecedent_count: self.antecedent_count as nat,
            consequent_count: self.consequent_count as nat,
            combined_count: self.combined_count as nat,
            num_transactions: self.num_transactions as nat,
        }
    }
}

/// The count of the item set `key`: that of the last pair with these items.
pub open spec fn count_of(sets: Database, key: Seq<Label>) -> Option<nat>
    decreases sets.len(),
{
    if sets.len() == 0 {
        None
    } else if sets.last().0 == key {
        Some(sets.last().1)
    } else {
        count_of(sets.drop_last(), key)
    }
}

/// The items of `set` without `x`, in their order.
pub open spec fn without_item(set: Seq<Label>, x: Label) -> Seq<Label>
    decreases set.len(),
{
    if set.len() == 0 {
        Seq::empty()
    } else if set.last() == x {
        without_item(set.drop_last(), x)
    } else {
        without_item(set.drop_last(), x).push(set.last())
    }
}

/// The rule that makes `x` the consequent of `set`, which has the count
/// `combined`; or why there is no such rule.
pub open spec fn rule_for(
    sets: Database,
    num_transactions: nat,
    set: Seq<Label>,
    combined: nat,
    x: Label,
) -> Result<RuleView, RuleError> {
    if num_transactions == 0 {
        Err(RuleError::NoTransactions)
    } else {
        match (count_of(sets, without_item(set, x)), count_of(sets, seq![x])) {
            (Some(antecedent_count), Some(consequent_count)) => {
                if antecedent_count == 0 || consequent_count == 0 {
                    Err(RuleError::ZeroSupport)
                } else {
                    Ok(
                        RuleView {
                            antecedent: without_item(set, x),
                            consequent: seq![x],
                            antecedent_count,
                            consequent_count,
                            combined_count: combined,
                            num_transactions,
                        },
                    )
                }
            },
            _ => Err(RuleError::MissingItemSet),
        }
    }
}

/// The rules for the first `upto` items of `set`, in the order of the
/// items; or the first reason why one of them cannot be made.
pub open spec fn rules_for_set(
    sets: Database,
    num_transactions: nat,
    set: Seq<Label>,
    combined: nat,
    upto: nat,
) -> Result<Seq<RuleView>, RuleError>
    decreases upto,
{
    if upto == 0 {
        Ok(Seq::empty())
    } else {
        match rules_for_set(sets, num_transactions, set, combined, (upto - 1) as nat) {
            Err(e) => Err(e),
            Ok(rules) => match rule_for(sets, num_transactions, set, combined, set[upto - 1]) {
                Err(e) => Err(e),
                Ok(rule) => Ok(rules.push(rule)),
            },
        }
    }
}

/// The rules for the first `upto` item sets; sets of one item give none.
pub open spec fn rules_upto(sets: Database, num_transactions: nat, upto: nat) -> Result<
    Seq<RuleView>,
    RuleError,
>
    decreases upto,
{
    if upto == 0 {
        Ok(Seq::empty())
    } else {
        match rules_upto(sets, num_transactions, (upto - 1) as nat) {
            Err(e) => Err(e),
            Ok(rules) => {
                let set = sets[upto - 1].0;
                if set.len() == 1 {
                    Ok(rules)
                } else {
                    match rules_for_set(sets, num_transactions, set, sets[upto - 1].1, set.len()) {
                        Err(e) => Err(e),
                        Ok(more) => Ok(rules + more),
                    }
                }
            },
        }
    }
}

/// The association rules of a list of item sets with their counts: for
/// every set of two or more items, and every item of it, the rule with that
/// item as the consequent and the others as the antecedent. Where the
/// antecedent or the consequent of a rule is not in the list, or has the
/// count zero, or where there are no transactions, the first such rule
/// decides the error.
pub open spec fn association_rules(sets: Database, num_transactions: nat) -> Result<
    Seq<RuleView>,
    RuleError,
> {
    rules_upto(sets, num_transactions, sets.len())
}

/// Whether two lists hold the same items in the same order.
pub fn same_items(a: &Vec<String>, b: &Vec<String>) -> (same: bool)
    ensures
        same == (names_of(a@) == names_of(b@)),
{
    if a.len() != b.len() {
        assert(names_of(a@).len() != names_of(b@).len());
        return false;
    }
    let mut i: usize = 0;
    while i < a.len()
        invariant
            0 <= i <= a.len(),
            a.len() == b.len(),
            forall|k: int| 0 <= k < i ==> a@[k]@ == b@[k]@,
        decreases a.len() - i,
    {
        if !(a[i] == b[i]) {
            assert(names_of(a@)[i as int] != names_of(b@)[i as int]);
            return false;
        }
        i += 1;
    }
    assert(names_of(a@) =~= names_of(b@));
    true
}

/// The count that a list of item sets holds for `key`.
pub fn find_count(sets: &[(Vec<String>, usize)], key: &Vec<String>) -> (found: Option<usize>)
    ensures
        match found {
            Some(n) => count_of(counts_view(sets@), names_of(key@)) == Some(n as nat),
            None => count_of(counts_view(sets@), names_of(key@)) == None::<nat>,
        },
{
    let ghost all = counts_view(sets@);
    let mut i: usize = sets.len();
    assert(all.take(i as int) =~= all);
    while i > 0
        invariant
            0 <= i <= sets.len(),
            all == counts_view(sets@),
            count_of(all, names_of(key@)) == count_of(all.take(i as int), names_of(key@)),
        decreases i,
    {
        i -= 1;
        proof {
            assert(all.take(i + 1).drop_last() =~= all.take(i as int));
            assert(all.take(i + 1).last() == all[i as int]);
        }
        if same_items(&sets[i].0, key) {
            return Some(sets[i].1);
        }
    }
    None
}

/// The items of `set` that are not `item`, in their order.
pub fn remove_item(set: &Vec<String>, item: &String) -> (rest: Vec<String>)
    ensures
        names_of(rest@) == without_item(names_of(set@), item@),
{
    let ghost names = names_of(set@);
    let mut rest: Vec<String> = Vec::new();
    let mut i: usize = 0;
    assert(names.take(0) =~= Seq::<Label>::empty());
    assert(names_of(rest@) =~= Seq::<Label>::empty());
    while i < set.len()
        invariant
            0 <= i <= set.len(),
            names == names_of(set@),
            names_of(rest@) == without_item(names.take(i as int), item@),
        decreases set.len() - i,
    {
        proof {
            assert(names.take(i + 1).drop_last() =~= names.take(i as int));
            assert(names.take(i + 1).last() == set@[i as int]@);
        }
        if !(set[i] == *item) {
            let ghost sooner = names_of(rest@);
            rest.push(set[i].clone());
            assert(names_of(rest@) =~= sooner.push(set@[i as int]@));
        }
        i += 1;
    }
    assert(names.take(i as int) =~= names);
    rest
}

impl AssociationRule {
    /// A rule from its two sides and the counts behind its measures.
    pub fn new(
        antecedent_set: Vec<String>,
        consequent_set: Vec<String>,
        antecedent_count: usize,
        consequent_count: usize,
        combined_count: usize,
        num_transactions: usize,
    ) -> (rule: Self)
        ensures
            rule@ == (RuleView {
                antecedent: names_of(antecedent_set@),
                consequent: names_of(consequent_set@),
                antecedent_count: antecedent_count as nat,
                consequent_count: consequent_count as nat,
                combined_count: combined_count as nat,
                num_transactions: num_transactions as nat,
            }),
    {
        Self {
            antecedent_set,
            consequent_set,
            antecedent_count,
            consequent_count,
            combined_count,
            num_transactions,
        }
    }
}

/// The rule that makes the item at `index` the consequent of `set`.
fn make_rule(
    sets: &[(Vec<String>, usize)],
    num_transactions: usize,
    set: &Vec<String>,
    combined: usize,
    index: usize,
) -> (result: Result<AssociationRule, RuleError>)
    requires
        index < set.len(),
    ensures
        match result {
            Ok(rule) => rule_for(
                counts_view(sets@),
                num_transactions as nat,
                names_of(set@),
                combined as nat,
                set@[index as int]@,
            ) == Ok::<RuleView, RuleError>(rule@),
            Err(e) => rule_for(
                counts_view(sets@),
                num_transactions as nat,
                names_of(set@),
                combined as nat,
                set@[index as int]@,
            ) == Err::<RuleView, RuleError>(e),
        },
{
    if num_transactions == 0 {
        return Err(RuleError::NoTransactions);
    }
    let item = &set[index];
    let antecedent_set = remove_item(set, item);
    let mut consequent_set: Vec<String> = Vec::new();
    consequent_set.push(item.clone());
    assert(names_of(consequent_set@) =~= seq![item@]);
    match (find_count(sets, &antecedent_set), find_count(sets, &consequent_set)) {
        (Some(antecedent_count), Some(consequent_count)) => {
            if antecedent_count == 0 || consequent_count == 0 {
                Err(RuleError::ZeroSupport)
            } else {
                Ok(
                    AssociationRule::new(
                        antecedent_set,
                        consequent_set,
                        antecedent_count,
                        consequent_count,
                        combined,
                        num_transactions,
                    ),
                )
            }
        },
        _ => Err(RuleError::MissingItemSet),
    }
}

/// The association rules of a list of frequent item sets with their
/// counts. The list stands for a mapping from item sets to counts: a set is
/// looked up by its items in their order, so the sets should all be written
/// in one order of the items, sorted for instance, and where a set stands
/// in the list twice its last count is taken. The antecedent of a rule has
/// the items of the set in the order that they have there.
///
/// Rules are made until one cannot be made; what is wrong with that rule is
/// the error.
pub fn generate_association_rules(
    frequent_item_sets: &[(Vec<String>, usize)],
    num_transactions: usize,
) -> (result: Result<Vec<AssociationRule>, RuleError>)
    ensures
        match result {
            Ok(rules) => association_rules(
                counts_view(frequent_item_sets@),
                num_transactions as nat,
            ) == Ok::<Seq<RuleView>, RuleError>(rules_view(rules@)),
            Err(e) => association_rules(counts_view(frequent_item_sets@), num_transactions as nat)
                == Err::<Seq<RuleView>, RuleError>(e),
        },
{
    let ghost sets = counts_view(frequent_item_sets@);
    let ghost n = num_transactions as nat;
    let mut rules: Vec<AssociationRule> = Vec::new();
    let mut i: usize = 0;
    assert(rules_view(rules@) =~= Seq::empty());
    while i < frequent_item_sets.len()
        invariant
            0 <= i <= frequent_item_sets.len(),
            sets == counts_view(frequent_item_sets@),
            n == num_transactions as nat,
            rules_upto(sets, n, i as nat) == Ok::<Seq<RuleView>, RuleError>(rules_view(rules@)),
        decreases frequent_item_sets.len() - i,
    {
        let set = &frequent_item_sets[i].0;
        let combined = frequent_item_sets[i].1;
        let ghost names = names_of(set@);
        let ghost sooner = rules_view(rules@);
        assert(sets[i as int] == (names, combined as nat));
        if set.len() != 1 {
            let mut j: usize = 0;
            assert(sooner + Seq::<RuleView>::empty() =~= sooner);
            while j < set.len()
                invariant
                    0 <= j <= set.len(),
                    0 <= i < frequent_item_sets.len(),
                    sets == counts_view(frequent_item_sets@),
                    n == num_transactions as nat,
                    names == names_of(set@),
                    rules_upto(sets, n, i as nat) == Ok::<Seq<RuleView>, RuleError>(sooner),
                    sets[i as int] == (names, combined as nat),
                    names.len() != 1,
                    exists|more: Seq<RuleView>|
                        rules_for_set(sets, n, names, combined as nat, j as nat) == Ok::<
                            Seq<RuleView>,
                            RuleError,
                        >(more) && rules_view(rules@) == sooner + more,
                decreases set.len() - j,
            {
                let ghost more = choose|more: Seq<RuleView>|
                    rules_for_set(sets, n, names, combined as nat, j as nat) == Ok::<
                        Seq<RuleView>,
                        RuleError,
                    >(more) && rules_view(rules@) == sooner + more;
                let ghost before = rules_view(rules@);
                match make_rule(frequent_item_sets, num_transactions, set, combined, j) {
                    Ok(rule) => {
                        let ghost made = rule@;
                        rules.push(rule);
                        proof {
                            let longer = more.push(made);
                            assert(rules_view(rules@) =~= before.push(made));
                            assert(rules_view(rules@) =~= sooner + longer);
                            assert(rules_for_set(sets, n, names, combined as nat, (j + 1) as nat)
                                == Ok::<Seq<RuleView>, RuleError>(longer));
                        }
                    },
                    Err(e) => {
                        proof {
                            lemma_set_error_stays(
                                sets,
                                n,
                                names,
                                combined as nat,
                                (j + 1) as nat,
                                names.len(),
                            );
                            lemma_error_stays(sets, n, (i + 1) as nat, sets.len());
                        }
                        return Err(e);
                    },
                }
                j += 1;
            }
        }
        i += 1;
    }
    Ok(rules)
}

/// Once a rule of a set cannot be made, the error stays.
pub proof fn lemma_set_error_stays(
    sets: Database,
    num_transactions: nat,
    set: Seq<Label>,
    combined: nat,
    from: nat,
    upto: nat,
)
    requires
        from <= upto,
        rules_for_set(sets, num_transactions, set, combined, from) is Err,
    ensures
        rules_for_set(sets, num_transactions, set, combined, upto) == rules_for_set(
            sets,
            num_transactions,
            set,
            combined,
            from,
        ),
    decreases upto - from,
{
    if from < upto {
        lemma_set_error_stays(sets, num_transactions, set, combined, from, (upto - 1) as nat);
    }
}

/// Once the rules of a set cannot be made, the error stays.
pub proof fn lemma_error_stays(sets: Database, num_transactions: nat, from: nat, upto: nat)
    requires
        from <= upto,
        rules_upto(sets, num_transactions, from) is Err,
    ensures
        rules_upto(sets, num_transactions, upto) == rules_upto(sets, num_transactions, from),
    decreases upto - from,
{
    if from < upto {
        lemma_error_stays(sets, num_transactions, from, (upto - 1) as nat);
    }
}

} // verus!
