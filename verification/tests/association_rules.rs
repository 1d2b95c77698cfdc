use fpgrowth_rs::rules::{find_count, remove_item, same_items};
use fpgrowth_rs::{fp_growth, generate_association_rules, AssociationRule, RuleError};

fn beverages() -> Vec<Vec<&'static str>> {
    vec![
        vec!["beer", "wine", "cheese"],
        vec!["beer", "potato chips"],
        vec!["eggs", "flower", "butter", "cheese"],
        vec!["eggs", "flower", "butter", "beer", "potato chips"],
        vec!["wine", "cheese"],
        vec!["potato chips"],
        vec!["eggs", "flower", "butter", "wine", "cheese"],
        vec!["eggs", "flower", "butter", "beer", "potato chips"],
        vec!["wine", "beer"],
        vec!["beer", "potato chips"],
        vec!["butter", "eggs"],
        vec!["beer", "potato chips"],
        vec!["flower", "eggs"],
        vec!["beer", "potato chips"],
        vec!["eggs", "flower", "butter", "wine", "cheese"],
        vec!["beer", "wine", "potato chips", "cheese"],
        vec!["wine", "cheese"],
        vec!["beer", "potato chips"],
        vec!["wine", "cheese"],
        vec!["beer", "potato chips"],
    ]
}

fn names(items: &[&str]) -> Vec<String> {
    items.iter().map(|i| i.to_string()).collect()
}

fn measures(rule: &AssociationRule) -> (f32, f32, f32, f32, f32) {
    let transactions = rule.num_transactions as f32;
    let combined_support = rule.combined_count as f32 / transactions;
    let antecedent_support = rule.antecedent_count as f32 / transactions;
    let consequent_support = rule.consequent_count as f32 / transactions;
    let lift = combined_support / (antecedent_support * consequent_support);
    let confidence = combined_support / antecedent_support;
    (antecedent_support, consequent_support, combined_support, lift, confidence)
}

#[test]
fn test_association_rules() {
    let transactions = beverages();

    let num_transactions = transactions.len();
    let mut results = vec![];
    for (item_set, occurences) in fp_growth(transactions.as_slice(), 7) {
        let mut items = item_set.iter().map(|i| i.to_string()).collect::<Vec<_>>();
        items.sort();
        results.push((items, occurences));
    }

    let association_rules = generate_association_rules(&results, num_transactions).unwrap();

    assert_eq!(association_rules.len(), 4);

    let potato_chips = association_rules
        .iter()
        .find(|r| r.antecedent_set == vec!["potato chips".to_string()])
        .unwrap();

    assert_eq!(potato_chips.antecedent_set, vec!["potato chips".to_string()]);
    assert_eq!(potato_chips.consequent_set, vec!["beer".to_string()]);
    assert_eq!(measures(potato_chips), (0.5, 0.55, 0.45, 1.6363635, 0.9));
}

#[test]
fn rule_counts_are_those_of_the_sets() {
    let sets = vec![
        (names(&["a"]), 6),
        (names(&["b"]), 5),
        (names(&["a", "b"]), 4),
    ];
    let rules = generate_association_rules(&sets, 10).unwrap();
    assert_eq!(
        rules,
        vec![
            AssociationRule::new(names(&["b"]), names(&["a"]), 5, 6, 4, 10),
            AssociationRule::new(names(&["a"]), names(&["b"]), 6, 5, 4, 10),
        ]
    );
}

#[test]
fn rules_of_a_set_of_three_items() {
    let sets = vec![
        (names(&["a"]), 9),
        (names(&["b"]), 8),
        (names(&["c"]), 7),
        (names(&["a", "b"]), 6),
        (names(&["a", "c"]), 5),
        (names(&["b", "c"]), 4),
        (names(&["a", "b", "c"]), 3),
    ];
    let rules = generate_association_rules(&sets, 12).unwrap();
    assert_eq!(rules.len(), 9);
    assert_eq!(rules[6], AssociationRule::new(names(&["b", "c"]), names(&["a"]), 4, 9, 3, 12));
    assert_eq!(rules[7], AssociationRule::new(names(&["a", "c"]), names(&["b"]), 5, 8, 3, 12));
    assert_eq!(rules[8], AssociationRule::new(names(&["a", "b"]), names(&["c"]), 6, 7, 3, 12));
}

#[test]
fn single_items_give_no_rules() {
    let sets = vec![(names(&["a"]), 6), (names(&["b"]), 5)];
    assert_eq!(generate_association_rules(&sets, 10), Ok(vec![]));
    assert_eq!(generate_association_rules(&sets, 0), Ok(vec![]));
    assert_eq!(generate_association_rules(&[], 10), Ok(vec![]));
}

#[test]
fn a_missing_part_is_reported() {
    let sets = vec![(names(&["a"]), 6), (names(&["a", "b"]), 4)];
    assert_eq!(generate_association_rules(&sets, 10), Err(RuleError::MissingItemSet));
    let unsorted = vec![(names(&["a"]), 6), (names(&["b"]), 5), (names(&["b", "a", "c"]), 4)];
    assert_eq!(generate_association_rules(&unsorted, 10), Err(RuleError::MissingItemSet));
}

#[test]
fn a_count_of_zero_is_reported() {
    let sets = vec![(names(&["a"]), 6), (names(&["b"]), 0), (names(&["a", "b"]), 0)];
    assert_eq!(generate_association_rules(&sets, 10), Err(RuleError::ZeroSupport));
}

#[test]
fn no_transactions_are_reported() {
    let sets = vec![(names(&["a"]), 6), (names(&["b"]), 5), (names(&["a", "b"]), 4)];
    assert_eq!(generate_association_rules(&sets, 0), Err(RuleError::NoTransactions));
}

#[test]
fn the_last_count_of_a_repeated_set_is_taken() {
    let sets = vec![
        (names(&["a"]), 1),
        (names(&["b"]), 5),
        (names(&["a"]), 6),
        (names(&["a", "b"]), 4),
    ];
    let rules = generate_association_rules(&sets, 10).unwrap();
    assert_eq!(rules[0], AssociationRule::new(names(&["b"]), names(&["a"]), 5, 6, 4, 10));
}

#[test]
fn parts_of_rule_making() {
    let set = names(&["a", "b", "a", "c"]);
    assert_eq!(remove_item(&set, &"a".to_string()), names(&["b", "c"]));
    assert_eq!(remove_item(&set, &"z".to_string()), set);
    assert!(same_items(&names(&["a", "b"]), &names(&["a", "b"])));
    assert!(!same_items(&names(&["a", "b"]), &names(&["b", "a"])));
    assert!(!same_items(&names(&["a"]), &names(&["a", "b"])));
    let sets = vec![(names(&["a"]), 6), (names(&["b"]), 5)];
    assert_eq!(find_count(&sets, &names(&["b"])), Some(5));
    assert_eq!(find_count(&sets, &names(&["c"])), None);
}
