use fpgrowth_rs::{fp_growth, parallel_fp_growth, total_items};

fn letters() -> Vec<Vec<&'static str>> {
    vec![
        vec!["E", "A", "D", "B"],
        vec!["D", "A", "C", "E", "B"],
        vec!["C", "A", "B", "E"],
        vec!["B", "A", "D"],
        vec!["D"],
        vec!["D", "B"],
        vec!["A", "D", "E"],
        vec!["B", "C"],
    ]
}

fn holders(transactions: &[Vec<&str>], items: &[&str]) -> usize {
    transactions.iter().filter(|t| items.iter().all(|i| t.contains(i))).count()
}

fn sorted(items: &[&str]) -> Vec<String> {
    let mut items = items.iter().map(|i| i.to_string()).collect::<Vec<_>>();
    items.sort();
    items
}

fn subsets(items: &[&'static str]) -> Vec<Vec<&'static str>> {
    let mut all = vec![];
    for mask in 1u32..(1 << items.len()) {
        let mut set = vec![];
        for (i, item) in items.iter().enumerate() {
            if mask & (1 << i) != 0 {
                set.push(*item);
            }
        }
        all.push(set);
    }
    all
}

#[test]
fn sets_are_found_in_the_order_of_mining() {
    let found = fp_growth(letters().as_slice(), 3);
    let expected: Vec<(Vec<&str>, usize)> = vec![
        (vec!["A"], 5),
        (vec!["A", "B"], 4),
        (vec!["A", "D"], 4),
        (vec!["A", "D", "B"], 3),
        (vec!["B"], 6),
        (vec!["C"], 3),
        (vec!["C", "B"], 3),
        (vec!["D"], 6),
        (vec!["D", "B"], 4),
        (vec!["E"], 4),
        (vec!["E", "A"], 4),
        (vec!["E", "B"], 3),
        (vec!["E", "B", "A"], 3),
        (vec!["E", "D"], 3),
        (vec!["E", "D", "A"], 3),
    ];
    assert_eq!(found, expected);
}

#[test]
fn every_count_reaches_the_minimum_support() {
    for min_support in 0..8 {
        for (_, count) in fp_growth(letters().as_slice(), min_support) {
            assert!(count >= min_support);
        }
    }
}

#[test]
fn every_count_is_the_number_of_holders() {
    let transactions = letters();
    for min_support in 0..8 {
        let found = fp_growth(transactions.as_slice(), min_support);
        for (set, count) in &found {
            assert!(!set.is_empty());
            assert_eq!(*count, holders(&transactions, set));
            assert_eq!(sorted(set).windows(2).filter(|w| w[0] == w[1]).count(), 0);
        }
    }
}

#[test]
fn every_frequent_set_is_found_once() {
    let transactions = letters();
    for min_support in 1..8 {
        let found = fp_growth(transactions.as_slice(), min_support);
        let keys = found.iter().map(|(set, _)| sorted(set)).collect::<Vec<_>>();
        let mut wanted = 0;
        for set in subsets(&["A", "B", "C", "D", "E"]) {
            if holders(&transactions, &set) >= min_support {
                wanted += 1;
                assert_eq!(keys.iter().filter(|k| **k == sorted(&set)).count(), 1);
            }
        }
        assert_eq!(found.len(), wanted);
    }
}

#[test]
fn every_part_of_a_found_set_is_found() {
    let transactions = letters();
    for min_support in 0..5 {
        let found = fp_growth(transactions.as_slice(), min_support);
        let keys = found.iter().map(|(set, _)| sorted(set)).collect::<Vec<_>>();
        for (set, _) in &found {
            for part in subsets(set) {
                assert!(keys.contains(&sorted(&part)));
            }
        }
    }
}

#[test]
fn parallel_mining_finds_what_mining_finds() {
    let transactions = letters();
    for min_support in 0..8 {
        let sequential = fp_growth(transactions.as_slice(), min_support);
        let parallel = parallel_fp_growth(transactions.as_slice(), min_support);
        assert_eq!(parallel, sequential);
    }
    assert_eq!(parallel_fp_growth(transactions.as_slice(), 3).len(), 15);
    assert_eq!(
        parallel_fp_growth(transactions.as_slice(), 4),
        vec![
            (vec!["A"], 5),
            (vec!["A", "B"], 4),
            (vec!["A", "D"], 4),
            (vec!["B"], 6),
            (vec!["D"], 6),
            (vec!["D", "B"], 4),
            (vec!["E"], 4),
            (vec!["E", "A"], 4),
        ]
    );
}

#[test]
fn no_transactions_give_no_sets() {
    let none: Vec<Vec<&str>> = vec![];
    assert_eq!(fp_growth(none.as_slice(), 0), vec![]);
    assert_eq!(fp_growth(none.as_slice(), 1), vec![]);
    assert_eq!(parallel_fp_growth(none.as_slice(), 1), vec![]);
    let empty: Vec<Vec<&str>> = vec![vec![], vec![]];
    assert_eq!(fp_growth(empty.as_slice(), 0), vec![]);
}

#[test]
fn a_threshold_above_every_count_gives_no_sets() {
    assert_eq!(fp_growth(letters().as_slice(), 7), vec![]);
    assert_eq!(fp_growth(letters().as_slice(), usize::MAX), vec![]);
}

#[test]
fn a_threshold_of_zero_gives_the_sets_that_occur() {
    let transactions = vec![vec!["x", "y"], vec!["z"]];
    assert_eq!(
        fp_growth(transactions.as_slice(), 0),
        vec![(vec!["x"], 1), (vec!["y"], 1), (vec!["y", "x"], 1), (vec!["z"], 1)]
    );
}

#[test]
fn equal_frequencies_are_ordered_by_label() {
    let transactions = vec![vec!["b", "a"], vec!["a", "b"], vec!["b", "a", "c"]];
    assert_eq!(
        fp_growth(transactions.as_slice(), 2),
        vec![(vec!["a"], 3), (vec!["b"], 3), (vec!["b", "a"], 3)]
    );
}

#[test]
fn a_repeated_item_counts_each_time() {
    let transactions = vec![vec!["a", "a", "b"]];
    assert_eq!(
        fp_growth(transactions.as_slice(), 1),
        vec![(vec!["a"], 2), (vec!["b"], 1), (vec!["b", "a"], 2)]
    );
}

#[test]
fn items_are_counted() {
    assert_eq!(total_items(letters().as_slice()), Some(24));
    let none: Vec<Vec<&str>> = vec![];
    assert_eq!(total_items(none.as_slice()), Some(0));
}

#[test]
fn a_transaction_without_frequent_items_adds_nothing() {
    let transactions = vec![vec!["z"], vec!["a", "y"], vec!["a"]];
    assert_eq!(fp_growth(transactions.as_slice(), 2), vec![(vec!["a"], 2)]);
    assert_eq!(parallel_fp_growth(transactions.as_slice(), 2), vec![(vec!["a"], 2)]);
}

#[test]
fn generated_transactions_are_mined_as_counted_by_hand() {
    let items = ["ale", "bun", "cod", "dip", "egg", "fig", "gum"];
    let mut state: u64 = 0x2545_f491_4f6c_dd1d;
    let mut transactions: Vec<Vec<&'static str>> = vec![];
    for _ in 0..60 {
        let mut transaction = vec![];
        for item in items {
            state ^= state << 13;
            state ^= state >> 7;
            state ^= state << 17;
            if state % 5 < 2 {
                transaction.push(item);
            }
        }
        if state % 3 == 0 {
            transaction.reverse();
        }
        transactions.push(transaction);
    }
    for min_support in [1, 2, 5, 9, 14, 25, 61] {
        let found = fp_growth(transactions.as_slice(), min_support);
        let keys = found.iter().map(|(set, _)| sorted(set)).collect::<Vec<_>>();
        for (set, count) in &found {
            assert_eq!(*count, holders(&transactions, set));
            assert!(*count >= min_support);
        }
        let mut wanted = 0;
        for set in subsets(&items) {
            if holders(&transactions, &set) >= min_support {
                wanted += 1;
                assert_eq!(keys.iter().filter(|k| **k == sorted(&set)).count(), 1);
            }
        }
        assert_eq!(found.len(), wanted);
        assert_eq!(parallel_fp_growth(transactions.as_slice(), min_support), found);
    }
}
