use fpgrowth_rs::fp_growth;

#[test]
fn test_single_threaded() {
    let transactions = vec![
        vec!["E", "A", "D", "B"],
        vec!["D", "A", "C", "E", "B"],
        vec!["C", "A", "B", "E"],
        vec!["B", "A", "D"],
        vec!["D"],
        vec!["D", "B"],
        vec!["A", "D", "E"],
        vec!["B", "C"],
    ];

    let mut frequent_item_sets = vec![];
    for (item_set, occurences) in fp_growth(transactions.as_slice(), 3) {
        let item_set = item_set.iter().map(|i| i.to_string()).collect::<Vec<_>>();
        frequent_item_sets.push((item_set, occurences));
    }

    assert_eq!(frequent_item_sets.len(), 15);
}
