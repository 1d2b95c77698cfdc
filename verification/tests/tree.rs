use fpgrowth_rs::label::{compare_labels, Placement};
use fpgrowth_rs::node::{add_path, collect_paths, count_along};
use fpgrowth_rs::table::FrequencyTable;
use fpgrowth_rs::{fp_growth_tree, FpNode, FpTree};

fn letters() -> Vec<Vec<&'static str>> {
    vec![
        vec!["E", "A", "D", "B"],
        vec!["D", "A", "C", "E", "B"],
        vec!["C", "A", "B", "E"],
        vec!["B", "A", "D"],
        vec!["D"],
        vec!["D", "B"],
        vec!["A", "D", "E"],
        vec!["B", "C"],
    ]
}

fn entries(table: &FrequencyTable) -> Vec<(String, usize)> {
    (0..table.len()).map(|i| (table.key(i).to_string(), table.count(i))).collect()
}

fn pairs(items: &[(&str, usize)]) -> Vec<(String, usize)> {
    items.iter().map(|(k, n)| (k.to_string(), *n)).collect()
}

#[test]
fn labels_are_ordered_by_their_bytes() {
    assert_eq!(compare_labels("a", "b"), Placement::Before);
    assert_eq!(compare_labels("b", "a"), Placement::After);
    assert_eq!(compare_labels("ab", "ab"), Placement::Same);
    assert_eq!(compare_labels("", ""), Placement::Same);
    assert_eq!(compare_labels("", "a"), Placement::Before);
    assert_eq!(compare_labels("ab", "abc"), Placement::Before);
    assert_eq!(compare_labels("abd", "abc"), Placement::After);
    assert_eq!(compare_labels("Z", "a"), Placement::Before);
    assert_eq!(compare_labels("z", "é"), Placement::Before);
    assert_eq!(compare_labels("é", "日本"), Placement::Before);
    for (a, b) in [("beer", "wine"), ("potato chips", "potato"), ("é", "e"), ("", "x")] {
        let expected = match a.cmp(b) {
            std::cmp::Ordering::Less => Placement::Before,
            std::cmp::Ordering::Equal => Placement::Same,
            std::cmp::Ordering::Greater => Placement::After,
        };
        assert_eq!(compare_labels(a, b), expected);
    }
}

#[test]
fn the_table_counts_in_label_order() {
    let mut table = FrequencyTable::new();
    assert_eq!(table.len(), 0);
    assert_eq!(table.get("a"), None);
    table.add("m", 2);
    table.add("c", 1);
    table.add("x", 4);
    table.add("m", 3);
    table.add("a", 0);
    assert_eq!(entries(&table), pairs(&[("a", 0), ("c", 1), ("m", 5), ("x", 4)]));
    assert_eq!(table.get("m"), Some(5));
    assert_eq!(table.get("a"), Some(0));
    assert_eq!(table.get("b"), None);
    assert_eq!(table.get("z"), None);
    assert_eq!(table.entries(), &vec![("a", 0), ("c", 1), ("m", 5), ("x", 4)]);
}

#[test]
fn a_new_node_has_no_count_and_no_children() {
    let node = FpNode::new("a");
    assert_eq!(node.key(), "a");
    assert_eq!(node.occurences(), 0);
    assert_eq!(node.fan_out(), 0);
}

#[test]
fn a_row_goes_down_from_its_node() {
    let mut node = FpNode::new("a");
    node.add(&["a", "c", "b"], 2);
    node.add(&["a", "b"], 3);
    node.add(&["a"], 1);
    node.add(&["a", "c"], 4);
    assert_eq!(node.occurences(), 10);
    assert_eq!(node.fan_out(), 2);
    assert_eq!(node.child(0).key(), "b");
    assert_eq!(node.child(0).occurences(), 3);
    assert_eq!(node.child(0).fan_out(), 0);
    assert_eq!(node.child(1).key(), "c");
    assert_eq!(node.child(1).occurences(), 6);
    assert_eq!(node.child(1).fan_out(), 1);
    assert_eq!(node.child(1).child(0).key(), "b");
    assert_eq!(node.child(1).child(0).occurences(), 2);
}

#[test]
fn a_count_is_that_of_the_children_and_of_the_rows_that_end() {
    let mut forest = vec![];
    add_path(&mut forest, &["a", "b", "c"], 0, 2);
    add_path(&mut forest, &["a", "b"], 0, 5);
    add_path(&mut forest, &["a", "d"], 0, 1);
    add_path(&mut forest, &["x", "a", "b"], 1, 7);
    add_path(&mut forest, &["b"], 0, 3);
    assert_eq!(forest.len(), 2);
    assert_eq!(count_along(&forest, &["a"], 0), 15);
    assert_eq!(count_along(&forest, &["a", "b"], 0), 14);
    assert_eq!(count_along(&forest, &["a", "b", "c"], 0), 2);
    assert_eq!(count_along(&forest, &["a", "d"], 0), 1);
    assert_eq!(count_along(&forest, &["b"], 0), 3);
    assert_eq!(count_along(&forest, &["c"], 0), 0);
    assert_eq!(count_along(&forest, &["a", "c"], 0), 0);
    assert_eq!(count_along(&forest, &["q", "a", "b"], 1), 14);
    assert_eq!(count_along(&forest, &[], 0), 0);
}

#[test]
fn conditional_paths_stop_at_the_first_node_of_the_item() {
    let mut node = FpNode::new("a");
    node.add(&["a", "b", "c"], 2);
    node.add(&["a", "c"], 3);
    node.add(&["a", "b", "d"], 4);
    assert_eq!(
        node.build_conditional_tree("c", vec!["r"]),
        vec![(vec!["r", "a", "b"], 2), (vec!["r", "a"], 3)]
    );
    assert_eq!(node.build_conditional_tree("a", vec!["r"]), vec![(vec!["r"], 9)]);
    assert_eq!(node.build_conditional_tree("b", vec![]), vec![(vec!["a"], 6)]);
    assert_eq!(node.build_conditional_tree("z", vec![]), vec![]);

    let mut forest = vec![];
    add_path(&mut forest, &["a", "b"], 0, 1);
    add_path(&mut forest, &["b"], 0, 2);
    add_path(&mut forest, &["c", "b", "b"], 0, 4);
    assert_eq!(
        collect_paths(&forest, "b", &vec![]),
        vec![(vec!["a"], 1), (vec![], 2), (vec!["c"], 4)]
    );
}

#[test]
fn the_tree_holds_the_frequent_items_by_falling_frequency() {
    let transactions = letters();
    let tree = FpTree::new(transactions.as_slice(), 3);
    assert_eq!(tree.min_support(), 3);
    assert_eq!(
        entries(tree.frequencies()),
        pairs(&[("A", 5), ("B", 6), ("C", 3), ("D", 6), ("E", 4)])
    );
    assert_eq!(tree.path_count(&["B"]), 6);
    assert_eq!(tree.path_count(&["D"]), 2);
    assert_eq!(tree.path_count(&["B", "D"]), 4);
    assert_eq!(tree.path_count(&["B", "D", "A"]), 3);
    assert_eq!(tree.path_count(&["B", "D", "A", "E"]), 2);
    assert_eq!(tree.path_count(&["B", "D", "A", "E", "C"]), 1);
    assert_eq!(tree.path_count(&["B", "A", "E", "C"]), 1);
    assert_eq!(tree.path_count(&["B", "C"]), 1);
    assert_eq!(tree.path_count(&["D", "A", "E"]), 1);
    assert_eq!(tree.path_count(&["A"]), 0);
    assert_eq!(tree.path_count(&["D", "B"]), 0);
    assert_eq!(tree.path_count(&[]), 0);
}

#[test]
fn infrequent_items_are_counted_but_not_held() {
    let transactions = vec![vec!["a", "b"], vec!["a", "c"], vec!["c"]];
    let tree = FpTree::new(transactions.as_slice(), 2);
    assert_eq!(entries(tree.frequencies()), pairs(&[("a", 2), ("b", 1), ("c", 2)]));
    assert_eq!(tree.path_count(&["a"]), 2);
    assert_eq!(tree.path_count(&["a", "b"]), 0);
    assert_eq!(tree.path_count(&["a", "c"]), 1);
    assert_eq!(tree.path_count(&["c"]), 1);
    assert_eq!(tree.path_count(&["b"]), 0);
}

#[test]
fn weights_count_as_many_transactions() {
    let weighted = vec![(vec!["a", "b"], 3), (vec!["b"], 2), (vec!["a"], 0)];
    let tree = FpTree::build_fp_tree(weighted.as_slice(), 3);
    assert_eq!(entries(tree.frequencies()), pairs(&[("a", 3), ("b", 5)]));
    assert_eq!(tree.path_count(&["b"]), 5);
    assert_eq!(tree.path_count(&["b", "a"]), 3);
    assert_eq!(tree.path_count(&["a"]), 0);
    assert_eq!(
        fp_growth_tree(&tree, vec![]),
        vec![(vec!["a"], 3), (vec!["a", "b"], 3), (vec!["b"], 5)]
    );
}

#[test]
fn a_conditional_tree_counts_what_occurs_with_its_item() {
    let transactions = letters();
    let tree = FpTree::new(transactions.as_slice(), 3);
    let holders = |items: &[&str]| {
        transactions.iter().filter(|t| items.iter().all(|i| t.contains(i))).count()
    };

    let with_e = tree.build_conditional_tree("E");
    assert_eq!(with_e.min_support(), 3);
    assert_eq!(entries(with_e.frequencies()), pairs(&[("A", 4), ("B", 3), ("D", 3)]));
    for (item, count) in entries(with_e.frequencies()) {
        assert_eq!(count, holders(&["E", item.as_str()]));
    }
    assert_eq!(with_e.path_count(&["A"]), 4);
    assert_eq!(with_e.path_count(&["A", "B"]), 3);
    assert_eq!(with_e.path_count(&["A", "B", "D"]), 2);
    assert_eq!(with_e.path_count(&["A", "D"]), 1);

    let with_c = tree.build_conditional_tree("C");
    assert_eq!(entries(with_c.frequencies()), pairs(&[("A", 2), ("B", 3), ("D", 1), ("E", 2)]));
    assert_eq!(with_c.path_count(&["B"]), 3);
    assert_eq!(with_c.path_count(&["B", "A"]), 0);

    let with_b = tree.build_conditional_tree("B");
    assert_eq!(entries(with_b.frequencies()), pairs(&[]));
    assert_eq!(entries(tree.build_conditional_tree("Z").frequencies()), pairs(&[]));

    let with_e_and_a = with_e.build_conditional_tree("B");
    assert_eq!(entries(with_e_and_a.frequencies()), pairs(&[("A", 3)]));
    assert_eq!(holders(&["E", "B", "A"]), 3);
}

#[test]
fn mining_a_tree_goes_on_from_a_path() {
    let transactions = letters();
    let tree = FpTree::new(transactions.as_slice(), 3);
    let with_e = tree.build_conditional_tree("E");
    assert_eq!(
        fp_growth_tree(&with_e, vec!["E"]),
        vec![
            (vec!["E", "A"], 4),
            (vec!["E", "B"], 3),
            (vec!["E", "B", "A"], 3),
            (vec!["E", "D"], 3),
            (vec!["E", "D", "A"], 3),
        ]
    );
}
