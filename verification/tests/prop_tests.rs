use ubtree::UBTree;

fn scenario_tree() -> UBTree<i32> {
    let mut tree = UBTree::new();
    tree.insert(&vec![0, 1, 2, 3]);
    tree.insert(&vec![0, 1, 3]);
    tree.insert(&vec![0, 1, 2]);
    tree.insert(&vec![2, 3]);
    tree
}

#[test]
fn inserted_sets_are_found() {
    let mut tree = UBTree::new();
    tree.insert(&vec![3, 1, 2]);
    assert!(tree.exists_set(&vec![1, 2, 3]));
    assert!(tree.exists_set(&vec![3, 2, 1]));
}

#[test]
fn empty_query_conventions() {
    let tree = scenario_tree();
    assert!(!tree.exists_set(&Vec::new()));
    assert_eq!(tree.subsets(&Vec::new()), Vec::<Vec<i32>>::new());
    let all = tree.supersets(&Vec::new());
    assert_eq!(all.len(), 4);
    assert!(all.contains(&vec![0, 1, 2]));
    assert!(all.contains(&vec![0, 1, 2, 3]));
    assert!(all.contains(&vec![0, 1, 3]));
    assert!(all.contains(&vec![2, 3]));

    let empty_tree: UBTree<i32> = UBTree::new();
    assert_eq!(empty_tree.supersets(&Vec::new()).len(), 0);
}

#[test]
fn insert_is_idempotent() {
    let mut once = UBTree::new();
    once.insert(&vec![2, 3]);
    once.insert(&vec![0, 1]);

    let mut twice = UBTree::new();
    twice.insert(&vec![2, 3]);
    twice.insert(&vec![0, 1]);
    twice.insert(&vec![2, 3]);

    assert_eq!(once.len(), twice.len());
    assert_eq!(once.exists_set(&vec![2, 3]), twice.exists_set(&vec![2, 3]));
    assert_eq!(once.subsets(&vec![0, 1, 2, 3]), twice.subsets(&vec![0, 1, 2, 3]));
    assert_eq!(once.supersets(&Vec::new()), twice.supersets(&Vec::new()));
    assert_eq!(once.render(), twice.render());
}

#[test]
fn subset_results_are_stored_subsets() {
    let tree = scenario_tree();
    for entry in tree.subsets(&vec![0, 1, 2, 3]) {
        assert!(tree.exists_set(&entry));
        for e in &entry {
            assert!(vec![0, 1, 2, 3].contains(e));
        }
    }
}

#[test]
fn superset_results_contain_query() {
    let tree = scenario_tree();
    for entry in tree.supersets(&vec![0, 1]) {
        assert!(tree.exists_set(&entry));
        assert!(entry.contains(&0));
        assert!(entry.contains(&1));
    }
    let result = tree.supersets(&vec![0, 1]);
    assert_eq!(result, vec![vec![0, 1, 2], vec![0, 1, 2, 3], vec![0, 1, 3]]);
}

#[test]
fn exists_iff_subsets_nonempty() {
    let tree = scenario_tree();
    let queries: Vec<Vec<i32>> = vec![
        vec![],
        vec![0],
        vec![0, 1, 2],
        vec![0, 1, 2, 3],
        vec![0, 1, 4],
        vec![2, 3],
        vec![3],
    ];
    for q in &queries {
        assert_eq!(tree.exists_set(q), !tree.subsets(q).is_empty());
    }
}

#[test]
fn queries_ignore_input_order() {
    let tree = scenario_tree();
    assert_eq!(tree.subsets(&vec![3, 2, 1, 0]), tree.subsets(&vec![0, 1, 2, 3]));
    assert_eq!(tree.supersets(&vec![1, 0]), tree.supersets(&vec![0, 1]));
    assert_eq!(tree.exists_set(&vec![3, 1, 0, 2]), tree.exists_set(&vec![0, 1, 2, 3]));

    let mut shuffled = UBTree::new();
    shuffled.insert(&vec![3, 2, 1, 0]);
    shuffled.insert(&vec![3, 1, 0]);
    shuffled.insert(&vec![2, 0, 1]);
    shuffled.insert(&vec![3, 2]);
    assert_eq!(shuffled.render(), scenario_tree().render());
}

#[test]
fn duplicate_values_collapse() {
    let mut tree = UBTree::new();
    tree.insert(&vec![2, 2, 1]);
    assert_eq!(tree.len(), 1);
    assert!(tree.exists_set(&vec![1, 2]));
    assert_eq!(tree.subsets(&vec![1, 2, 2]), vec![vec![1, 2]]);
    assert_eq!(tree.render(), "(1)\n  (2; EoP)\n");
}

#[test]
fn empty_insert_is_noop() {
    let mut tree = UBTree::new();
    tree.insert(&Vec::new());
    assert_eq!(tree.len(), 0);
    assert_eq!(tree.supersets(&Vec::new()).len(), 0);
    assert_eq!(tree.render(), "");
}

#[test]
fn new_with_data_matches_inserts() {
    let data = vec![vec![0, 1, 2, 3], vec![0, 1, 3], vec![0, 1, 2], vec![2, 3]];
    let bulk = UBTree::new_with_data(&data);
    let hand = scenario_tree();
    assert_eq!(bulk.len(), hand.len());
    assert_eq!(bulk.render(), hand.render());
    assert_eq!(bulk.supersets(&Vec::new()), hand.supersets(&Vec::new()));
}

#[test]
fn scenario_len_counts_minimal_elements() {
    assert_eq!(scenario_tree().len(), 2);
}

#[test]
fn missed_subset_off_the_walked_path() {
    // The greedy walk follows a single path, so a stored subset lying off
    // that path is not reported even though it is contained in the query.
    let tree = scenario_tree();
    let result = tree.subsets(&vec![0, 1, 2, 3]);
    assert!(!result.contains(&vec![2, 3]));
    assert!(!result.contains(&vec![0, 1, 3]));
}

#[test]
fn missed_superset_behind_unmatched_value() {
    // A stored superset whose extra elements interleave the query's values
    // is not reported: the walk cannot match past them.
    let tree = scenario_tree();
    assert_eq!(tree.supersets(&vec![2]), vec![vec![2, 3]]);
}
