use ubtree::UBTree;

fn get_tree() -> UBTree<i32> {
    let sets = vec![vec![0, 1, 2, 3], vec![0, 1, 3], vec![0, 1, 2], vec![2, 3]];

    let mut tree = UBTree::new();
    for set in sets {
        tree.insert(&set);
    }

    tree
}

#[test]
fn display_tree() {
    let result = "(0)\n  (1)\n    (2; EoP)\n      (3; EoP)\n    (3; EoP)\n(2)\n  (3; EoP)\n";

    assert_eq!(get_tree().render(), result);
}

#[test]
fn tree_index_to_children() {
    let tree = get_tree();
    assert_eq!(tree.root_at(0).element, 0);
}

#[test]
fn insert_single_set() {
    let set = vec![1, 2, 3];
    let mut tree = UBTree::new();
    tree.insert(&set);

    assert_eq!(tree.len(), 1);
    assert_eq!(tree.root_at(0).element, 1);
    assert_eq!(tree.root_at(0).children[0].element, 2);
    assert_eq!(tree.root_at(0).children[0].children[0].element, 3);
}

#[test]
fn insert_multiple_sets() {
    let sets = vec![vec![0, 1, 2, 3], vec![0, 1, 3], vec![0, 1, 2], vec![2, 3]];

    let mut tree = UBTree::new();
    for set in sets {
        tree.insert(&set);
    }

    assert_eq!(tree.len(), 2);
    assert_eq!(tree.root_at(0).children.len(), 1);
    assert_eq!(tree.root_at(0).children[0].children.len(), 2);

    assert_eq!(tree.root_at(0).children[0].children[0].children[0].element, 3);

    assert!(tree.root_at(0).children[0].children[0].children[0].end_of_path);
    assert!(!tree.root_at(0).children[0].end_of_path);
    assert!(tree.root_at(0).children[0].children[1].end_of_path);
}

#[test]
fn empty_exists() {
    assert!(!get_tree().exists_set(&Vec::new()));
}

#[test]
fn non_empty_truthly_exists() {
    assert!(get_tree().exists_set(&vec![0, 1, 2, 3]));
}

#[test]
fn non_empty_falsely_exists() {
    assert!(!get_tree().exists_set(&vec![0, 1, 4]));
}

#[test]
fn empty_subsets() {
    assert_eq!(get_tree().subsets(&Vec::new()), Vec::<Vec<i32>>::new());
}

#[test]
fn non_empty_truthly_subsets() {
    let tree = get_tree();
    let result = tree.subsets(&vec![0, 1, 2, 3]);
    assert_eq!(result.len(), 2);
    assert_eq!(result[0], vec![0, 1, 2]);
    assert_eq!(result[1], vec![0, 1, 2, 3]);
}

#[test]
fn non_empty_falsely_subsets() {
    let tree = get_tree();
    let result = tree.subsets(&vec![0, 1, 4]);
    assert_eq!(result.len(), 0);
}

#[test]
fn empty_supersets() {
    let tree = get_tree();
    let result = tree.supersets(&vec![]);
    assert_eq!(result.len(), 4);
}

#[test]
fn multiple_supersets() {
    let tree = get_tree();
    let result = tree.supersets(&vec![0, 1]);
    assert_eq!(result.len(), 3);

    let result = tree.supersets(&vec![2]);
    assert_eq!(result.len(), 1);
    assert_eq!(result[0], vec![2, 3]);
}
