use ubtree::Node;

#[test]
fn display_node_non_eop() {
    let node = Node { children: Vec::new(), element: 1, end_of_path: false };
    assert_eq!(node.label(), "(1)");
}

#[test]
fn display_node_eop() {
    let node = Node { children: Vec::new(), element: 1, end_of_path: true };
    assert_eq!(node.label(), "(1; EoP)");
}

#[test]
fn deref_to_value() {
    let node = Node::new("hello world");
    assert_eq!(node.element, "hello world");
}

#[test]
fn node_index_to_children() {
    let node = Node { element: 1, children: vec![Node::new(2), Node::new(3)], end_of_path: false };
    assert_eq!(node.children[0].element, 2);
}

#[test]
fn label_negative() {
    let node = Node::new(-5);
    assert_eq!(node.label(), "(-5)");
}

#[test]
fn label_multi_digit() {
    let mut node = Node::new(420);
    node.end_of_path = true;
    assert_eq!(node.label(), "(420; EoP)");
}

#[test]
fn label_zero() {
    let node = Node::new(0);
    assert_eq!(node.label(), "(0)");
}
