use vstd::prelude::*;

verus! {

/// One vertex of the set-trie.
///
/// A node carries one element value, the ordered list of child nodes
/// (ascending by `element`, one child per distinct value), and a flag that
/// is true exactly when the sorted form of some inserted set ends here.
pub struct Node<T> {
    pub element: T,
    pub children: Vec<Node<T>>,
    pub end_of_path: bool,
}

impl<T> Node<T> {
    /// A fresh leaf: no children, not the end of any inserted set.
    pub fn new(element: T) -> (r: Node<T>)
        ensures
            r.element == element,
            r.children@ == Seq::<Node<T>>::empty(),
            !r.end_of_path,
    {
        Node { element, children: Vec::new(), end_of_path: false }
    }
}

} // verus!
