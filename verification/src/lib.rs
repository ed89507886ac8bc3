//! An in-memory index over a collection of finite sets of ordered elements,
//! built as a prefix tree over the sorted forms of the inserted sets.
//!
//! The trie answers three queries: `exists_set` (is some stored set met
//! along the greedy match of the query), `subsets` (the stored sets met as
//! terminals along that match), and `supersets` (the stored sets reached in
//! the subtree below the matched path).

pub mod display;
pub mod laws;
pub mod model;
pub mod node;
pub mod tree;

pub use node::Node;
pub use tree::UBTree;
