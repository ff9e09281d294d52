//! The node model: the recursive tagged structure that stores keys, values
//! and child links, and the aggregate tree that owns the root.

use vstd::prelude::*;

verus! {

/// The key domain of the index: keys are 32-bit unsigned integers.
pub type KeySize = u32;

/// Top-level data structure representing the whole B+ tree.
///
/// `order` is the maximum number of keys allowed in a single node before it
/// must split; `min_elements` is the minimum number of keys a non-root node
/// must retain before it is considered underflowed.
pub struct BPlusTree<V> {
    pub root: Node<V>,
    pub order: usize,
    pub min_elements: usize,
    pub arena: Vec<Node<V>>,
}

/// A single node in the B+ tree, either an internal node or a leaf node.
pub enum Node<V> {
    Internal(InternalNode<V>),
    Leaf(LeafNode<V>),
}

/// Internal node of the B+ tree.
///
/// `keys` partition the key space into ranges, each handled by one child:
/// - `children[0]` contains all keys `< keys[0]`
/// - `children[i]` contains all keys `>= keys[i - 1]` and `< keys[i]`
/// - `children[last]` contains all keys `>= keys[last_key]`
///
/// `keys` is always sorted in strictly ascending order.
pub struct InternalNode<V> {
    pub keys: Vec<KeySize>,
    pub children: Vec<Box<Node<V>>>,
}

/// Leaf node of the B+ tree.
///
/// Stores key-value pairs in two parallel vectors, index-aligned:
/// `keys[i]` is the key for `values[i]`, and `keys` is kept sorted.
pub struct LeafNode<V> {
    pub values: Vec<V>,
    pub keys: Vec<KeySize>,
}

/// The failure a tree constructor can report: an `order`/`min_elements`
/// combination under which splitting and merging could not maintain the
/// occupancy invariant is rejected at construction time, never discovered
/// later.
#[derive(Clone, Copy, Debug, PartialEq, Eq, Structural)]
pub enum TreeError {
    InvalidConfiguration,
}

/// The outcome a recursive deletion step reports to its parent.
pub enum DeleteResult<K> {
    /// The key was absent; nothing changed.
    NotFound,
    /// The child subtree still satisfies all invariants.
    Done,
    /// The child's smallest key changed but no underflow occurred; the
    /// parent must update the routing key immediately to its left.
    MinChanged { new_min: K },
    /// The child now holds fewer keys than `min_elements`; the parent must
    /// resolve it by borrowing from a sibling or merging with one.
    Underflow { new_min_opt: Option<K> },
    /// The child is a leaf with no keys left; only reachable transiently
    /// before the immediate parent resolves it by a merge.
    Empty,
}

} // verus!
