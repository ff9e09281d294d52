//! Routing and lookup: descending from the root to the leaf whose window
//! contains a key, and reading a value out of that leaf.

use vstd::prelude::*;

use crate::interp::is_leaf_replaced;
use crate::interp::lemma_find_leaf_map;
use crate::interp::lemma_search_ok_links;
use crate::interp::links_ok;
use crate::interp::route;
use crate::interp::spec_find_leaf;
use crate::models::BPlusTree;
use crate::models::KeySize;
use crate::models::LeafNode;
use crate::models::Node;

verus! {

proof fn lemma_route_is_first(keys: Seq<KeySize>, key: KeySize, i: int)
    requires
        0 <= i <= keys.len(),
        forall|j: int| 0 <= j < i ==> keys[j] <= key,
        i < keys.len() ==> key < keys[i],
    ensures
        route(keys, key) == i,
    decreases keys.len(),
{
    if keys.len() > 0 && !(key < keys[0]) {
        assert(forall|j: int| 0 <= j < i - 1 ==> keys.drop_first()[j] == keys[j + 1]);
        if i < keys.len() {
            assert(keys.drop_first()[i - 1] == keys[i]);
        }
        lemma_route_is_first(keys.drop_first(), key, i - 1);
    }
}

/// The index of the first key strictly greater than `key`, or `keys.len()`
/// if none is greater: the child an operation on `key` descends into.
pub fn route_index(keys: &Vec<KeySize>, key: KeySize) -> (r: usize)
    ensures
        r as int == route(keys@, key),
        0 <= r <= keys@.len(),
{
    let mut i: usize = 0;
    while i < keys.len()
        invariant
            0 <= i <= keys@.len(),
            forall|j: int| 0 <= j < i ==> keys@[j] <= key,
        decreases keys@.len() - i,
    {
        if key < keys[i] {
            proof {
                lemma_route_is_first(keys@, key, i as int);
            }
            return i;
        }
        i = i + 1;
    }
    proof {
        lemma_route_is_first(keys@, key, i as int);
    }
    i
}

impl<V> BPlusTree<V> {
    /// Traverses the subtree at `node` down to the leaf whose key window
    /// contains `key`.
    pub fn find_leaf<'a>(&self, node: &'a Node<V>, key: KeySize) -> (r: &'a LeafNode<V>)
        requires
            links_ok(*node),
        ensures
            *r == spec_find_leaf(*node, key),
            r.keys@.len() == r.values@.len(),
        decreases *node,
    {
        match node {
            Node::Leaf(leaf) => leaf,
            Node::Internal(internal) => {
                let idx = route_index(&internal.keys, key);
                self.find_leaf(&*internal.children[idx], key)
            },
        }
    }

    /// Traverses the subtree at `node` down to the leaf whose key window
    /// contains `key`, and hands it back for mutation; the final subtree is
    /// the old one with exactly that leaf replaced.
    pub fn find_leaf_mut(node: &mut Node<V>, key: KeySize) -> (r: &mut LeafNode<V>)
        requires
            links_ok(*old(node)),
        ensures
            *r == spec_find_leaf(*old(node), key),
            is_leaf_replaced(*old(node), *final(node), key, *final(r)),
        decreases *old(node),
    {
        match node {
            Node::Leaf(leaf) => leaf,
            Node::Internal(internal) => {
                let idx = route_index(&internal.keys, key);
                Self::find_leaf_mut(&mut *internal.children[idx], key)
            },
        }
    }

    /// Returns the value stored for `key`, if any.  A lookup asks only
    /// that the tree routes soundly (`searchable`), which every
    /// well-formed tree does; it makes no occupancy or configuration
    /// demands.
    pub fn get(&self, key: KeySize) -> (r: Option<&V>)
        requires
            self.searchable(),
        ensures
            match r {
                Option::Some(v) => self@.contains_key(key) && *v == self@[key],
                Option::None => !self@.contains_key(key),
            },
    {
        proof {
            lemma_search_ok_links(self.root, Option::None, Option::None);
            lemma_find_leaf_map(self.root, Option::None, Option::None, key);
        }
        let leaf = self.find_leaf(&self.root, key);
        let mut i: usize = 0;
        while i < leaf.keys.len()
            invariant
                self.searchable(),
                *leaf == spec_find_leaf(self.root, key),
                leaf.values@.len() == leaf.keys@.len(),
                0 <= i <= leaf.keys@.len(),
                forall|j: int| 0 <= j < i ==> leaf.keys@[j] != key,
            decreases leaf.keys@.len() - i,
        {
            if leaf.keys[i] == key {
                proof {
                    lemma_find_leaf_map(self.root, Option::None, Option::None, key);
                    let l = spec_find_leaf(self.root, key);
                    assert(l.keys@[i as int] == key);
                    assert(self@.contains_key(key) && self@[key] == l.values@[i as int]);
                }
                return Option::Some(&leaf.values[i]);
            }
            i = i + 1;
        }
        proof {
            lemma_find_leaf_map(self.root, Option::None, Option::None, key);
            assert(!leaf.keys@.contains(key));
        }
        Option::None
    }
}

} // verus!
