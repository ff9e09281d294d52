//! Leaf-level operations: building a leaf and inserting one key/value pair
//! at the position that keeps the keys ascending.

use vstd::prelude::*;

use crate::kvmap::kv_map;
use crate::kvmap::lemma_kv_insert_at;
use crate::kvmap::lemma_sorted_no_duplicates;
use crate::kvmap::sorted_strict;
use crate::interp::route;
use crate::lookup::route_index;
use crate::models::KeySize;
use crate::models::LeafNode;

verus! {

impl<V> LeafNode<V> {
    /// A leaf holding the given keys and, for the moment, no values.
    pub fn new(keys: Vec<KeySize>) -> (l: Self)
        ensures
            l.keys@ == keys@,
            l.values@ == Seq::<V>::empty(),
    {
        LeafNode { keys, values: Vec::new() }
    }

    /// Inserts a key/value pair into this leaf at the position that keeps
    /// `keys` sorted.  The value lands at the matching position in
    /// `values`, clamped to its end, so the call is total even on a leaf
    /// whose two vectors differ in length.  On an index-aligned, sorted
    /// leaf that does not yet hold `key`, this is exactly a map insertion.
    pub fn add(&mut self, key: KeySize, value: V)
        ensures
            ({
                let p = route(old(self).keys@, key);
                let vp = if p <= old(self).values@.len() {
                    p
                } else {
                    old(self).values@.len() as int
                };
                &&& final(self).keys@ == old(self).keys@.insert(p, key)
                &&& final(self).values@ == old(self).values@.insert(vp, value)
            }),
            (old(self).keys@.len() == old(self).values@.len() && sorted_strict(old(self).keys@)
                && !old(self).keys@.contains(key)) ==> {
                &&& final(self).keys@.len() == final(self).values@.len()
                &&& sorted_strict(final(self).keys@)
                &&& kv_map(final(self).keys@, final(self).values@) == kv_map(
                    old(self).keys@,
                    old(self).values@,
                ).insert(key, value)
            },
    {
        proof {
            crate::interp::lemma_route_properties(self.keys@, key);
        }
        let idx = route_index(&self.keys, key);
        self.keys.insert(idx, key);
        let vidx = if idx <= self.values.len() {
            idx
        } else {
            self.values.len()
        };
        self.values.insert(vidx, value);
        proof {
            let okeys = old(self).keys@;
            let ovals = old(self).values@;
            let p = route(okeys, key);
            if okeys.len() == ovals.len() && sorted_strict(okeys) && !okeys.contains(key) {
                lemma_sorted_no_duplicates(okeys);
                lemma_kv_insert_at(okeys, ovals, p, key, value);
                assert(sorted_strict(self.keys@)) by {
                    assert(forall|j: int| 0 <= j < p ==> self.keys@[j] == okeys[j]);
                    assert(forall|j: int|
                        p < j < self.keys@.len() ==> self.keys@[j] == okeys[j - 1]);
                    assert(forall|j: int| 0 <= j < p ==> okeys[j] <= key && okeys[j] != key);
                    assert(forall|j: int| p <= j < okeys.len() ==> key < okeys[j]);
                }
            }
        }
    }
}

} // verus!
