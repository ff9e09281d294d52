//! In-place update: replace the value stored under a key, and do nothing
//! at all if the key is absent.

use vstd::prelude::*;

use crate::interp::child_hi;
use crate::interp::child_lo;
use crate::interp::children_map;
use crate::interp::in_bounds;
use crate::interp::lemma_node_ok_height;
use crate::interp::lemma_route_properties;
use crate::interp::lemma_routed_key_only_in_child;
use crate::interp::node_height;
use crate::interp::node_map;
use crate::interp::node_ok;
use crate::interp::route;
use crate::kvmap::lemma_kv_contains;
use crate::kvmap::lemma_kv_update_at;
use crate::kvmap::lemma_sorted_no_duplicates;
use crate::lookup::route_index;
use crate::models::BPlusTree;
use crate::models::InternalNode;
use crate::models::KeySize;
use crate::models::Node;

verus! {

/// Replacing a child by one with the same map and the same window leaves
/// the children's map unchanged.
proof fn lemma_children_map_update_same<V>(cs: Seq<Box<Node<V>>>, cs2: Seq<Box<Node<V>>>, j: int)
    requires
        0 <= j < cs.len(),
        cs2.len() == cs.len(),
        forall|i: int| 0 <= i < cs.len() && i != j ==> cs2[i] == cs[i],
        node_map(*cs2[j]) == node_map(*cs[j]),
    ensures
        children_map(cs2) == children_map(cs),
    decreases cs.len(),
{
    if j == cs.len() - 1 {
        assert(cs2.drop_last() =~= cs.drop_last());
    } else {
        assert(cs2.last() == cs.last());
        assert(forall|i: int|
            0 <= i < cs.drop_last().len() && i != j ==> cs2.drop_last()[i] == cs.drop_last()[i]);
        assert(cs2.drop_last()[j] == cs2[j]);
        lemma_children_map_update_same(cs.drop_last(), cs2.drop_last(), j);
    }
}

/// Replacing the routed child by one with the same map, still within its
/// window, preserves well-formedness and the node's map.
pub(crate) proof fn lemma_internal_after_same<V>(
    nd: InternalNode<V>,
    nd2: InternalNode<V>,
    k: KeySize,
    order: nat,
    min: nat,
    h: nat,
    lo: Option<KeySize>,
    hi: Option<KeySize>,
    low: nat,
)
    requires
        node_ok(Node::Internal(nd), order, min, h, lo, hi, low),
        nd2.keys@ == nd.keys@,
        nd2.children@.len() == nd.children@.len(),
        forall|i: int|
            0 <= i < nd.children@.len() && i != route(nd.keys@, k) ==> #[trigger] nd2.children@[i]
                == nd.children@[i],
        node_ok(
            *nd2.children@[route(nd.keys@, k)],
            order,
            min,
            (h - 1) as nat,
            child_lo(nd.keys@, route(nd.keys@, k), lo),
            child_hi(nd.keys@, route(nd.keys@, k), hi),
            min,
        ),
        node_map(*nd2.children@[route(nd.keys@, k)]) == node_map(
            *nd.children@[route(nd.keys@, k)],
        ),
    ensures
        node_ok(Node::Internal(nd2), order, min, h, lo, hi, low),
        node_map(Node::Internal(nd2)) == node_map(Node::Internal(nd)),
{
    let idx = route(nd.keys@, k);
    lemma_route_properties(nd.keys@, k);
    lemma_children_map_update_same(nd.children@, nd2.children@, idx);
    assert forall|j: int| 0 <= j < nd2.children@.len() implies node_ok(
        *(#[trigger] nd2.children@[j]),
        order,
        min,
        (h - 1) as nat,
        child_lo(nd2.keys@, j, lo),
        child_hi(nd2.keys@, j, hi),
        min,
    ) by {
        if j != idx {
            assert(nd2.children@[j] == nd.children@[j]);
            assert(node_ok(
                *nd.children@[j],
                order,
                min,
                (h - 1) as nat,
                child_lo(nd.keys@, j, lo),
                child_hi(nd.keys@, j, hi),
                min,
            ));
        }
    }
}

/// `b` is `a` with, at most, the one value slot aligned with `key`
/// overwritten by `value`: variant tags, routing keys, child order and key
/// sequences are identical throughout, so an update happens in place.
pub open spec fn updated_shape<V>(a: Node<V>, b: Node<V>, key: KeySize, value: V) -> bool
    decreases a,
{
    match a {
        Node::Leaf(l) => {
            let p = route(l.keys@, key);
            if p > 0 && l.keys@[p - 1] == key {
                b matches Node::Leaf(l2) && l2.keys@ == l.keys@ && l2.values@ == l.values@.update(
                    p - 1,
                    value,
                )
            } else {
                b matches Node::Leaf(l2) && l2.keys@ == l.keys@ && l2.values@ == l.values@
            }
        },
        Node::Internal(nd) => {
            let j = route(nd.keys@, key);
            &&& 0 <= j < nd.children@.len()
            &&& b matches Node::Internal(nd2) && {
                &&& nd2.keys@ == nd.keys@
                &&& nd2.children@.len() == nd.children@.len()
                &&& (forall|i: int|
                    0 <= i < nd.children@.len() && i != j ==> #[trigger] nd2.children@[i]
                        == nd.children@[i])
                &&& updated_shape(*nd.children@[j], *nd2.children@[j], key, value)
            }
        },
    }
}

impl<V> BPlusTree<V> {
    /// Recursive helper: replace the value under `key` in the subtree at
    /// `node`, reporting whether the key was found.  An absent key leaves
    /// the subtree untouched.
    fn update_recursive(
        node: &mut Node<V>,
        key: KeySize,
        value: V,
        Ghost(order): Ghost<nat>,
        Ghost(min): Ghost<nat>,
        Ghost(h): Ghost<nat>,
        Ghost(lo): Ghost<Option<KeySize>>,
        Ghost(hi): Ghost<Option<KeySize>>,
        Ghost(low): Ghost<nat>,
    ) -> (found: bool)
        requires
            node_ok(*old(node), order, min, h, lo, hi, low),
            in_bounds(key, lo, hi),
        ensures
            node_ok(*final(node), order, min, h, lo, hi, low),
            found <==> node_map(*old(node)).contains_key(key),
            node_map(*final(node)) == if found {
                node_map(*old(node)).insert(key, value)
            } else {
                node_map(*old(node))
            },
            ((*old(node) matches Node::Leaf(_)) <==> (*final(node) matches Node::Leaf(_))),
            updated_shape(*old(node), *final(node), key, value),
        decreases *old(node),
    {
        match node {
            Node::Leaf(leaf) => {
                let ghost okeys = leaf.keys@;
                let ghost ovals = leaf.values@;
                let idx = route_index(&leaf.keys, key);
                proof {
                    lemma_route_properties(okeys, key);
                    lemma_sorted_no_duplicates(okeys);
                    lemma_kv_contains(okeys, ovals, key);
                }
                if idx > 0 && leaf.keys[idx - 1] == key {
                    leaf.values[idx - 1] = value;
                    proof {
                        lemma_kv_update_at(okeys, ovals, idx - 1, value);
                    }
                    true
                } else {
                    proof {
                        assert(!okeys.contains(key)) by {
                            if okeys.contains(key) {
                                let t = choose|t: int| 0 <= t < okeys.len() && okeys[t] == key;
                                if t < idx {
                                    assert(t < idx - 1 ==> okeys[t] < okeys[idx - 1]);
                                } else {
                                    assert(key < okeys[idx as int]);
                                    assert(okeys[idx as int] <= okeys[t]);
                                }
                            }
                        }
                    }
                    false
                }
            },
            Node::Internal(internal) => {
                let ghost ond = *internal;
                let ghost okeys = internal.keys@;
                let idx = route_index(&internal.keys, key);
                let ghost clo = child_lo(okeys, idx as int, lo);
                let ghost chi = child_hi(okeys, idx as int, hi);
                proof {
                    lemma_route_properties(okeys, key);
                    lemma_routed_key_only_in_child(ond, order, min, h, lo, hi, low, key);
                    assert(node_ok(
                        *ond.children@[idx as int],
                        order,
                        min,
                        (h - 1) as nat,
                        clo,
                        chi,
                        min,
                    ));
                    assert(in_bounds(key, clo, chi));
                }
                let found = Self::update_recursive(
                    &mut *internal.children[idx],
                    key,
                    value,
                    Ghost(order),
                    Ghost(min),
                    Ghost((h - 1) as nat),
                    Ghost(clo),
                    Ghost(chi),
                    Ghost(min),
                );
                proof {
                    if found {
                        crate::insert::lemma_internal_after_update(
                            ond,
                            *internal,
                            key,
                            value,
                            order,
                            min,
                            h,
                            lo,
                            hi,
                            low,
                        );
                    } else {
                        lemma_internal_after_same(ond, *internal, key, order, min, h, lo, hi, low);
                    }
                    crate::interp::lemma_children_map_contains(ond.children@, key);
                    if node_map(Node::Internal(ond)).contains_key(key) {
                        let j = choose|j: int|
                            0 <= j < ond.children@.len() && node_map(
                                *(#[trigger] ond.children@[j]),
                            ).contains_key(key);
                        assert(j == idx);
                    }
                }
                found
            },
        }
    }

    /// Replaces, in place, the value stored under `key`; a no-op if the
    /// key is absent.  The node structure — variant tags, routing keys,
    /// child order, leaf key sequences — is untouched either way: at most
    /// the one value slot aligned with `key` changes.
    pub fn update(&mut self, key: KeySize, value: V)
        requires
            old(self).wf(),
        ensures
            final(self).wf(),
            final(self)@ == if old(self)@.contains_key(key) {
                old(self)@.insert(key, value)
            } else {
                old(self)@
            },
            updated_shape(old(self).root, final(self).root, key, value),
            final(self).order == old(self).order,
            final(self).min_elements == old(self).min_elements,
    {
        let ghost h = node_height(self.root);
        let ghost low = self.root_low();
        let ghost order = self.order as nat;
        let ghost min = self.min_elements as nat;
        let _found = Self::update_recursive(
            &mut self.root,
            key,
            value,
            Ghost(order),
            Ghost(min),
            Ghost(h),
            Ghost(Option::None),
            Ghost(Option::None),
            Ghost(low),
        );
        proof {
            lemma_node_ok_height(self.root, order, min, h, Option::None, Option::None, low);
        }
    }
}

} // verus!
