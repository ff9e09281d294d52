//! Insertion: descend to the leaf whose window contains the key, insert the
//! pair there, and propagate splits (a promoted key and a new sibling) back
//! up the call chain to the root, where the tree may grow one level.

use vstd::prelude::*;

use crate::interp::child_hi;
use crate::interp::child_lo;
use crate::interp::children_map;
use crate::interp::in_bounds;
use crate::interp::lemma_children_map_concat;
use crate::interp::lemma_children_map_split_insert;
use crate::interp::lemma_children_map_update_insert;
use crate::interp::lemma_node_ok_height;
use crate::interp::lemma_route_properties;
use crate::interp::lemma_routed_key_only_in_child;
use crate::interp::node_height;
use crate::interp::node_map;
use crate::interp::node_ok;
use crate::interp::route;
use crate::kvmap::kv_map;
use crate::kvmap::lemma_kv_concat;
use crate::kvmap::lemma_kv_update_at;
use crate::kvmap::lemma_sorted_no_duplicates;
use crate::lookup::route_index;
use crate::models::BPlusTree;
use crate::models::InternalNode;
use crate::models::KeySize;
use crate::models::LeafNode;
use crate::models::Node;

verus! {

/// Relies on rand::random: a uniformly distributed value of the asked type,
/// drawn from the thread-local generator.  Nothing can be promised of the
/// value itself, so this contract promises nothing.
pub assume_specification<T>[ rand::random::<T> ]() -> (r: T)
    where
        rand::distr::StandardUniform: rand::distr::Distribution<T>,
;

/// `b`, together with the possible promoted key and new sibling in `r`,
/// is exactly what inserting `key`/`value` into `a` produces: the pair
/// lands at the routed slot, overwriting in place when the key is already
/// present; a node that would exceed `order` keys splits so that its left
/// half keeps the first ceil(order/2) entries; a split leaf promotes its
/// new sibling's smallest key (which stays in that sibling), while a split
/// internal node promotes its middle key, which moves up and appears in
/// neither half.  `r` is `Some` exactly when the node overflowed.
pub open spec fn inserted_shape<V>(
    a: Node<V>,
    b: Node<V>,
    r: Option<(KeySize, Box<Node<V>>)>,
    key: KeySize,
    value: V,
    order: nat,
) -> bool
    decreases a,
{
    match a {
        Node::Leaf(l) => {
            let p = route(l.keys@, key);
            if p > 0 && l.keys@[p - 1] == key {
                &&& r is None
                &&& b matches Node::Leaf(l2) && l2.keys@ == l.keys@ && l2.values@
                    == l.values@.update(p - 1, value)
            } else {
                let keys2 = l.keys@.insert(p, key);
                let vals2 = l.values@.insert(p, value);
                if keys2.len() <= order {
                    &&& r is None
                    &&& b matches Node::Leaf(l2) && l2.keys@ == keys2 && l2.values@ == vals2
                } else {
                    let midi = (order / 2 + order % 2) as int;
                    &&& r matches Some(pks) && {
                        &&& pks.0 == keys2[midi]
                        &&& b matches Node::Leaf(l2) && l2.keys@ == keys2.take(midi) && l2.values@
                            == vals2.take(midi)
                        &&& *pks.1 matches Node::Leaf(l3) && l3.keys@ == keys2.skip(midi)
                            && l3.values@ == vals2.skip(midi)
                    }
                }
            }
        },
        Node::Internal(nd) => {
            let j = route(nd.keys@, key);
            &&& 0 <= j < nd.children@.len()
            &&& match r {
                Option::None => b matches Node::Internal(nd2) && {
                    // either the routed child absorbed the insertion
                    // without splitting...
                    ||| ({
                        &&& nd2.keys@ == nd.keys@
                        &&& nd2.children@.len() == nd.children@.len()
                        &&& (forall|i: int|
                            0 <= i < nd.children@.len() && i != j ==> #[trigger] nd2.children@[i]
                                == nd.children@[i])
                        &&& inserted_shape(
                            *nd.children@[j],
                            *nd2.children@[j],
                            Option::None,
                            key,
                            value,
                            order,
                        )
                    })
                    // ...or it split, and this node took the promoted key
                    // and new sibling in beside it without overflowing
                    ||| ({
                        &&& nd2.keys@.len() == nd.keys@.len() + 1
                        &&& nd2.keys@.len() <= order
                        &&& nd2.keys@ == nd.keys@.insert(j, nd2.keys@[j])
                        &&& nd2.children@.len() == nd.children@.len() + 1
                        &&& (forall|i: int|
                            0 <= i < j ==> #[trigger] nd2.children@[i] == nd.children@[i])
                        &&& (forall|i: int|
                            j + 2 <= i < nd2.children@.len() ==> #[trigger] nd2.children@[i]
                                == nd.children@[i - 1])
                        &&& inserted_shape(
                            *nd.children@[j],
                            *nd2.children@[j],
                            Option::Some((nd2.keys@[j], nd2.children@[j + 1])),
                            key,
                            value,
                            order,
                        )
                    })
                },
                // the routed child split, and this node, grown to
                // order + 1 keys, split in turn at its middle key
                Option::Some(pks) => b matches Node::Internal(nd2) && *pks.1 matches Node::Internal(
                    nd3,
                ) && {
                    let keys2 = nd2.keys@ + seq![pks.0] + nd3.keys@;
                    let cs2 = nd2.children@ + nd3.children@;
                    let midi = (order / 2 + order % 2) as int;
                    &&& keys2.len() == order + 1
                    &&& nd2.keys@.len() == midi
                    &&& nd2.children@.len() == midi + 1
                    &&& keys2 == nd.keys@.insert(j, keys2[j])
                    &&& cs2.len() == nd.children@.len() + 1
                    &&& (forall|i: int| 0 <= i < j ==> #[trigger] cs2[i] == nd.children@[i])
                    &&& (forall|i: int|
                        j + 2 <= i < cs2.len() ==> #[trigger] cs2[i] == nd.children@[i - 1])
                    &&& inserted_shape(
                        *nd.children@[j],
                        *cs2[j],
                        Option::Some((keys2[j], cs2[j + 1])),
                        key,
                        value,
                        order,
                    )
                },
            }
        },
    }
}

/// At the root, an insertion either transforms the root in place with no
/// split and the height unchanged, or — the only way tree height grows —
/// replaces it by a brand-new internal root holding exactly the promoted
/// key and exactly two children, the old root's left half and its new
/// sibling, one level higher.
pub open spec fn inserted_root_shape<V>(
    a: Node<V>,
    b: Node<V>,
    key: KeySize,
    value: V,
    order: nat,
) -> bool {
    ||| (inserted_shape(a, b, Option::None, key, value, order) && node_height(b) == node_height(a))
    ||| (b matches Node::Internal(nd) && {
        &&& nd.keys@.len() == 1
        &&& nd.children@.len() == 2
        &&& inserted_shape(
            a,
            *nd.children@[0],
            Option::Some((nd.keys@[0], nd.children@[1])),
            key,
            value,
            order,
        )
        &&& node_height(b) == node_height(a) + 1
    })
}

/// A parent whose routed child absorbed the insertion without splitting
/// keeps its own shape, with just that child replaced.
proof fn lemma_shape_child_done<V>(
    ond: InternalNode<V>,
    nd2: InternalNode<V>,
    cb: Box<Node<V>>,
    idx: int,
    key: KeySize,
    value: V,
    order: nat,
)
    requires
        route(ond.keys@, key) == idx,
        0 <= idx < ond.children@.len(),
        ond.children@.len() == ond.keys@.len() + 1,
        nd2.keys@ == ond.keys@,
        nd2.children@ == ond.children@.update(idx, cb),
        inserted_shape(*ond.children@[idx], *cb, Option::None, key, value, order),
    ensures
        inserted_shape(Node::Internal(ond), Node::Internal(nd2), Option::None, key, value, order),
{
    assert(nd2.children@[idx] == cb);
    assert(inserted_shape(
        *ond.children@[idx],
        *nd2.children@[idx],
        Option::None,
        key,
        value,
        order,
    ));
    assert(forall|i: int|
        0 <= i < ond.children@.len() && i != idx ==> #[trigger] nd2.children@[i]
            == ond.children@[i]);
}

/// A parent that took its split child's promoted key and new sibling in
/// beside it, without overflowing itself, has the absorbed shape.
proof fn lemma_shape_child_absorbed<V>(
    ond: InternalNode<V>,
    nd2: InternalNode<V>,
    cb: Box<Node<V>>,
    ncb: Box<Node<V>>,
    cpk: KeySize,
    idx: int,
    key: KeySize,
    value: V,
    order: nat,
)
    requires
        route(ond.keys@, key) == idx,
        0 <= idx < ond.children@.len(),
        ond.children@.len() == ond.keys@.len() + 1,
        nd2.keys@ == ond.keys@.insert(idx, cpk),
        nd2.keys@.len() <= order,
        nd2.children@ == ond.children@.update(idx, cb).insert(idx + 1, ncb),
        inserted_shape(*ond.children@[idx], *cb, Option::Some((cpk, ncb)), key, value, order),
    ensures
        inserted_shape(Node::Internal(ond), Node::Internal(nd2), Option::None, key, value, order),
{
    ond.keys@.insert_ensures(idx, cpk);
    ond.children@.update(idx, cb).insert_ensures(idx + 1, ncb);
    assert(nd2.keys@[idx] == cpk);
    assert(nd2.children@[idx] == cb);
    assert(nd2.children@[idx + 1] == ncb);
    assert(nd2.keys@ == ond.keys@.insert(idx, nd2.keys@[idx]));
    assert(inserted_shape(
        *ond.children@[idx],
        *nd2.children@[idx],
        Option::Some((nd2.keys@[idx], nd2.children@[idx + 1])),
        key,
        value,
        order,
    ));
    assert(forall|i: int| 0 <= i < idx ==> #[trigger] nd2.children@[i] == ond.children@[i]);
    assert(forall|i: int|
        idx + 2 <= i < nd2.children@.len() ==> #[trigger] nd2.children@[i] == ond.children@[i
            - 1]);
}

/// A parent that absorbed its child's promotion, overflowed, and split at
/// its middle key has the split shape: left half, promoted middle key, and
/// right sibling.
proof fn lemma_shape_parent_split<V>(
    ond: InternalNode<V>,
    nd2: InternalNode<V>,
    sib: Box<Node<V>>,
    promoted: KeySize,
    cb: Box<Node<V>>,
    ncb: Box<Node<V>>,
    cpk: KeySize,
    idx: int,
    key: KeySize,
    value: V,
    order: nat,
)
    requires
        route(ond.keys@, key) == idx,
        0 <= idx < ond.children@.len(),
        ond.children@.len() == ond.keys@.len() + 1,
        *sib matches Node::Internal(_),
        ({
            let nd3 = sib->Internal_0;
            let keys2 = ond.keys@.insert(idx, cpk);
            let cs2 = ond.children@.update(idx, cb).insert(idx + 1, ncb);
            let midi = (order / 2 + order % 2) as int;
            &&& keys2.len() == order + 1
            &&& nd2.keys@ == keys2.take(midi)
            &&& promoted == keys2[midi]
            &&& nd3.keys@ == keys2.skip(midi + 1)
            &&& nd2.children@ == cs2.take(midi + 1)
            &&& nd3.children@ == cs2.skip(midi + 1)
        }),
        inserted_shape(*ond.children@[idx], *cb, Option::Some((cpk, ncb)), key, value, order),
    ensures
        inserted_shape(
            Node::Internal(ond),
            Node::Internal(nd2),
            Option::Some((promoted, sib)),
            key,
            value,
            order,
        ),
{
    let nd3 = sib->Internal_0;
    let keys2 = ond.keys@.insert(idx, cpk);
    let cs2 = ond.children@.update(idx, cb).insert(idx + 1, ncb);
    let midi = (order / 2 + order % 2) as int;
    ond.keys@.insert_ensures(idx, cpk);
    ond.children@.update(idx, cb).insert_ensures(idx + 1, ncb);
    assert(nd2.keys@ + seq![promoted] + nd3.keys@ =~= keys2);
    assert(nd2.children@ + nd3.children@ =~= cs2);
    assert(keys2[idx] == cpk);
    assert(cs2[idx] == cb);
    assert(cs2[idx + 1] == ncb);
    assert(keys2 == ond.keys@.insert(idx, keys2[idx]));
    assert(inserted_shape(
        *ond.children@[idx],
        *cs2[idx],
        Option::Some((keys2[idx], cs2[idx + 1])),
        key,
        value,
        order,
    ));
    assert(forall|i: int| 0 <= i < idx ==> #[trigger] cs2[i] == ond.children@[i]);
    assert(forall|i: int|
        idx + 2 <= i < cs2.len() ==> #[trigger] cs2[i] == ond.children@[i - 1]);
}

/// Replacing the routed child by one that additionally binds `k` to `v`
/// (and is otherwise within the same window) preserves well-formedness and
/// inserts the binding into the node's map.
pub(crate) proof fn lemma_internal_after_update<V>(
    nd: InternalNode<V>,
    nd2: InternalNode<V>,
    k: KeySize,
    v: V,
    order: nat,
    min: nat,
    h: nat,
    lo: Option<KeySize>,
    hi: Option<KeySize>,
    low: nat,
)
    requires
        node_ok(Node::Internal(nd), order, min, h, lo, hi, low),
        in_bounds(k, lo, hi),
        nd2.keys@ == nd.keys@,
        nd2.children@.len() == nd.children@.len(),
        forall|i: int|
            0 <= i < nd.children@.len() && i != route(nd.keys@, k) ==> #[trigger] nd2.children@[i]
                == nd.children@[i],
        node_ok(
            *nd2.children@[route(nd.keys@, k)],
            order,
            min,
            (h - 1) as nat,
            child_lo(nd.keys@, route(nd.keys@, k), lo),
            child_hi(nd.keys@, route(nd.keys@, k), hi),
            min,
        ),
        node_map(*nd2.children@[route(nd.keys@, k)]) == node_map(
            *nd.children@[route(nd.keys@, k)],
        ).insert(k, v),
    ensures
        node_ok(Node::Internal(nd2), order, min, h, lo, hi, low),
        node_map(Node::Internal(nd2)) == node_map(Node::Internal(nd)).insert(k, v),
{
    let idx = route(nd.keys@, k);
    lemma_route_properties(nd.keys@, k);
    lemma_routed_key_only_in_child(nd, order, min, h, lo, hi, low, k);
    lemma_children_map_update_insert(nd.children@, nd2.children@, idx, k, v);
    assert forall|j: int| 0 <= j < nd2.children@.len() implies node_ok(
        *(#[trigger] nd2.children@[j]),
        order,
        min,
        (h - 1) as nat,
        child_lo(nd2.keys@, j, lo),
        child_hi(nd2.keys@, j, hi),
        min,
    ) by {
        if j != idx {
            assert(nd2.children@[j] == nd.children@[j]);
            assert(node_ok(
                *nd.children@[j],
                order,
                min,
                (h - 1) as nat,
                child_lo(nd.keys@, j, lo),
                child_hi(nd.keys@, j, hi),
                min,
            ));
        }
    }
}

/// After the routed child splits into a left half and a new sibling, with
/// the promoted key inserted between them, the node (now one key and one
/// child larger) is well-formed whenever it has not itself overflowed, and
/// its map has gained exactly the new binding.
proof fn lemma_internal_after_insert<V>(
    nd: InternalNode<V>,
    nd2: InternalNode<V>,
    pk: KeySize,
    k: KeySize,
    v: V,
    order: nat,
    min: nat,
    h: nat,
    lo: Option<KeySize>,
    hi: Option<KeySize>,
    low: nat,
)
    requires
        node_ok(Node::Internal(nd), order, min, h, lo, hi, low),
        in_bounds(k, lo, hi),
        nd2.keys@ == nd.keys@.insert(route(nd.keys@, k), pk),
        nd2.children@.len() == nd.children@.len() + 1,
        forall|i: int|
            0 <= i < route(nd.keys@, k) ==> #[trigger] nd2.children@[i] == nd.children@[i],
        forall|i: int|
            route(nd.keys@, k) + 2 <= i < nd2.children@.len() ==> #[trigger] nd2.children@[i]
                == nd.children@[i - 1],
        node_ok(
            *nd2.children@[route(nd.keys@, k)],
            order,
            min,
            (h - 1) as nat,
            child_lo(nd.keys@, route(nd.keys@, k), lo),
            Option::Some(pk),
            min,
        ),
        node_ok(
            *nd2.children@[route(nd.keys@, k) + 1],
            order,
            min,
            (h - 1) as nat,
            Option::Some(pk),
            child_hi(nd.keys@, route(nd.keys@, k), hi),
            min,
        ),
        in_bounds(pk, child_lo(nd.keys@, route(nd.keys@, k), lo), child_hi(nd.keys@, route(nd.keys@, k), hi)),
        child_lo(nd.keys@, route(nd.keys@, k), lo) matches Option::Some(l) ==> l < pk,
        node_map(*nd2.children@[route(nd.keys@, k)]).union_prefer_right(
            node_map(*nd2.children@[route(nd.keys@, k) + 1]),
        ) == node_map(*nd.children@[route(nd.keys@, k)]).insert(k, v),
    ensures
        crate::kvmap::sorted_strict(nd2.keys@),
        forall|i: int|
            0 <= i < nd2.keys@.len() ==> crate::interp::routing_in_bounds(
                #[trigger] nd2.keys@[i],
                lo,
                hi,
            ),
        nd2.children@.len() == nd2.keys@.len() + 1,
        forall|j: int|
            0 <= j < nd2.children@.len() ==> node_ok(
                *(#[trigger] nd2.children@[j]),
                order,
                min,
                (h - 1) as nat,
                child_lo(nd2.keys@, j, lo),
                child_hi(nd2.keys@, j, hi),
                min,
            ),
        nd2.keys@.len() <= order ==> node_ok(Node::Internal(nd2), order, min, h, lo, hi, low),
        node_map(Node::Internal(nd2)) == node_map(Node::Internal(nd)).insert(k, v),
{
    let okeys = nd.keys@;
    let keys2 = nd2.keys@;
    let idx = route(okeys, k);
    lemma_route_properties(okeys, k);
    lemma_routed_key_only_in_child(nd, order, min, h, lo, hi, low, k);
    lemma_children_map_split_insert(nd.children@, nd2.children@, idx, k, v);
    // the promoted key fits strictly between the routing keys framing the
    // split child, so the grown key list is sorted and in-window
    assert(idx > 0 ==> okeys[idx - 1] < pk);
    assert(idx < okeys.len() ==> pk < okeys[idx]);
    assert(crate::interp::routing_in_bounds(pk, lo, hi)) by {
        if idx > 0 {
            assert(crate::interp::routing_in_bounds(okeys[idx - 1], lo, hi));
        }
        if idx < okeys.len() {
            assert(crate::interp::routing_in_bounds(okeys[idx], lo, hi));
        }
    }
    assert forall|i: int, j: int| 0 <= i < j < keys2.len() implies keys2[i] < keys2[j] by {
        assert(i < idx ==> keys2[i] == okeys[i]);
        assert(i > idx ==> keys2[i] == okeys[i - 1]);
        assert(j < idx ==> keys2[j] == okeys[j]);
        assert(j > idx ==> keys2[j] == okeys[j - 1]);
    }
    assert forall|i: int| 0 <= i < keys2.len() implies crate::interp::routing_in_bounds(
        #[trigger] keys2[i],
        lo,
        hi,
    ) by {
        if i < idx {
            assert(keys2[i] == okeys[i]);
        } else if i > idx {
            assert(keys2[i] == okeys[i - 1]);
        }
    }
    assert forall|j: int| 0 <= j < nd2.children@.len() implies node_ok(
        *(#[trigger] nd2.children@[j]),
        order,
        min,
        (h - 1) as nat,
        child_lo(keys2, j, lo),
        child_hi(keys2, j, hi),
        min,
    ) by {
        if j < idx {
            assert(nd2.children@[j] == nd.children@[j]);
            assert(node_ok(
                *nd.children@[j],
                order,
                min,
                (h - 1) as nat,
                child_lo(okeys, j, lo),
                child_hi(okeys, j, hi),
                min,
            ));
            assert(child_lo(keys2, j, lo) == child_lo(okeys, j, lo));
            assert(child_hi(keys2, j, hi) == child_hi(okeys, j, hi));
        } else if j == idx {
            assert(child_lo(keys2, j, lo) == child_lo(okeys, idx, lo));
            assert(child_hi(keys2, j, hi) == Option::Some(pk));
        } else if j == idx + 1 {
            assert(child_lo(keys2, j, lo) == Option::Some(pk));
            assert(child_hi(keys2, j, hi) == child_hi(okeys, idx, hi));
        } else {
            assert(nd2.children@[j] == nd.children@[j - 1]);
            assert(node_ok(
                *nd.children@[j - 1],
                order,
                min,
                (h - 1) as nat,
                child_lo(okeys, j - 1, lo),
                child_hi(okeys, j - 1, hi),
                min,
            ));
            assert(child_lo(keys2, j, lo) == child_lo(okeys, j - 1, lo));
            assert(child_hi(keys2, j, hi) == child_hi(okeys, j - 1, hi));
        }
    }
}

/// Cutting an overflowing internal node at its middle key yields two
/// well-formed internal nodes whose joint map is the overflowing node's.
proof fn lemma_internal_split<V>(
    nd2: InternalNode<V>,
    lnd: InternalNode<V>,
    rnd: InternalNode<V>,
    mid: int,
    promoted: KeySize,
    order: nat,
    min: nat,
    h: nat,
    lo: Option<KeySize>,
    hi: Option<KeySize>,
)
    requires
        h >= 1,
        crate::kvmap::sorted_strict(nd2.keys@),
        forall|i: int|
            0 <= i < nd2.keys@.len() ==> crate::interp::routing_in_bounds(
                #[trigger] nd2.keys@[i],
                lo,
                hi,
            ),
        nd2.children@.len() == nd2.keys@.len() + 1,
        forall|j: int|
            0 <= j < nd2.children@.len() ==> node_ok(
                *(#[trigger] nd2.children@[j]),
                order,
                min,
                (h - 1) as nat,
                child_lo(nd2.keys@, j, lo),
                child_hi(nd2.keys@, j, hi),
                min,
            ),
        1 <= mid < nd2.keys@.len(),
        min <= mid <= order,
        min <= nd2.keys@.len() - mid - 1 <= order,
        lnd.keys@ == nd2.keys@.subrange(0, mid),
        rnd.keys@ == nd2.keys@.subrange(mid + 1, nd2.keys@.len() as int),
        lnd.children@ == nd2.children@.subrange(0, mid + 1),
        rnd.children@ == nd2.children@.subrange(mid + 1, nd2.children@.len() as int),
        promoted == nd2.keys@[mid],
    ensures
        node_ok(Node::Internal(lnd), order, min, h, lo, Option::Some(promoted), min),
        node_ok(Node::Internal(rnd), order, min, h, Option::Some(promoted), hi, min),
        in_bounds(promoted, lo, hi),
        lo matches Option::Some(l) ==> l < promoted,
        node_map(Node::Internal(lnd)).union_prefer_right(node_map(Node::Internal(rnd)))
            == node_map(Node::Internal(nd2)),
{
    let keys2 = nd2.keys@;
    let cs2 = nd2.children@;
    assert(cs2 =~= lnd.children@ + rnd.children@);
    lemma_children_map_concat(lnd.children@, rnd.children@);
    assert(crate::interp::routing_in_bounds(keys2[0], lo, hi));
    assert(keys2[0] < promoted);
    assert(crate::interp::routing_in_bounds(promoted, lo, hi));
    assert forall|j: int| 0 <= j < lnd.children@.len() implies node_ok(
        *(#[trigger] lnd.children@[j]),
        order,
        min,
        (h - 1) as nat,
        child_lo(lnd.keys@, j, lo),
        child_hi(lnd.keys@, j, Option::Some(promoted)),
        min,
    ) by {
        assert(lnd.children@[j] == cs2[j]);
        assert(node_ok(
            *cs2[j],
            order,
            min,
            (h - 1) as nat,
            child_lo(keys2, j, lo),
            child_hi(keys2, j, hi),
            min,
        ));
        assert(child_lo(lnd.keys@, j, lo) == child_lo(keys2, j, lo));
        assert(child_hi(lnd.keys@, j, Option::Some(promoted)) == child_hi(keys2, j, hi));
    }
    assert forall|j: int| 0 <= j < rnd.children@.len() implies node_ok(
        *(#[trigger] rnd.children@[j]),
        order,
        min,
        (h - 1) as nat,
        child_lo(rnd.keys@, j, Option::Some(promoted)),
        child_hi(rnd.keys@, j, hi),
        min,
    ) by {
        assert(rnd.children@[j] == cs2[j + mid + 1]);
        assert(node_ok(
            *cs2[j + mid + 1],
            order,
            min,
            (h - 1) as nat,
            child_lo(keys2, j + mid + 1, lo),
            child_hi(keys2, j + mid + 1, hi),
            min,
        ));
        assert(child_lo(rnd.keys@, j, Option::Some(promoted)) == child_lo(keys2, j + mid + 1, lo));
        assert(child_hi(rnd.keys@, j, hi) == child_hi(keys2, j + mid + 1, hi));
    }
}

impl<V> BPlusTree<V> {
    /// Inserts the pair into a leaf, overwriting the value if the key is
    /// already present, and splits the leaf if it overflows `order` keys.
    #[verifier::rlimit(100)]
    fn insert_into_leaf(
        leaf: &mut LeafNode<V>,
        key: KeySize,
        value: V,
        order: usize,
        Ghost(min): Ghost<nat>,
        Ghost(lo): Ghost<Option<KeySize>>,
        Ghost(hi): Ghost<Option<KeySize>>,
        Ghost(low): Ghost<nat>,
    ) -> (r: Option<(KeySize, Box<Node<V>>)>)
        requires
            node_ok(Node::Leaf(*old(leaf)), order as nat, min, 0, lo, hi, low),
            order < usize::MAX,
            1 <= min,
            2 * min <= order,
            low <= min,
            in_bounds(key, lo, hi),
        ensures
            match r {
                Option::None => {
                    &&& node_ok(Node::Leaf(*final(leaf)), order as nat, min, 0, lo, hi, low)
                    &&& node_map(Node::Leaf(*final(leaf))) == node_map(
                        Node::Leaf(*old(leaf)),
                    ).insert(key, value)
                },
                Option::Some(pks) => {
                    &&& node_ok(
                        Node::Leaf(*final(leaf)),
                        order as nat,
                        min,
                        0,
                        lo,
                        Option::Some(pks.0),
                        min,
                    )
                    &&& node_ok(*pks.1, order as nat, min, 0, Option::Some(pks.0), hi, min)
                    &&& in_bounds(pks.0, lo, hi)
                    &&& (lo matches Option::Some(l) ==> l < pks.0)
                    &&& node_map(Node::Leaf(*final(leaf))).union_prefer_right(node_map(*pks.1))
                        == node_map(Node::Leaf(*old(leaf))).insert(key, value)
                },
            },
            inserted_shape(
                Node::Leaf(*old(leaf)),
                Node::Leaf(*final(leaf)),
                r,
                key,
                value,
                order as nat,
            ),
    {
        let ghost okeys = leaf.keys@;
        let ghost ovals = leaf.values@;
        let idx = route_index(&leaf.keys, key);
        proof {
            lemma_route_properties(okeys, key);
            lemma_sorted_no_duplicates(okeys);
        }
        if idx > 0 && leaf.keys[idx - 1] == key {
            // the key is already present: overwrite its value in place
            leaf.values[idx - 1] = value;
            proof {
                lemma_kv_update_at(okeys, ovals, idx - 1, value);
            }
            return Option::None;
        }
        proof {
            assert(!okeys.contains(key)) by {
                if okeys.contains(key) {
                    let t = choose|t: int| 0 <= t < okeys.len() && okeys[t] == key;
                    if t < idx {
                        assert(t < idx - 1 ==> okeys[t] < okeys[idx - 1]);
                    } else {
                        assert(key < okeys[idx as int]);
                        assert(okeys[idx as int] <= okeys[t]);
                    }
                }
            }
        }
        leaf.add(key, value);
        proof {
            // every key of the grown leaf is still inside the window
            assert(leaf.keys@ == okeys.insert(idx as int, key));
            assert forall|i: int| 0 <= i < leaf.keys@.len() implies in_bounds(
                #[trigger] leaf.keys@[i],
                lo,
                hi,
            ) by {
                if i < idx {
                    assert(leaf.keys@[i] == okeys[i]);
                } else if i > idx {
                    assert(leaf.keys@[i] == okeys[i - 1]);
                }
            }
        }
        if leaf.keys.len() > order {
            let ghost gkeys = leaf.keys@;
            let ghost gvals = leaf.values@;
            let mid = order / 2 + order % 2;
            proof {
                assert(gkeys.len() == order + 1);
                assert(min <= order / 2);
                assert(1 <= mid <= order);
            }
            let right_keys = leaf.keys.split_off(mid);
            let right_values = leaf.values.split_off(mid);
            let promoted_key = right_keys[0];
            proof {
                assert(leaf.keys@ =~= gkeys.take(mid as int));
                assert(leaf.values@ =~= gvals.take(mid as int));
                assert(right_keys@ =~= gkeys.skip(mid as int));
                assert(right_values@ =~= gvals.skip(mid as int));
                assert(gkeys =~= leaf.keys@ + right_keys@);
                assert(gvals =~= leaf.values@ + right_values@);
                lemma_kv_concat(leaf.keys@, leaf.values@, right_keys@, right_values@);
                assert(kv_map(leaf.keys@, leaf.values@).union_prefer_right(
                    kv_map(right_keys@, right_values@),
                ) == kv_map(okeys, ovals).insert(key, value));
            }
            let new_sibling = Box::new(
                Node::Leaf(LeafNode { values: right_values, keys: right_keys }),
            );
            Option::Some((promoted_key, new_sibling))
        } else {
            Option::None
        }
    }

    /// Recursive helper that inserts a single key-value pair into the
    /// subtree rooted at `node`.
    ///
    /// Traverses down to the appropriate leaf, inserts the key/value there
    /// (overwriting the value if the key is already present), and then
    /// propagates splits back up the call stack.  If the current node
    /// overflows `order` keys, it is split and the middle key is promoted
    /// to the caller.
    ///
    /// Returns:
    /// - `None` if no split was necessary
    /// - `Some((promoted_key, new_sibling))` if this node was split and the
    ///   parent must insert `promoted_key` and attach `new_sibling` as a
    ///   new child.
    #[verifier::rlimit(100)]
    fn insert_recursive(
        node: &mut Node<V>,
        key: KeySize,
        value: V,
        order: usize,
        Ghost(min): Ghost<nat>,
        Ghost(h): Ghost<nat>,
        Ghost(lo): Ghost<Option<KeySize>>,
        Ghost(hi): Ghost<Option<KeySize>>,
        Ghost(low): Ghost<nat>,
    ) -> (r: Option<(KeySize, Box<Node<V>>)>)
        requires
            node_ok(*old(node), order as nat, min, h, lo, hi, low),
            order < usize::MAX,
            1 <= min,
            2 * min <= order,
            low <= min,
            in_bounds(key, lo, hi),
        ensures
            match r {
                Option::None => {
                    &&& node_ok(*final(node), order as nat, min, h, lo, hi, low)
                    &&& node_map(*final(node)) == node_map(*old(node)).insert(key, value)
                    &&& ((*old(node) matches Node::Leaf(_)) <==> (*final(node) matches Node::Leaf(
                        _,
                    )))
                },
                Option::Some(pks) => {
                    &&& node_ok(*final(node), order as nat, min, h, lo, Option::Some(pks.0), min)
                    &&& node_ok(*pks.1, order as nat, min, h, Option::Some(pks.0), hi, min)
                    &&& in_bounds(pks.0, lo, hi)
                    &&& (lo matches Option::Some(l) ==> l < pks.0)
                    &&& node_map(*final(node)).union_prefer_right(node_map(*pks.1)) == node_map(
                        *old(node),
                    ).insert(key, value)
                },
            },
            inserted_shape(*old(node), *final(node), r, key, value, order as nat),
        decreases *old(node),
    {
        match node {
            Node::Leaf(leaf) => Self::insert_into_leaf(
                leaf,
                key,
                value,
                order,
                Ghost(min),
                Ghost(lo),
                Ghost(hi),
                Ghost(low),
            ),
            Node::Internal(internal) => {
                let ghost ond = *internal;
                let ghost okeys = internal.keys@;
                let idx = route_index(&internal.keys, key);
                let ghost clo = child_lo(okeys, idx as int, lo);
                let ghost chi = child_hi(okeys, idx as int, hi);
                proof {
                    lemma_route_properties(okeys, key);
                    assert(node_ok(
                        *ond.children@[idx as int],
                        order as nat,
                        min,
                        (h - 1) as nat,
                        clo,
                        chi,
                        min,
                    ));
                    assert(in_bounds(key, clo, chi));
                }
                let res = Self::insert_recursive(
                    &mut *internal.children[idx],
                    key,
                    value,
                    order,
                    Ghost(min),
                    Ghost((h - 1) as nat),
                    Ghost(clo),
                    Ghost(chi),
                    Ghost(min),
                );
                let ghost gcr = res;
                let ghost cb = internal.children@[idx as int];
                proof {
                    assert(internal.children@ =~= ond.children@.update(idx as int, cb));
                }
                match res {
                    Option::None => {
                        proof {
                            lemma_internal_after_update(
                                ond,
                                *internal,
                                key,
                                value,
                                order as nat,
                                min,
                                h,
                                lo,
                                hi,
                                low,
                            );
                            lemma_shape_child_done(
                                ond,
                                *internal,
                                cb,
                                idx as int,
                                key,
                                value,
                                order as nat,
                            );
                        }
                        Option::None
                    },
                    Option::Some((promoted_key, new_child)) => {
                        let ghost nd1 = *internal;
                        let ghost ncb = new_child;
                        let ghost keys2 = internal.keys@.insert(idx as int, promoted_key);
                        let ghost cs2 = internal.children@.insert(idx + 1, ncb);
                        internal.keys.insert(idx, promoted_key);
                        internal.children.insert(idx + 1, new_child);
                        proof {
                            assert(internal.keys@ == keys2);
                            assert(internal.children@ == cs2);
                            assert(nd1.children@[idx as int] == internal.children@[idx as int]);
                            lemma_internal_after_insert(
                                ond,
                                *internal,
                                promoted_key,
                                key,
                                value,
                                order as nat,
                                min,
                                h,
                                lo,
                                hi,
                                low,
                            );
                        }
                        if internal.keys.len() > order {
                            let ghost nd2 = *internal;
                            let mid = order / 2 + order % 2;
                            proof {
                                assert(nd2.keys@.len() == order + 1);
                                assert(min <= order / 2);
                                assert(1 <= mid <= order - 1);
                            }
                            let right_keys = internal.keys.split_off(mid + 1);
                            let promoted = internal.keys.pop().unwrap();
                            let right_children = internal.children.split_off(mid + 1);
                            let new_sibling = Box::new(
                                Node::Internal(
                                    InternalNode { keys: right_keys, children: right_children },
                                ),
                            );
                            proof {
                                assert(internal.keys@ =~= nd2.keys@.subrange(0, mid as int));
                                lemma_internal_split(
                                    nd2,
                                    *internal,
                                    new_sibling->Internal_0,
                                    mid as int,
                                    promoted,
                                    order as nat,
                                    min,
                                    h,
                                    lo,
                                    hi,
                                );
                                assert(internal.keys@ =~= keys2.take(mid as int));
                                assert(internal.children@ =~= cs2.take(mid + 1));
                                assert(new_sibling->Internal_0.keys@ =~= keys2.skip(mid + 1));
                                assert(new_sibling->Internal_0.children@ =~= cs2.skip(mid + 1));
                                assert(keys2 == ond.keys@.insert(idx as int, promoted_key));
                                assert(cs2 == ond.children@.update(idx as int, cb).insert(
                                    idx + 1,
                                    ncb,
                                ));
                                lemma_shape_parent_split(
                                    ond,
                                    *internal,
                                    new_sibling,
                                    promoted,
                                    cb,
                                    ncb,
                                    promoted_key,
                                    idx as int,
                                    key,
                                    value,
                                    order as nat,
                                );
                            }
                            Option::Some((promoted, new_sibling))
                        } else {
                            proof {
                                lemma_shape_child_absorbed(
                                    ond,
                                    *internal,
                                    cb,
                                    ncb,
                                    promoted_key,
                                    idx as int,
                                    key,
                                    value,
                                    order as nat,
                                );
                            }
                            Option::None
                        }
                    },
                }
            },
        }
    }

    /// Inserts `value` under `key`, overwriting any value already stored
    /// there.  If the root splits, a new internal root with one routing key
    /// and two children takes its place: the only way tree height grows.
    ///
    /// `insert_value` draws the key itself; this entry point takes it from
    /// the caller, so that keys can be chosen deterministically.
    pub fn insert_with_key(&mut self, key: KeySize, value: V)
        requires
            old(self).wf(),
        ensures
            final(self).wf(),
            final(self)@ == old(self)@.insert(key, value),
            inserted_root_shape(
                old(self).root,
                final(self).root,
                key,
                value,
                old(self).order as nat,
            ),
            node_height(final(self).root) == node_height(old(self).root) || node_height(
                final(self).root,
            ) == node_height(old(self).root) + 1,
            final(self).order == old(self).order,
            final(self).min_elements == old(self).min_elements,
    {
        let ghost oroot = self.root;
        let ghost h = node_height(self.root);
        let ghost low = self.root_low();
        let order = self.order;
        let min_elements = self.min_elements;
        let res = Self::insert_recursive(
            &mut self.root,
            key,
            value,
            order,
            Ghost(min_elements as nat),
            Ghost(h),
            Ghost(Option::None),
            Ghost(Option::None),
            Ghost(low),
        );
        match res {
            Option::None => {
                proof {
                    lemma_node_ok_height(
                        self.root,
                        order as nat,
                        min_elements as nat,
                        h,
                        Option::None,
                        Option::None,
                        low,
                    );
                    assert(inserted_root_shape(oroot, self.root, key, value, order as nat));
                }
            },
            Option::Some((promoted_key, new_child)) => {
                let ghost gsib = new_child;
                // the root was split: build a new internal root over the old
                // root and its new sibling
                let mut old_root: Node<V> = Node::Leaf(
                    LeafNode { keys: Vec::new(), values: Vec::new() },
                );
                core::mem::swap(&mut self.root, &mut old_root);
                let mut root_keys: Vec<KeySize> = Vec::new();
                root_keys.push(promoted_key);
                let mut root_children: Vec<Box<Node<V>>> = Vec::new();
                root_children.push(Box::new(old_root));
                root_children.push(new_child);
                self.root = Node::Internal(InternalNode { keys: root_keys, children: root_children });
                proof {
                    let nd = self.root->Internal_0;
                    let b0 = nd.children@[0];
                    let b1 = nd.children@[1];
                    assert(nd.keys@ =~= seq![promoted_key]);
                    assert(node_ok(*b0, order as nat, min_elements as nat, h, Option::None, Option::Some(promoted_key), min_elements as nat));
                    assert(node_ok(*b1, order as nat, min_elements as nat, h, Option::Some(promoted_key), Option::None, min_elements as nat));
                    assert forall|j: int| 0 <= j < nd.children@.len() implies node_ok(
                        *(#[trigger] nd.children@[j]),
                        order as nat,
                        min_elements as nat,
                        h,
                        child_lo(nd.keys@, j, Option::None),
                        child_hi(nd.keys@, j, Option::None),
                        min_elements as nat,
                    ) by {
                        assert(j == 0 || j == 1);
                    }
                    assert(node_ok(self.root, order as nat, min_elements as nat, h + 1, Option::None, Option::None, 1nat));
                    lemma_node_ok_height(
                        self.root,
                        order as nat,
                        min_elements as nat,
                        h + 1,
                        Option::None,
                        Option::None,
                        1nat,
                    );
                    // the new root's map is the union of its two children's
                    assert(nd.children@.drop_last() =~= seq![b0]);
                    crate::interp::lemma_children_map_singleton(b0);
                    assert(children_map(nd.children@) == node_map(*b0).union_prefer_right(
                        node_map(*b1),
                    ));
                    // the new root holds exactly the promoted key over the
                    // old root's left half and the new sibling
                    assert(b1 == gsib);
                    assert(nd.keys@[0] == promoted_key);
                    assert(inserted_shape(
                        oroot,
                        *nd.children@[0],
                        Option::Some((nd.keys@[0], nd.children@[1])),
                        key,
                        value,
                        order as nat,
                    ));
                    assert(inserted_root_shape(oroot, self.root, key, value, order as nat));
                }
            },
        }
    }

    /// Public entry point for inserts with an auto-generated key.
    ///
    /// The tree, not the caller, assigns the key, drawn uniformly from the
    /// key domain; the chosen key is handed back so that the value can be
    /// retrieved later.  Whatever key comes back, the tree afterwards maps
    /// it to `value`.
    pub fn insert_value(&mut self, value: V) -> (k: KeySize)
        requires
            old(self).wf(),
        ensures
            final(self).wf(),
            final(self)@ == old(self)@.insert(k, value),
            inserted_root_shape(old(self).root, final(self).root, k, value, old(self).order as nat),
            node_height(final(self).root) == node_height(old(self).root) || node_height(
                final(self).root,
            ) == node_height(old(self).root) + 1,
            final(self).order == old(self).order,
            final(self).min_elements == old(self).min_elements,
    {
        let new_key = rand::random::<KeySize>();
        self.insert_with_key(new_key, value);
        new_key
    }
}

} // verus!
