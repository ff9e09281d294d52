//! Deletion: descend to the leaf that holds the key, remove the pair, and
//! propagate the outcome back up.  A parent resolves an underflowed child
//! by borrowing a key from a sibling with spare capacity, or by merging the
//! child with a sibling; at the root the tree may shrink one level.

use vstd::prelude::*;

use crate::interp::child_hi;
use crate::interp::child_lo;
use crate::interp::children_map;
use crate::interp::in_bounds;
use crate::interp::internal_ok_except;
use crate::interp::is_min_of;
use crate::interp::lemma_children_map_contains;
use crate::interp::lemma_children_map_merge_at;
use crate::interp::lemma_children_map_pair_update;
use crate::interp::lemma_children_map_singleton;
use crate::interp::lemma_children_map_update_remove;
use crate::interp::lemma_internal_min;
use crate::interp::lemma_node_map_bounds;
use crate::interp::lemma_node_ok_height;
use crate::interp::lemma_node_ok_relow;
use crate::interp::lemma_node_ok_tighten_lo;
use crate::interp::lemma_node_ok_widen;
use crate::interp::lemma_route_properties;
use crate::interp::lemma_routed_key_only_in_child;
use crate::interp::node_height;
use crate::interp::node_key_count;
use crate::interp::node_map;
use crate::interp::node_ok;
use crate::interp::route;
use crate::interp::routing_in_bounds;
use crate::kvmap::kv_map;
use crate::kvmap::lemma_kv_concat;
use crate::kvmap::lemma_kv_contains;
use crate::kvmap::lemma_kv_insert_at;
use crate::kvmap::lemma_kv_remove_at;
use crate::kvmap::lemma_sorted_no_duplicates;
use crate::kvmap::sorted_strict;
use crate::lookup::route_index;
use crate::models::BPlusTree;
use crate::models::DeleteResult;
use crate::models::InternalNode;
use crate::models::KeySize;
use crate::models::LeafNode;
use crate::models::Node;

verus! {

broadcast use vstd::std_specs::vec::group_vec_axioms;

/// The outcome a removal of `key` reports for the subtree `a`: deletion is
/// deterministic, so the report is a function of the old subtree alone.
pub open spec fn delete_outcome<V>(a: Node<V>, key: KeySize, min: nat) -> DeleteResult<KeySize>
    decreases a,
{
    match a {
        Node::Leaf(l) => {
            let p = route(l.keys@, key);
            if !(p > 0 && l.keys@[p - 1] == key) {
                DeleteResult::NotFound
            } else {
                let k2 = l.keys@.remove(p - 1);
                if k2.len() == 0 {
                    DeleteResult::Empty
                } else if k2.len() < min {
                    DeleteResult::Underflow {
                        new_min_opt: if p == 1 {
                            Option::Some(k2[0])
                        } else {
                            Option::None
                        },
                    }
                } else if p == 1 {
                    DeleteResult::MinChanged { new_min: k2[0] }
                } else {
                    DeleteResult::Done
                }
            }
        },
        Node::Internal(nd) => {
            let j = route(nd.keys@, key);
            if 0 <= j < nd.children@.len() {
                match delete_outcome(*nd.children@[j], key, min) {
                    DeleteResult::NotFound => DeleteResult::NotFound,
                    DeleteResult::Done => DeleteResult::Done,
                    DeleteResult::MinChanged { new_min } => if j > 0 {
                        DeleteResult::Done
                    } else {
                        DeleteResult::MinChanged { new_min }
                    },
                    DeleteResult::Underflow { new_min_opt } => resolve_outcome(
                        nd,
                        j,
                        false,
                        passed_min(nd, j, DeleteResult::Underflow { new_min_opt }),
                        min,
                    ),
                    DeleteResult::Empty => resolve_outcome(
                        nd,
                        j,
                        true,
                        passed_min(nd, j, DeleteResult::Empty),
                        min,
                    ),
                }
            } else {
                DeleteResult::NotFound
            }
        },
    }
}

/// The subtree's new smallest key, when it changed and is known: for a
/// leftmost underflowed child its own report; for a leftmost emptied leaf
/// the first key of the leaf that will absorb the merge.
pub open spec fn passed_min<V>(
    nd: InternalNode<V>,
    j: int,
    cr: DeleteResult<KeySize>,
) -> Option<KeySize> {
    if j != 0 {
        Option::None
    } else {
        match cr {
            DeleteResult::Underflow { new_min_opt } => new_min_opt,
            DeleteResult::Empty => match *nd.children@[1] {
                Node::Leaf(l1) => if l1.keys@.len() > 0 {
                    Option::Some(l1.keys@[0])
                } else {
                    Option::None
                },
                Node::Internal(_) => Option::None,
            },
            _ => Option::None,
        }
    }
}

/// The report a parent makes once a child's underflow is repaired in
/// place: the new minimum if one is known, otherwise plain success.
pub open spec fn reported(passed: Option<KeySize>) -> DeleteResult<KeySize> {
    match passed {
        Option::Some(m) => DeleteResult::MinChanged { new_min: m },
        Option::None => DeleteResult::Done,
    }
}

/// How an underflow at child `j` is resolved and reported, given the key
/// counts of the siblings: borrow from the left, else from the right, else
/// merge — after which the parent itself may dip below `min`.
pub open spec fn resolve_outcome<V>(
    nd: InternalNode<V>,
    j: int,
    is_empty: bool,
    passed: Option<KeySize>,
    min: nat,
) -> DeleteResult<KeySize> {
    let bl = !is_empty && j > 0 && node_key_count(*nd.children@[j - 1]) > min;
    let br = !bl && !is_empty && j + 1 < nd.children@.len() && node_key_count(*nd.children@[j + 1])
        > min;
    if bl || br {
        reported(passed)
    } else if nd.keys@.len() >= min + 1 {
        reported(passed)
    } else {
        DeleteResult::Underflow { new_min_opt: passed }
    }
}

/// `b` is the child list `cs` (under routing keys `keys`) after the
/// underflowed child `cs[j]` borrowed the rightmost entry of its left
/// sibling, rotated through the separating routing key.
pub open spec fn borrow_left_shape<V>(
    keys: Seq<KeySize>,
    cs: Seq<Box<Node<V>>>,
    b: Node<V>,
    j: int,
) -> bool {
    b matches Node::Internal(nd2) && 0 < j < cs.len() && j <= keys.len() && {
        &&& nd2.children@.len() == cs.len()
        &&& (forall|i: int|
            0 <= i < cs.len() && i != j - 1 && i != j ==> #[trigger] nd2.children@[i] == cs[i])
        &&& match (*cs[j - 1], *cs[j]) {
            (Node::Leaf(ls), Node::Leaf(cl)) => {
                &&& ls.keys@.len() >= 1
                &&& ls.values@.len() >= 1
                &&& nd2.keys@ == keys.update(j - 1, ls.keys@.last())
                &&& *nd2.children@[j - 1] matches Node::Leaf(l2) && l2.keys@
                    == ls.keys@.drop_last() && l2.values@ == ls.values@.drop_last()
                &&& *nd2.children@[j] matches Node::Leaf(r2) && r2.keys@ == cl.keys@.insert(
                    0,
                    ls.keys@.last(),
                ) && r2.values@ == cl.values@.insert(0, ls.values@.last())
            },
            (Node::Internal(lnd), Node::Internal(cnd)) => {
                &&& lnd.keys@.len() >= 1
                &&& lnd.children@.len() >= 1
                &&& nd2.keys@ == keys.update(j - 1, lnd.keys@.last())
                &&& *nd2.children@[j - 1] matches Node::Internal(l2) && l2.keys@
                    == lnd.keys@.drop_last() && l2.children@ == lnd.children@.drop_last()
                &&& *nd2.children@[j] matches Node::Internal(r2) && r2.keys@ == cnd.keys@.insert(
                    0,
                    keys[j - 1],
                ) && r2.children@ == cnd.children@.insert(0, lnd.children@.last())
            },
            _ => false,
        }
    }
}

/// `b` is the child list `cs` after the underflowed child `cs[j]` borrowed
/// the leftmost entry of its right sibling, rotated through the separating
/// routing key.
pub open spec fn borrow_right_shape<V>(
    keys: Seq<KeySize>,
    cs: Seq<Box<Node<V>>>,
    b: Node<V>,
    j: int,
) -> bool {
    b matches Node::Internal(nd2) && 0 <= j && j + 1 < cs.len() && j < keys.len() && {
        &&& nd2.children@.len() == cs.len()
        &&& (forall|i: int|
            0 <= i < cs.len() && i != j && i != j + 1 ==> #[trigger] nd2.children@[i] == cs[i])
        &&& match (*cs[j], *cs[j + 1]) {
            (Node::Leaf(cl), Node::Leaf(rs)) => {
                &&& rs.keys@.len() >= 2
                &&& rs.values@.len() >= 1
                &&& nd2.keys@ == keys.update(j, rs.keys@[1])
                &&& *nd2.children@[j] matches Node::Leaf(l2) && l2.keys@ == cl.keys@.push(
                    rs.keys@[0],
                ) && l2.values@ == cl.values@.push(rs.values@[0])
                &&& *nd2.children@[j + 1] matches Node::Leaf(r2) && r2.keys@
                    == rs.keys@.drop_first() && r2.values@ == rs.values@.drop_first()
            },
            (Node::Internal(cnd), Node::Internal(rnd)) => {
                &&& rnd.keys@.len() >= 1
                &&& rnd.children@.len() >= 1
                &&& nd2.keys@ == keys.update(j, rnd.keys@[0])
                &&& *nd2.children@[j] matches Node::Internal(l2) && l2.keys@ == cnd.keys@.push(
                    keys[j],
                ) && l2.children@ == cnd.children@.push(rnd.children@[0])
                &&& *nd2.children@[j + 1] matches Node::Internal(r2) && r2.keys@
                    == rnd.keys@.drop_first() && r2.children@ == rnd.children@.drop_first()
            },
            _ => false,
        }
    }
}

/// `b` is the child list `cs` after children `a` and `a + 1` merged into
/// one child, absorbing the separating routing key `keys[a]`.
pub open spec fn merge_shape<V>(
    keys: Seq<KeySize>,
    cs: Seq<Box<Node<V>>>,
    b: Node<V>,
    a: int,
) -> bool {
    b matches Node::Internal(nd2) && 0 <= a && a + 1 < cs.len() && a < keys.len() && {
        &&& nd2.keys@ == keys.remove(a)
        &&& nd2.children@.len() + 1 == cs.len()
        &&& (forall|i: int| 0 <= i < a ==> #[trigger] nd2.children@[i] == cs[i])
        &&& (forall|i: int|
            a + 1 <= i < nd2.children@.len() ==> #[trigger] nd2.children@[i] == cs[i + 1])
        &&& match (*cs[a], *cs[a + 1]) {
            (Node::Leaf(ll), Node::Leaf(rl)) => *nd2.children@[a] matches Node::Leaf(m2)
                && m2.keys@ == ll.keys@ + rl.keys@ && m2.values@ == ll.values@ + rl.values@,
            (Node::Internal(lnd2), Node::Internal(rnd2)) => *nd2.children@[a] matches Node::Internal(
                m2,
            ) && m2.keys@ == lnd2.keys@ + seq![keys[a]] + rnd2.keys@ && m2.children@
                == lnd2.children@ + rnd2.children@,
            _ => false,
        }
    }
}

/// `b`, with report `r`, is the child list `cs` (holding the underflowed
/// child at `j`) after the resolution step: borrow from the left sibling,
/// else from the right, else merge, in that priority order.
pub open spec fn resolved_shape<V>(
    keys: Seq<KeySize>,
    cs: Seq<Box<Node<V>>>,
    b: Node<V>,
    r: DeleteResult<KeySize>,
    j: int,
    is_empty: bool,
    passed: Option<KeySize>,
    min: nat,
) -> bool {
    let bl = !is_empty && j > 0 && node_key_count(*cs[j - 1]) > min;
    let br = !bl && !is_empty && j + 1 < cs.len() && node_key_count(*cs[j + 1]) > min;
    if bl {
        &&& borrow_left_shape(keys, cs, b, j)
        &&& r == reported(passed)
    } else if br {
        &&& borrow_right_shape(keys, cs, b, j)
        &&& r == reported(passed)
    } else {
        &&& merge_shape(
            keys,
            cs,
            b,
            if j > 0 {
                j - 1
            } else {
                0
            },
        )
        &&& r == (if keys.len() >= min + 1 {
            reported(passed)
        } else {
            DeleteResult::Underflow { new_min_opt: passed }
        })
    }
}

/// `b`, reporting `r`, is exactly what removing `key` from `a` produces:
/// the routed leaf loses the pair (or nothing changes when the key is
/// absent); a parent whose child reports a changed minimum updates the
/// routing key to the child's left; and a parent whose child underflowed
/// or emptied repairs it by borrowing from a sibling with spare capacity,
/// else by merging — collapsing into its own report in turn.
pub open spec fn deleted_shape<V>(
    a: Node<V>,
    b: Node<V>,
    r: DeleteResult<KeySize>,
    key: KeySize,
    min: nat,
) -> bool
    decreases a,
{
    match a {
        Node::Leaf(l) => {
            let p = route(l.keys@, key);
            &&& r == delete_outcome(a, key, min)
            &&& if !(p > 0 && l.keys@[p - 1] == key) {
                b matches Node::Leaf(l2) && l2.keys@ == l.keys@ && l2.values@ == l.values@
            } else {
                b matches Node::Leaf(l2) && l2.keys@ == l.keys@.remove(p - 1) && l2.values@
                    == l.values@.remove(p - 1)
            }
        },
        Node::Internal(nd) => {
            let j = route(nd.keys@, key);
            &&& 0 <= j < nd.children@.len()
            &&& r == delete_outcome(a, key, min)
            &&& match delete_outcome(*nd.children@[j], key, min) {
                DeleteResult::NotFound | DeleteResult::Done => b matches Node::Internal(nd2) && {
                    &&& nd2.keys@ == nd.keys@
                    &&& nd2.children@.len() == nd.children@.len()
                    &&& (forall|i: int|
                        0 <= i < nd.children@.len() && i != j ==> #[trigger] nd2.children@[i]
                            == nd.children@[i])
                    &&& deleted_shape(
                        *nd.children@[j],
                        *nd2.children@[j],
                        delete_outcome(*nd.children@[j], key, min),
                        key,
                        min,
                    )
                },
                DeleteResult::MinChanged { new_min } => b matches Node::Internal(nd2) && {
                    &&& nd2.keys@ == if j > 0 {
                        nd.keys@.update(j - 1, new_min)
                    } else {
                        nd.keys@
                    }
                    &&& nd2.children@.len() == nd.children@.len()
                    &&& (forall|i: int|
                        0 <= i < nd.children@.len() && i != j ==> #[trigger] nd2.children@[i]
                            == nd.children@[i])
                    &&& deleted_shape(
                        *nd.children@[j],
                        *nd2.children@[j],
                        delete_outcome(*nd.children@[j], key, min),
                        key,
                        min,
                    )
                },
                DeleteResult::Underflow { new_min_opt } => resolved_with_witness(
                    nd,
                    b,
                    r,
                    j,
                    false,
                    key,
                    min,
                ),
                DeleteResult::Empty => resolved_with_witness(nd, b, r, j, true, key, min),
            }
        },
    }
}

/// Marks the child state a resolution is witnessed by; used to guide the
/// prover to the witness of `resolved_with_witness`.
pub open spec fn resolution_witness<V>(cb: Box<Node<V>>) -> bool {
    true
}

/// Some post-deletion state of the routed child, together with the
/// resolution step the parent applied to it, accounts for `b` and `r`.
pub open spec fn resolved_with_witness<V>(
    nd: InternalNode<V>,
    b: Node<V>,
    r: DeleteResult<KeySize>,
    j: int,
    is_empty: bool,
    key: KeySize,
    min: nat,
) -> bool
    decreases nd,
{
    0 <= j < nd.children@.len() && exists|cb: Box<Node<V>>|
        #[trigger] resolution_witness(cb) && deleted_shape(
            *nd.children@[j],
            *cb,
            delete_outcome(*nd.children@[j], key, min),
            key,
            min,
        ) && resolved_shape(
            nd.keys@,
            nd.children@.update(j, cb),
            b,
            r,
            j,
            is_empty,
            passed_min(nd, j, delete_outcome(*nd.children@[j], key, min)),
            min,
        )
}

/// At the root, a deletion either transforms the root in place, or — the
/// only way tree height shrinks — the root, left as an internal node with
/// no routing key and a single child, is replaced by that child, one level
/// lower.
pub open spec fn deleted_root_shape<V>(a: Node<V>, b: Node<V>, key: KeySize, min: nat) -> bool {
    ||| deleted_shape(a, b, delete_outcome(a, key, min), key, min)
    ||| exists|mid: Node<V>|
        {
            &&& #[trigger] root_witness(mid)
            &&& deleted_shape(a, mid, delete_outcome(a, key, min), key, min)
            &&& mid matches Node::Internal(ndm) && ndm.keys@.len() == 0 && ndm.children@.len() == 1
                && b == *ndm.children@[0]
        }
}

/// Marks the pre-collapse root a height shrink is witnessed by; used to
/// guide the prover to the witness of `deleted_root_shape`.
pub open spec fn root_witness<V>(n: Node<V>) -> bool {
    true
}

/// A deletion that finds nothing leaves every node of the subtree exactly
/// as it was.
pub proof fn lemma_deleted_notfound_same<V>(a: Node<V>, b: Node<V>, key: KeySize, min: nat)
    requires
        deleted_shape(a, b, DeleteResult::NotFound, key, min),
    ensures
        crate::interp::same_shape(a, b),
    decreases a,
{
    match a {
        Node::Leaf(_) => {},
        Node::Internal(nd) => {
            let j = route(nd.keys@, key);
            let cr = delete_outcome(*nd.children@[j], key, min);
            // only a child that found nothing lets the parent report NotFound
            assert(cr is NotFound) by {
                if !(cr is NotFound) {
                    assert(!(delete_outcome(a, key, min) is NotFound));
                }
            }
            match b {
                Node::Internal(nd2) => {
                    assert forall|i: int| 0 <= i < nd.children@.len() implies crate::interp::same_shape(
                        *(#[trigger] nd.children@[i]),
                        *nd2.children@[i],
                    ) by {
                        if i == j {
                            lemma_deleted_notfound_same(
                                *nd.children@[j],
                                *nd2.children@[j],
                                key,
                                min,
                            );
                        } else {
                            assert(nd2.children@[i] == nd.children@[i]);
                            crate::interp::lemma_same_shape_refl(*nd.children@[i]);
                        }
                    }
                },
                Node::Leaf(_) => {
                    assert(false);
                },
            }
        },
    }
}

/// Witnessing the routed child's post-deletion state establishes the
/// parent's shape for an underflow resolved in place.
proof fn lemma_deleted_shape_intro<V>(
    nd: InternalNode<V>,
    b: Node<V>,
    r: DeleteResult<KeySize>,
    cb: Box<Node<V>>,
    key: KeySize,
    min: nat,
    is_empty: bool,
)
    requires
        0 <= route(nd.keys@, key) < nd.children@.len(),
        deleted_shape(
            *nd.children@[route(nd.keys@, key)],
            *cb,
            delete_outcome(*nd.children@[route(nd.keys@, key)], key, min),
            key,
            min,
        ),
        is_empty <==> (delete_outcome(*nd.children@[route(nd.keys@, key)], key, min)
            matches DeleteResult::Empty),
        is_empty || (delete_outcome(*nd.children@[route(nd.keys@, key)], key, min)
            matches DeleteResult::Underflow { .. }),
        resolved_shape(
            nd.keys@,
            nd.children@.update(route(nd.keys@, key), cb),
            b,
            r,
            route(nd.keys@, key),
            is_empty,
            passed_min(nd, route(nd.keys@, key), delete_outcome(*nd.children@[route(nd.keys@, key)], key, min)),
            min,
        ),
        r == delete_outcome(Node::Internal(nd), key, min),
    ensures
        deleted_shape(Node::Internal(nd), b, r, key, min),
{
    let j = route(nd.keys@, key);
    let cr = delete_outcome(*nd.children@[j], key, min);
    assert(resolved_with_witness(nd, b, r, j, is_empty, key, min)) by {
        assert(resolution_witness(cb));
        assert(deleted_shape(*nd.children@[j], *cb, cr, key, min));
        assert(resolved_shape(
            nd.keys@,
            nd.children@.update(j, cb),
            b,
            r,
            j,
            is_empty,
            passed_min(nd, j, cr),
            min,
        ));
    }
}

/// The first key of a sorted, nonempty leaf is the smallest key of its map.
proof fn lemma_leaf_min<V>(keys: Seq<KeySize>, vals: Seq<V>)
    requires
        keys.len() == vals.len(),
        keys.len() > 0,
        sorted_strict(keys),
    ensures
        is_min_of(kv_map(keys, vals), keys[0]),
{
    lemma_kv_contains(keys, vals, keys[0]);
    assert(keys.contains(keys[0]));
    assert forall|k2: KeySize| #[trigger] kv_map(keys, vals).contains_key(k2) implies keys[0]
        <= k2 by {
        lemma_kv_contains(keys, vals, k2);
        let i = choose|i: int| 0 <= i < keys.len() && keys[i] == k2;
        assert(i > 0 ==> keys[0] < keys[i]);
    }
}

/// After the routed child's map has lost the binding of `k` (and the child
/// may have underflowed), the parent is well-formed except possibly at that
/// child, and its map has lost exactly that binding.
proof fn lemma_internal_after_remove<V>(
    nd: InternalNode<V>,
    nd2: InternalNode<V>,
    k: KeySize,
    order: nat,
    min: nat,
    h: nat,
    lo: Option<KeySize>,
    hi: Option<KeySize>,
    low: nat,
    clow: nat,
)
    requires
        node_ok(Node::Internal(nd), order, min, h, lo, hi, low),
        in_bounds(k, lo, hi),
        nd2.keys@ == nd.keys@,
        nd2.children@.len() == nd.children@.len(),
        forall|i: int|
            0 <= i < nd.children@.len() && i != route(nd.keys@, k) ==> #[trigger] nd2.children@[i]
                == nd.children@[i],
        node_ok(
            *nd2.children@[route(nd.keys@, k)],
            order,
            min,
            (h - 1) as nat,
            child_lo(nd.keys@, route(nd.keys@, k), lo),
            child_hi(nd.keys@, route(nd.keys@, k), hi),
            clow,
        ),
        node_map(*nd2.children@[route(nd.keys@, k)]) == node_map(
            *nd.children@[route(nd.keys@, k)],
        ).remove(k),
    ensures
        internal_ok_except(nd2, route(nd.keys@, k), order, min, h, lo, hi, low),
        clow >= min ==> node_ok(Node::Internal(nd2), order, min, h, lo, hi, low),
        node_map(Node::Internal(nd2)) == node_map(Node::Internal(nd)).remove(k),
{
    let idx = route(nd.keys@, k);
    lemma_route_properties(nd.keys@, k);
    lemma_routed_key_only_in_child(nd, order, min, h, lo, hi, low, k);
    lemma_children_map_update_remove(nd.children@, nd2.children@, idx, k);
    lemma_node_ok_relow(
        *nd2.children@[idx],
        order,
        min,
        (h - 1) as nat,
        child_lo(nd.keys@, idx, lo),
        child_hi(nd.keys@, idx, hi),
        clow,
        0,
    );
    assert forall|i: int| 0 <= i < nd2.children@.len() && i != idx implies node_ok(
        *(#[trigger] nd2.children@[i]),
        order,
        min,
        (h - 1) as nat,
        child_lo(nd2.keys@, i, lo),
        child_hi(nd2.keys@, i, hi),
        min,
    ) by {
        assert(nd2.children@[i] == nd.children@[i]);
        assert(node_ok(
            *nd.children@[i],
            order,
            min,
            (h - 1) as nat,
            child_lo(nd.keys@, i, lo),
            child_hi(nd.keys@, i, hi),
            min,
        ));
    }
    if clow >= min {
        lemma_node_ok_relow(
            *nd2.children@[idx],
            order,
            min,
            (h - 1) as nat,
            child_lo(nd.keys@, idx, lo),
            child_hi(nd.keys@, idx, hi),
            clow,
            min,
        );
    }
}

/// When the first child's map is empty, a smallest key of the second
/// child's map is a smallest key of the whole node's map.
proof fn lemma_min_from_second_child<V>(
    nd: InternalNode<V>,
    order: nat,
    min: nat,
    h: nat,
    lo: Option<KeySize>,
    hi: Option<KeySize>,
    low: nat,
    m: KeySize,
)
    requires
        internal_ok_except(nd, 0, order, min, h, lo, hi, low),
        1 <= low,
        node_map(*nd.children@[0]) == Map::<KeySize, V>::empty(),
        is_min_of(node_map(*nd.children@[1]), m),
    ensures
        is_min_of(children_map(nd.children@), m),
{
    lemma_node_map_bounds(
        *nd.children@[1],
        order,
        min,
        (h - 1) as nat,
        child_lo(nd.keys@, 1, lo),
        child_hi(nd.keys@, 1, hi),
        min,
    );
    lemma_children_map_contains(nd.children@, m);
    assert(children_map(nd.children@).contains_key(m));
    assert forall|k2: KeySize| #[trigger] children_map(nd.children@).contains_key(
        k2,
    ) implies m <= k2 by {
        lemma_children_map_contains(nd.children@, k2);
        let j = choose|j: int|
            0 <= j < nd.children@.len() && node_map(*(#[trigger] nd.children@[j])).contains_key(k2);
        if j == 0 {
            assert(false);
        } else if j == 1 {
        } else {
            lemma_node_map_bounds(
                *nd.children@[j],
                order,
                min,
                (h - 1) as nat,
                child_lo(nd.keys@, j, lo),
                child_hi(nd.keys@, j, hi),
                min,
            );
            assert(in_bounds(k2, child_lo(nd.keys@, j, lo), child_hi(nd.keys@, j, hi)));
            assert(in_bounds(m, child_lo(nd.keys@, 1, lo), child_hi(nd.keys@, 1, hi)));
            assert(nd.keys@[1] <= nd.keys@[j - 1]);
            assert(m < nd.keys@[1]);
        }
    }
}

impl<V> BPlusTree<V> {
    /// The number of keys the node itself holds.
    fn node_keys_len(n: &Node<V>) -> (r: usize)
        ensures
            r == node_key_count(*n),
    {
        match n {
            Node::Leaf(l) => l.keys.len(),
            Node::Internal(nd) => nd.keys.len(),
        }
    }

    /// Resolves an underflow at child `idx` by moving the rightmost entry
    /// of its left sibling over, rotating it through the separating routing
    /// key.
    #[verifier::rlimit(100)]
    fn borrow_from_left(
        internal: &mut InternalNode<V>,
        idx: usize,
        Ghost(order): Ghost<nat>,
        Ghost(min): Ghost<nat>,
        Ghost(h): Ghost<nat>,
        Ghost(lo): Ghost<Option<KeySize>>,
        Ghost(hi): Ghost<Option<KeySize>>,
        Ghost(low): Ghost<nat>,
    )
        requires
            internal_ok_except(*old(internal), idx as int, order, min, h, lo, hi, low),
            1 <= min,
            1 <= idx < old(internal).children@.len(),
            node_key_count(*old(internal).children@[idx - 1]) > min,
            node_key_count(*old(internal).children@[idx as int]) + 1 >= min,
            node_key_count(*old(internal).children@[idx as int]) < order,
        ensures
            node_ok(Node::Internal(*final(internal)), order, min, h, lo, hi, low),
            children_map(final(internal).children@) == children_map(old(internal).children@),
            final(internal).keys@.len() == old(internal).keys@.len(),
            borrow_left_shape(
                old(internal).keys@,
                old(internal).children@,
                Node::Internal(*final(internal)),
                idx as int,
            ),
    {
        let ghost ond = *internal;
        let ghost okeys = internal.keys@;
        let ghost ocs = internal.children@;
        let right_box = internal.children.remove(idx);
        let left_box = internal.children.remove(idx - 1);
        proof {
            assert(right_box == ocs[idx as int]);
            assert(left_box == ocs[idx - 1]);
        }
        match (*left_box, *right_box) {
            (Node::Leaf(mut lleaf), Node::Leaf(mut rleaf)) => {
                let ghost lk = lleaf.keys@;
                let ghost lv = lleaf.values@;
                let ghost rk = rleaf.keys@;
                let ghost rv = rleaf.values@;
                let moved_key = lleaf.keys.pop().unwrap();
                let moved_val = lleaf.values.pop().unwrap();
                rleaf.keys.insert(0, moved_key);
                rleaf.values.insert(0, moved_val);
                internal.keys[idx - 1] = moved_key;
                let lb2 = Box::new(Node::Leaf(lleaf));
                let rb2 = Box::new(Node::Leaf(rleaf));
                internal.children.insert(idx - 1, lb2);
                internal.children.insert(idx, rb2);
                proof {
                    let keys2 = internal.keys@;
                    let cs2 = internal.children@;
                    let km = lk.last();
                    let vm = lv.last();
                    assert(cs2 =~= ocs.update(idx - 1, cs2[idx - 1]).update(idx as int, cs2[idx as int]));
                    assert(keys2 == okeys.update(idx - 1, km));
                    // window facts about the two old leaves
                    assert(in_bounds(km, child_lo(okeys, idx - 1, lo), Option::Some(okeys[idx - 1])));
                    assert(km < okeys[idx - 1]);
                    assert(lk.len() >= 2);
                    assert(km > lk[0]);
                    // the new separator keeps the routing keys sorted and in-window
                    assert forall|i: int, j: int| 0 <= i < j < keys2.len() implies keys2[i]
                        < keys2[j] by {
                        if j == idx - 1 {
                            assert(keys2[i] == okeys[i]);
                            assert(in_bounds(lk[0], child_lo(okeys, idx - 1, lo), Option::Some(okeys[idx - 1])));
                            if idx >= 2 {
                                assert(okeys[idx - 2] <= lk[0]);
                            }
                        } else if i == idx - 1 {
                            assert(keys2[j] == okeys[j]);
                        }
                    }
                    assert forall|i: int| 0 <= i < keys2.len() implies routing_in_bounds(
                        #[trigger] keys2[i],
                        lo,
                        hi,
                    ) by {
                        if i == idx - 1 {
                            assert(in_bounds(lk[0], child_lo(okeys, idx - 1, lo), Option::Some(okeys[idx - 1])));
                            assert(routing_in_bounds(okeys[idx - 1], lo, hi));
                        }
                    }
                    // each child is well-formed in its new window
                    assert forall|j: int| 0 <= j < cs2.len() implies node_ok(
                        *(#[trigger] cs2[j]),
                        order,
                        min,
                        (h - 1) as nat,
                        child_lo(keys2, j, lo),
                        child_hi(keys2, j, hi),
                        min,
                    ) by {
                        if j < idx - 1 {
                            assert(cs2[j] == ocs[j]);
                            assert(node_ok(*ocs[j], order, min, (h - 1) as nat, child_lo(okeys, j, lo), child_hi(okeys, j, hi), min));
                            assert(child_lo(keys2, j, lo) == child_lo(okeys, j, lo));
                            assert(child_hi(keys2, j, hi) == child_hi(okeys, j, hi));
                        } else if j == idx - 1 {
                            assert(lleaf.keys@ == lk.drop_last());
                            assert(lleaf.values@ == lv.drop_last());
                            assert(child_lo(keys2, j, lo) == child_lo(okeys, j, lo));
                            assert(child_hi(keys2, j, hi) == Option::Some(km));
                            assert forall|i: int| 0 <= i < lleaf.keys@.len() implies in_bounds(
                                #[trigger] lleaf.keys@[i],
                                child_lo(okeys, j, lo),
                                Option::Some(km),
                            ) by {
                                assert(lleaf.keys@[i] == lk[i]);
                                assert(in_bounds(lk[i], child_lo(okeys, j, lo), Option::Some(okeys[idx - 1])));
                                assert(lk[i] < km);
                            }
                        } else if j == idx {
                            assert(rleaf.keys@ == rk.insert(0, km));
                            assert(rleaf.values@ == rv.insert(0, vm));
                            assert(child_lo(keys2, j, lo) == Option::Some(km));
                            assert(child_hi(keys2, j, hi) == child_hi(okeys, j, hi));
                            assert forall|i: int| 0 <= i < rk.len() implies km < #[trigger] rk[i] by {
                                assert(in_bounds(rk[i], Option::Some(okeys[idx - 1]), child_hi(okeys, idx as int, hi)));
                            }
                            assert forall|i: int, i2: int| 0 <= i < i2 < rleaf.keys@.len() implies
                                rleaf.keys@[i] < rleaf.keys@[i2] by {
                                assert(i > 0 ==> rleaf.keys@[i] == rk[i - 1]);
                                assert(rleaf.keys@[i2] == rk[i2 - 1]);
                            }
                            assert forall|i: int| 0 <= i < rleaf.keys@.len() implies in_bounds(
                                #[trigger] rleaf.keys@[i],
                                Option::Some(km),
                                child_hi(okeys, idx as int, hi),
                            ) by {
                                if i > 0 {
                                    assert(rleaf.keys@[i] == rk[i - 1]);
                                    assert(in_bounds(rk[i - 1], Option::Some(okeys[idx - 1]), child_hi(okeys, idx as int, hi)));
                                }
                                if i == 0 {
                                    assert(rleaf.keys@[0] == km);
                                    assert(match child_hi(okeys, idx as int, hi) {
                                        Option::Some(b) => km < b,
                                        Option::None => true,
                                    }) by {
                                        if idx < okeys.len() {
                                            assert(km < okeys[idx - 1]);
                                            assert(okeys[idx - 1] < okeys[idx as int]);
                                        } else {
                                            assert(routing_in_bounds(okeys[idx - 1], lo, hi));
                                        }
                                    }
                                }
                            }
                        } else {
                            assert(cs2[j] == ocs[j]);
                            assert(node_ok(*ocs[j], order, min, (h - 1) as nat, child_lo(okeys, j, lo), child_hi(okeys, j, hi), min));
                            assert(child_lo(keys2, j, lo) == child_lo(okeys, j, lo));
                            assert(child_hi(keys2, j, hi) == child_hi(okeys, j, hi));
                        }
                    }
                    // the two leaves still hold the same joint map
                    assert(kv_map(lk, lv) == kv_map(lk.drop_last(), lv.drop_last()).insert(km, vm));
                    assert(!rk.contains(km)) by {
                        if rk.contains(km) {
                            let i = choose|i: int| 0 <= i < rk.len() && rk[i] == km;
                            assert(in_bounds(rk[i], Option::Some(okeys[idx - 1]), child_hi(okeys, idx as int, hi)));
                        }
                    }
                    lemma_kv_insert_at(rk, rv, 0, km, vm);
                    assert(kv_map(rleaf.keys@, rleaf.values@) == kv_map(rk, rv).insert(km, vm));
                    lemma_kv_contains(rk, rv, km);
                    assert(node_map(*cs2[idx - 1]).union_prefer_right(node_map(*cs2[idx as int]))
                        =~= node_map(*ocs[idx - 1]).union_prefer_right(node_map(*ocs[idx as int])));
                    lemma_children_map_pair_update(ocs, cs2, idx - 1);
                    assert(*ocs[idx - 1] matches Node::Leaf(ls0) && ls0.keys@ == lk && ls0.values@
                        == lv);
                    assert(*ocs[idx as int] matches Node::Leaf(cl0) && cl0.keys@ == rk
                        && cl0.values@ == rv);
                    assert(borrow_left_shape(okeys, ocs, Node::Internal(*internal), idx as int));
                }
            },
            (Node::Internal(mut lnd), Node::Internal(mut rnd)) => {
                let ghost lk = lnd.keys@;
                let ghost lcs = lnd.children@;
                let ghost rk = rnd.keys@;
                let ghost rcs = rnd.children@;
                let sep = internal.keys[idx - 1];
                let moved_child = lnd.children.pop().unwrap();
                let moved_key = lnd.keys.pop().unwrap();
                rnd.children.insert(0, moved_child);
                rnd.keys.insert(0, sep);
                internal.keys[idx - 1] = moved_key;
                let lb2 = Box::new(Node::Internal(lnd));
                let rb2 = Box::new(Node::Internal(rnd));
                internal.children.insert(idx - 1, lb2);
                internal.children.insert(idx, rb2);
                proof {
                    let keys2 = internal.keys@;
                    let cs2 = internal.children@;
                    let mk = lk.last();
                    let mc = lcs.last();
                    let lo_l = child_lo(okeys, idx - 1, lo);
                    let hi_r = child_hi(okeys, idx as int, hi);
                    assert(sep == okeys[idx - 1]);
                    assert(cs2 =~= ocs.update(idx - 1, cs2[idx - 1]).update(idx as int, cs2[idx as int]));
                    assert(keys2 == okeys.update(idx - 1, mk));
                    assert(lk.len() > min >= 1);
                    assert(routing_in_bounds(mk, lo_l, Option::Some(sep)));
                    assert(mk < sep);
                    // the rotated-up key keeps the routing keys sorted
                    assert forall|i: int, j: int| 0 <= i < j < keys2.len() implies keys2[i]
                        < keys2[j] by {
                        if j == idx - 1 {
                            assert(keys2[i] == okeys[i]);
                            if idx >= 2 {
                                assert(routing_in_bounds(mk, Option::Some(okeys[idx - 2]), Option::Some(sep)));
                            }
                        } else if i == idx - 1 {
                            assert(keys2[j] == okeys[j]);
                            assert(okeys[idx - 1] <= okeys[j]);
                        }
                    }
                    assert forall|i: int| 0 <= i < keys2.len() implies routing_in_bounds(
                        #[trigger] keys2[i],
                        lo,
                        hi,
                    ) by {
                        if i == idx - 1 {
                            assert(routing_in_bounds(okeys[idx - 1], lo, hi));
                            assert(match lo_l {
                                Option::Some(l) => l < mk,
                                Option::None => true,
                            });
                            if idx >= 2 {
                                assert(routing_in_bounds(okeys[idx - 2], lo, hi));
                            }
                        }
                    }
                    // the shrunk left sibling is well-formed under its new window
                    assert(lnd.keys@ == lk.drop_last());
                    assert(lnd.children@ == lcs.drop_last());
                    assert(node_ok(Node::Internal(lnd), order, min, (h - 1) as nat, lo_l, Option::Some(mk), min)) by {
                        assert forall|i: int| 0 <= i < lnd.keys@.len() implies routing_in_bounds(
                            #[trigger] lnd.keys@[i],
                            lo_l,
                            Option::Some(mk),
                        ) by {
                            assert(lnd.keys@[i] == lk[i]);
                            assert(routing_in_bounds(lk[i], lo_l, Option::Some(sep)));
                            assert(lk[i] < mk);
                        }
                        assert forall|j: int| 0 <= j < lnd.children@.len() implies node_ok(
                            *(#[trigger] lnd.children@[j]),
                            order,
                            min,
                            (h - 2) as nat,
                            child_lo(lnd.keys@, j, lo_l),
                            child_hi(lnd.keys@, j, Option::Some(mk)),
                            min,
                        ) by {
                            assert(lnd.children@[j] == lcs[j]);
                            assert(node_ok(*lcs[j], order, min, (h - 2) as nat, child_lo(lk, j, lo_l), child_hi(lk, j, Option::Some(sep)), min));
                            assert(child_lo(lnd.keys@, j, lo_l) == child_lo(lk, j, lo_l));
                            assert(child_hi(lnd.keys@, j, Option::Some(mk)) == child_hi(lk, j, Option::Some(sep)));
                        }
                    }
                    // the grown right sibling is well-formed under its new window
                    assert(rnd.keys@ == rk.insert(0, sep));
                    assert(rnd.children@ == rcs.insert(0, mc));
                    assert(node_ok(Node::Internal(rnd), order, min, (h - 1) as nat, Option::Some(mk), hi_r, min)) by {
                        assert forall|i: int, i2: int| 0 <= i < i2 < rnd.keys@.len() implies
                            rnd.keys@[i] < rnd.keys@[i2] by {
                            assert(i > 0 ==> rnd.keys@[i] == rk[i - 1]);
                            assert(rnd.keys@[i2] == rk[i2 - 1]);
                            assert(routing_in_bounds(rk[i2 - 1], Option::Some(sep), hi_r));
                        }
                        assert forall|i: int| 0 <= i < rnd.keys@.len() implies routing_in_bounds(
                            #[trigger] rnd.keys@[i],
                            Option::Some(mk),
                            hi_r,
                        ) by {
                            if i > 0 {
                                assert(rnd.keys@[i] == rk[i - 1]);
                                assert(routing_in_bounds(rk[i - 1], Option::Some(sep), hi_r));
                            } else {
                                assert(rnd.keys@[0] == sep);
                                assert(match hi_r {
                                    Option::Some(b) => sep < b,
                                    Option::None => true,
                                }) by {
                                    if idx < okeys.len() {
                                        assert(okeys[idx - 1] < okeys[idx as int]);
                                    } else {
                                        assert(routing_in_bounds(okeys[idx - 1], lo, hi));
                                    }
                                }
                            }
                        }
                        assert forall|j: int| 0 <= j < rnd.children@.len() implies node_ok(
                            *(#[trigger] rnd.children@[j]),
                            order,
                            min,
                            (h - 2) as nat,
                            child_lo(rnd.keys@, j, Option::Some(mk)),
                            child_hi(rnd.keys@, j, hi_r),
                            min,
                        ) by {
                            if j == 0 {
                                assert(rnd.children@[0] == mc);
                                assert(node_ok(*lcs[lk.len() as int], order, min, (h - 2) as nat, child_lo(lk, lk.len() as int, lo_l), child_hi(lk, lk.len() as int, Option::Some(sep)), min));
                                assert(child_lo(lk, lk.len() as int, lo_l) == Option::Some(mk));
                                assert(child_hi(lk, lk.len() as int, Option::Some(sep)) == Option::Some(sep));
                                assert(child_lo(rnd.keys@, 0, Option::Some(mk)) == Option::Some(mk));
                                assert(child_hi(rnd.keys@, 0, hi_r) == Option::Some(sep));
                            } else {
                                assert(rnd.children@[j] == rcs[j - 1]);
                                assert(node_ok(*rcs[j - 1], order, min, (h - 2) as nat, child_lo(rk, j - 1, Option::Some(sep)), child_hi(rk, j - 1, hi_r), min));
                                assert(child_lo(rnd.keys@, j, Option::Some(mk)) == child_lo(rk, j - 1, Option::Some(sep)));
                                assert(child_hi(rnd.keys@, j, hi_r) == child_hi(rk, j - 1, hi_r));
                            }
                        }
                    }
                    // each child of the parent is well-formed in its new window
                    assert forall|j: int| 0 <= j < cs2.len() implies node_ok(
                        *(#[trigger] cs2[j]),
                        order,
                        min,
                        (h - 1) as nat,
                        child_lo(keys2, j, lo),
                        child_hi(keys2, j, hi),
                        min,
                    ) by {
                        if j < idx - 1 || j > idx {
                            assert(cs2[j] == ocs[j]);
                            assert(node_ok(*ocs[j], order, min, (h - 1) as nat, child_lo(okeys, j, lo), child_hi(okeys, j, hi), min));
                            assert(child_lo(keys2, j, lo) == child_lo(okeys, j, lo));
                            assert(child_hi(keys2, j, hi) == child_hi(okeys, j, hi));
                        } else if j == idx - 1 {
                            assert(child_lo(keys2, j, lo) == lo_l);
                            assert(child_hi(keys2, j, hi) == Option::Some(mk));
                        } else {
                            assert(child_lo(keys2, j, lo) == Option::Some(mk));
                            assert(child_hi(keys2, j, hi) == hi_r);
                        }
                    }
                    // the two siblings still hold the same joint map
                    assert(children_map(lcs) == children_map(lcs.drop_last()).union_prefer_right(node_map(*mc)));
                    assert(rnd.children@.drop_last() =~= if rcs.len() == 0 { seq![mc] } else { rcs.insert(0, mc).drop_last() });
                    assert(rcs.insert(0, mc) =~= seq![mc] + rcs);
                    crate::interp::lemma_children_map_concat(seq![mc], rcs);
                    lemma_children_map_singleton(mc);
                    assert(children_map(rnd.children@) == node_map(*mc).union_prefer_right(children_map(rcs)));
                    assert(node_map(*cs2[idx - 1]).union_prefer_right(node_map(*cs2[idx as int]))
                        =~= node_map(*ocs[idx - 1]).union_prefer_right(node_map(*ocs[idx as int])));
                    lemma_children_map_pair_update(ocs, cs2, idx - 1);
                    assert(*ocs[idx - 1] matches Node::Internal(ls0) && ls0.keys@ == lk
                        && ls0.children@ == lcs);
                    assert(*ocs[idx as int] matches Node::Internal(cl0) && cl0.keys@ == rk
                        && cl0.children@ == rcs);
                    assert(borrow_left_shape(okeys, ocs, Node::Internal(*internal), idx as int));
                }
            },
            (Node::Leaf(_), Node::Internal(_)) => {
                proof {
                    assert(false);
                }
            },
            (Node::Internal(_), Node::Leaf(_)) => {
                proof {
                    assert(false);
                }
            },
        }
    }

    /// Resolves an underflow at child `idx` by moving the leftmost entry of
    /// its right sibling over, rotating it through the separating routing
    /// key.
    #[verifier::rlimit(100)]
    fn borrow_from_right(
        internal: &mut InternalNode<V>,
        idx: usize,
        Ghost(order): Ghost<nat>,
        Ghost(min): Ghost<nat>,
        Ghost(h): Ghost<nat>,
        Ghost(lo): Ghost<Option<KeySize>>,
        Ghost(hi): Ghost<Option<KeySize>>,
        Ghost(low): Ghost<nat>,
    )
        requires
            internal_ok_except(*old(internal), idx as int, order, min, h, lo, hi, low),
            1 <= min,
            idx + 1 < old(internal).children@.len(),
            node_key_count(*old(internal).children@[idx + 1]) > min,
            node_key_count(*old(internal).children@[idx as int]) + 1 >= min,
            node_key_count(*old(internal).children@[idx as int]) < order,
        ensures
            node_ok(Node::Internal(*final(internal)), order, min, h, lo, hi, low),
            children_map(final(internal).children@) == children_map(old(internal).children@),
            final(internal).keys@.len() == old(internal).keys@.len(),
            borrow_right_shape(
                old(internal).keys@,
                old(internal).children@,
                Node::Internal(*final(internal)),
                idx as int,
            ),
    {
        let ghost ond = *internal;
        let ghost okeys = internal.keys@;
        let ghost ocs = internal.children@;
        proof {
            assert(ocs.len() == internal.children.len());
            assert(idx + 1 < ocs.len() <= usize::MAX);
        }
        let left_box = internal.children.remove(idx);
        let right_box = internal.children.remove(idx);
        proof {
            assert(left_box == ocs[idx as int]);
            assert(right_box == ocs[idx + 1]);
        }
        match (*left_box, *right_box) {
            (Node::Leaf(mut lleaf), Node::Leaf(mut rleaf)) => {
                let ghost lk = lleaf.keys@;
                let ghost lv = lleaf.values@;
                let ghost rk = rleaf.keys@;
                let ghost rv = rleaf.values@;
                let moved_key = rleaf.keys.remove(0);
                let moved_val = rleaf.values.remove(0);
                lleaf.keys.push(moved_key);
                lleaf.values.push(moved_val);
                let new_sep = rleaf.keys[0];
                internal.keys[idx] = new_sep;
                let lb2 = Box::new(Node::Leaf(lleaf));
                let rb2 = Box::new(Node::Leaf(rleaf));
                internal.children.insert(idx, lb2);
                internal.children.insert(idx + 1, rb2);
                proof {
                    let keys2 = internal.keys@;
                    let cs2 = internal.children@;
                    let sep = okeys[idx as int];
                    let clo = child_lo(okeys, idx as int, lo);
                    let hi_r = child_hi(okeys, idx + 1, hi);
                    assert(cs2 =~= ocs.update(idx as int, cs2[idx as int]).update(idx + 1, cs2[idx + 1]));
                    assert(keys2 == okeys.update(idx as int, rk[1]));
                    assert(new_sep == rk[1]);
                    assert(rk.len() >= 2);
                    assert(in_bounds(rk[0], Option::Some(sep), hi_r));
                    assert(in_bounds(rk[1], Option::Some(sep), hi_r));
                    assert(routing_in_bounds(sep, lo, hi));
                    // the new separator keeps the routing keys sorted and in-window
                    assert forall|i: int, j: int| 0 <= i < j < keys2.len() implies keys2[i]
                        < keys2[j] by {
                        if j == idx {
                            assert(keys2[i] == okeys[i]);
                            assert(okeys[i] <= okeys[idx as int]);
                        } else if i == idx {
                            assert(keys2[j] == okeys[j]);
                            assert(in_bounds(rk[1], Option::Some(sep), hi_r));
                            if j == idx + 1 {
                            } else {
                                assert(okeys[idx + 1] <= okeys[j]);
                            }
                        }
                    }
                    assert forall|i: int| 0 <= i < keys2.len() implies routing_in_bounds(
                        #[trigger] keys2[i],
                        lo,
                        hi,
                    ) by {
                        if i == idx {
                            if idx + 1 < okeys.len() {
                                assert(routing_in_bounds(okeys[idx + 1], lo, hi));
                            }
                        }
                    }
                    // each child is well-formed in its new window
                    assert forall|j: int| 0 <= j < cs2.len() implies node_ok(
                        *(#[trigger] cs2[j]),
                        order,
                        min,
                        (h - 1) as nat,
                        child_lo(keys2, j, lo),
                        child_hi(keys2, j, hi),
                        min,
                    ) by {
                        if j < idx || j > idx + 1 {
                            assert(cs2[j] == ocs[j]);
                            assert(node_ok(*ocs[j], order, min, (h - 1) as nat, child_lo(okeys, j, lo), child_hi(okeys, j, hi), min));
                            assert(child_lo(keys2, j, lo) == child_lo(okeys, j, lo));
                            assert(child_hi(keys2, j, hi) == child_hi(okeys, j, hi));
                        } else if j == idx {
                            assert(lleaf.keys@ == lk.push(rk[0]));
                            assert(lleaf.values@ == lv.push(rv[0]));
                            assert(child_lo(keys2, j, lo) == clo);
                            assert(child_hi(keys2, j, hi) == Option::Some(rk[1]));
                            assert forall|i: int| 0 <= i < lk.len() implies #[trigger] lk[i]
                                < rk[0] by {
                                assert(in_bounds(lk[i], clo, Option::Some(sep)));
                            }
                            assert forall|i: int, i2: int| 0 <= i < i2 < lleaf.keys@.len() implies
                                lleaf.keys@[i] < lleaf.keys@[i2] by {
                                assert(lleaf.keys@[i] == lk[i]);
                                assert(i2 < lk.len() ==> lleaf.keys@[i2] == lk[i2]);
                            }
                            assert forall|i: int| 0 <= i < lleaf.keys@.len() implies in_bounds(
                                #[trigger] lleaf.keys@[i],
                                clo,
                                Option::Some(rk[1]),
                            ) by {
                                if i < lk.len() {
                                    assert(lleaf.keys@[i] == lk[i]);
                                    assert(in_bounds(lk[i], clo, Option::Some(sep)));
                                } else {
                                    assert(lleaf.keys@[i] == rk[0]);
                                    assert(match clo {
                                        Option::Some(l) => l <= rk[0],
                                        Option::None => true,
                                    }) by {
                                        if idx > 0 {
                                            assert(okeys[idx - 1] <= okeys[idx as int]);
                                        }
                                    }
                                }
                            }
                        } else {
                            assert(rleaf.keys@ == rk.drop_first());
                            assert(rleaf.values@ == rv.drop_first());
                            assert(child_lo(keys2, j, lo) == Option::Some(rk[1]));
                            assert(child_hi(keys2, j, hi) == hi_r);
                            assert forall|i: int| 0 <= i < rleaf.keys@.len() implies in_bounds(
                                #[trigger] rleaf.keys@[i],
                                Option::Some(rk[1]),
                                hi_r,
                            ) by {
                                assert(rleaf.keys@[i] == rk[i + 1]);
                                assert(in_bounds(rk[i + 1], Option::Some(sep), hi_r));
                                assert(rk[1] <= rk[i + 1]);
                            }
                        }
                    }
                    // the two leaves still hold the same joint map
                    lemma_sorted_no_duplicates(rk);
                    lemma_kv_remove_at(rk, rv, 0);
                    assert(kv_map(rleaf.keys@, rleaf.values@) == kv_map(rk, rv).remove(rk[0]));
                    assert(kv_map(lleaf.keys@, lleaf.values@) == kv_map(lk, lv).insert(rk[0], rv[0]))
                        by {
                        assert(lleaf.keys@.drop_last() =~= lk);
                        assert(lleaf.values@.drop_last() =~= lv);
                    }
                    crate::kvmap::lemma_kv_lookup(rk, rv, 0);
                    assert(kv_map(rk, rv)[rk[0]] == rv[0]);
                    assert forall|x: KeySize| #[trigger] kv_map(lk, lv).contains_key(x) implies x
                        < sep by {
                        lemma_kv_contains(lk, lv, x);
                        let i = choose|i: int| 0 <= i < lk.len() && lk[i] == x;
                        assert(in_bounds(lk[i], clo, Option::Some(sep)));
                    }
                    assert forall|x: KeySize| #[trigger] kv_map(rk, rv).contains_key(x) implies x
                        >= sep by {
                        lemma_kv_contains(rk, rv, x);
                        let i = choose|i: int| 0 <= i < rk.len() && rk[i] == x;
                        assert(in_bounds(rk[i], Option::Some(sep), hi_r));
                    }
                    assert(node_map(*cs2[idx as int]).union_prefer_right(node_map(*cs2[idx + 1]))
                        =~= node_map(*ocs[idx as int]).union_prefer_right(node_map(*ocs[idx + 1])));
                    lemma_children_map_pair_update(ocs, cs2, idx as int);
                    assert(*ocs[idx as int] matches Node::Leaf(cl0) && cl0.keys@ == lk
                        && cl0.values@ == lv);
                    assert(*ocs[idx + 1] matches Node::Leaf(rs0) && rs0.keys@ == rk && rs0.values@
                        == rv);
                    assert(borrow_right_shape(okeys, ocs, Node::Internal(*internal), idx as int));
                }
            },
            (Node::Internal(mut lnd), Node::Internal(mut rnd)) => {
                let ghost lkk = lnd.keys@;
                let ghost lccs = lnd.children@;
                let ghost rk = rnd.keys@;
                let ghost rcs = rnd.children@;
                let sep = internal.keys[idx];
                let moved_child = rnd.children.remove(0);
                let new_sep = rnd.keys.remove(0);
                lnd.keys.push(sep);
                lnd.children.push(moved_child);
                internal.keys[idx] = new_sep;
                let lb2 = Box::new(Node::Internal(lnd));
                let rb2 = Box::new(Node::Internal(rnd));
                internal.children.insert(idx, lb2);
                internal.children.insert(idx + 1, rb2);
                proof {
                    let keys2 = internal.keys@;
                    let cs2 = internal.children@;
                    let clo = child_lo(okeys, idx as int, lo);
                    let hi_r = child_hi(okeys, idx + 1, hi);
                    assert(sep == okeys[idx as int]);
                    assert(new_sep == rk[0]);
                    assert(cs2 =~= ocs.update(idx as int, cs2[idx as int]).update(idx + 1, cs2[idx + 1]));
                    assert(keys2 == okeys.update(idx as int, rk[0]));
                    assert(rk.len() >= 2);
                    assert(routing_in_bounds(rk[0], Option::Some(sep), hi_r));
                    assert(routing_in_bounds(sep, lo, hi));
                    // the rotated-up key keeps the routing keys sorted
                    assert forall|i: int, j: int| 0 <= i < j < keys2.len() implies keys2[i]
                        < keys2[j] by {
                        if j == idx {
                            assert(keys2[i] == okeys[i]);
                            assert(okeys[i] <= okeys[idx as int]);
                        } else if i == idx {
                            assert(keys2[j] == okeys[j]);
                            if j > idx + 1 {
                                assert(okeys[idx + 1] <= okeys[j]);
                            }
                        }
                    }
                    assert forall|i: int| 0 <= i < keys2.len() implies routing_in_bounds(
                        #[trigger] keys2[i],
                        lo,
                        hi,
                    ) by {
                        if i == idx {
                            if idx + 1 < okeys.len() {
                                assert(routing_in_bounds(okeys[idx + 1], lo, hi));
                            }
                        }
                    }
                    // the grown child is well-formed under its new window
                    assert(lnd.keys@ == lkk.push(sep));
                    assert(lnd.children@ == lccs.push(rcs[0]));
                    assert(node_ok(Node::Internal(lnd), order, min, (h - 1) as nat, clo, Option::Some(rk[0]), min)) by {
                        assert forall|i: int, i2: int| 0 <= i < i2 < lnd.keys@.len() implies
                            lnd.keys@[i] < lnd.keys@[i2] by {
                            assert(lnd.keys@[i] == lkk[i]);
                            assert(routing_in_bounds(lkk[i], clo, Option::Some(sep)));
                            assert(i2 < lkk.len() ==> lnd.keys@[i2] == lkk[i2]);
                        }
                        assert forall|i: int| 0 <= i < lnd.keys@.len() implies routing_in_bounds(
                            #[trigger] lnd.keys@[i],
                            clo,
                            Option::Some(rk[0]),
                        ) by {
                            if i < lkk.len() {
                                assert(lnd.keys@[i] == lkk[i]);
                                assert(routing_in_bounds(lkk[i], clo, Option::Some(sep)));
                            } else {
                                assert(lnd.keys@[i] == sep);
                                assert(match clo {
                                    Option::Some(l) => l < sep,
                                    Option::None => true,
                                }) by {
                                    if idx > 0 {
                                        assert(okeys[idx - 1] < okeys[idx as int]);
                                    }
                                }
                            }
                        }
                        assert forall|j: int| 0 <= j < lnd.children@.len() implies node_ok(
                            *(#[trigger] lnd.children@[j]),
                            order,
                            min,
                            (h - 2) as nat,
                            child_lo(lnd.keys@, j, clo),
                            child_hi(lnd.keys@, j, Option::Some(rk[0])),
                            min,
                        ) by {
                            if j < lccs.len() {
                                assert(lnd.children@[j] == lccs[j]);
                                assert(node_ok(*lccs[j], order, min, (h - 2) as nat, child_lo(lkk, j, clo), child_hi(lkk, j, Option::Some(sep)), min));
                                assert(child_lo(lnd.keys@, j, clo) == child_lo(lkk, j, clo));
                                assert(child_hi(lnd.keys@, j, Option::Some(rk[0])) == child_hi(lkk, j, Option::Some(sep)));
                            } else {
                                assert(lnd.children@[j] == rcs[0]);
                                assert(node_ok(*rcs[0], order, min, (h - 2) as nat, child_lo(rk, 0, Option::Some(sep)), child_hi(rk, 0, hi_r), min));
                                assert(child_lo(rk, 0, Option::Some(sep)) == Option::Some(sep));
                                assert(child_hi(rk, 0, hi_r) == Option::Some(rk[0]));
                                assert(child_lo(lnd.keys@, j, clo) == Option::Some(sep));
                                assert(child_hi(lnd.keys@, j, Option::Some(rk[0])) == Option::Some(rk[0]));
                            }
                        }
                    }
                    // the shrunk right sibling is well-formed under its new window
                    assert(rnd.keys@ == rk.drop_first());
                    assert(rnd.children@ == rcs.drop_first());
                    assert(node_ok(Node::Internal(rnd), order, min, (h - 1) as nat, Option::Some(rk[0]), hi_r, min)) by {
                        assert forall|i: int| 0 <= i < rnd.keys@.len() implies routing_in_bounds(
                            #[trigger] rnd.keys@[i],
                            Option::Some(rk[0]),
                            hi_r,
                        ) by {
                            assert(rnd.keys@[i] == rk[i + 1]);
                            assert(routing_in_bounds(rk[i + 1], Option::Some(sep), hi_r));
                            assert(rk[0] < rk[i + 1]);
                        }
                        assert forall|j: int| 0 <= j < rnd.children@.len() implies node_ok(
                            *(#[trigger] rnd.children@[j]),
                            order,
                            min,
                            (h - 2) as nat,
                            child_lo(rnd.keys@, j, Option::Some(rk[0])),
                            child_hi(rnd.keys@, j, hi_r),
                            min,
                        ) by {
                            assert(rnd.children@[j] == rcs[j + 1]);
                            assert(node_ok(*rcs[j + 1], order, min, (h - 2) as nat, child_lo(rk, j + 1, Option::Some(sep)), child_hi(rk, j + 1, hi_r), min));
                            assert(child_lo(rnd.keys@, j, Option::Some(rk[0])) == child_lo(rk, j + 1, Option::Some(sep)));
                            assert(child_hi(rnd.keys@, j, hi_r) == child_hi(rk, j + 1, hi_r));
                        }
                    }
                    // each child of the parent is well-formed in its new window
                    assert forall|j: int| 0 <= j < cs2.len() implies node_ok(
                        *(#[trigger] cs2[j]),
                        order,
                        min,
                        (h - 1) as nat,
                        child_lo(keys2, j, lo),
                        child_hi(keys2, j, hi),
                        min,
                    ) by {
                        if j < idx || j > idx + 1 {
                            assert(cs2[j] == ocs[j]);
                            assert(node_ok(*ocs[j], order, min, (h - 1) as nat, child_lo(okeys, j, lo), child_hi(okeys, j, hi), min));
                            assert(child_lo(keys2, j, lo) == child_lo(okeys, j, lo));
                            assert(child_hi(keys2, j, hi) == child_hi(okeys, j, hi));
                        } else if j == idx {
                            assert(child_lo(keys2, j, lo) == clo);
                            assert(child_hi(keys2, j, hi) == Option::Some(rk[0]));
                        } else {
                            assert(child_lo(keys2, j, lo) == Option::Some(rk[0]));
                            assert(child_hi(keys2, j, hi) == hi_r);
                        }
                    }
                    // the two siblings still hold the same joint map
                    assert(lnd.children@.drop_last() =~= lccs);
                    assert(children_map(lnd.children@) == children_map(lccs).union_prefer_right(node_map(*rcs[0])));
                    assert(rcs =~= seq![rcs[0]] + rcs.drop_first());
                    crate::interp::lemma_children_map_concat(seq![rcs[0]], rcs.drop_first());
                    lemma_children_map_singleton(rcs[0]);
                    assert(children_map(rcs) == node_map(*rcs[0]).union_prefer_right(children_map(rcs.drop_first())));
                    assert(node_map(*cs2[idx as int]).union_prefer_right(node_map(*cs2[idx + 1]))
                        =~= node_map(*ocs[idx as int]).union_prefer_right(node_map(*ocs[idx + 1])));
                    lemma_children_map_pair_update(ocs, cs2, idx as int);
                    assert(*ocs[idx as int] matches Node::Internal(cl0) && cl0.keys@ == lkk
                        && cl0.children@ == lccs);
                    assert(*ocs[idx + 1] matches Node::Internal(rs0) && rs0.keys@ == rk
                        && rs0.children@ == rcs);
                    assert(borrow_right_shape(okeys, ocs, Node::Internal(*internal), idx as int));
                }
            },
            (Node::Leaf(_), Node::Internal(_)) => {
                proof {
                    assert(false);
                }
            },
            (Node::Internal(_), Node::Leaf(_)) => {
                proof {
                    assert(false);
                }
            },
        }
    }

    /// Resolves an underflow at child `a` or `a + 1` by merging the two
    /// into a single child, absorbing the separating routing key.
    #[verifier::rlimit(100)]
    fn merge_children(
        internal: &mut InternalNode<V>,
        a: usize,
        Ghost(j): Ghost<int>,
        Ghost(order): Ghost<nat>,
        Ghost(min): Ghost<nat>,
        Ghost(h): Ghost<nat>,
        Ghost(lo): Ghost<Option<KeySize>>,
        Ghost(hi): Ghost<Option<KeySize>>,
        Ghost(low): Ghost<nat>,
    )
        requires
            internal_ok_except(*old(internal), j, order, min, h, lo, hi, low),
            j == a || j == a + 1,
            a + 1 < old(internal).children@.len(),
            1 <= min,
            h == 1 ==> node_key_count(*old(internal).children@[a as int]) + node_key_count(
                *old(internal).children@[a + 1],
            ) <= order,
            h >= 2 ==> node_key_count(*old(internal).children@[a as int]) + node_key_count(
                *old(internal).children@[a + 1],
            ) + 1 <= order,
            node_key_count(*old(internal).children@[a as int]) + node_key_count(
                *old(internal).children@[a + 1],
            ) + 1 >= min,
        ensures
            node_ok(Node::Internal(*final(internal)), order, min, h, lo, hi, 0),
            children_map(final(internal).children@) == children_map(old(internal).children@),
            final(internal).keys@ == old(internal).keys@.remove(a as int),
            final(internal).keys@.len() + 1 == old(internal).keys@.len(),
            merge_shape(
                old(internal).keys@,
                old(internal).children@,
                Node::Internal(*final(internal)),
                a as int,
            ),
    {
        let ghost ond = *internal;
        let ghost okeys = internal.keys@;
        let ghost ocs = internal.children@;
        proof {
            assert(ocs.len() == internal.children.len());
            assert(a + 1 < ocs.len() <= usize::MAX);
        }
        let sep = internal.keys.remove(a);
        let right_box = internal.children.remove(a + 1);
        let left_box = internal.children.remove(a);
        proof {
            assert(sep == okeys[a as int]);
            assert(left_box == ocs[a as int]);
            assert(right_box == ocs[a + 1]);
            assert(internal.keys@ == okeys.remove(a as int));
        }
        match (*left_box, *right_box) {
            (Node::Leaf(mut lleaf), Node::Leaf(mut rleaf)) => {
                let ghost lk = lleaf.keys@;
                let ghost lv = lleaf.values@;
                let ghost rk = rleaf.keys@;
                let ghost rv = rleaf.values@;
                lleaf.keys.append(&mut rleaf.keys);
                lleaf.values.append(&mut rleaf.values);
                let mb = Box::new(Node::Leaf(lleaf));
                internal.children.insert(a, mb);
                proof {
                    let keys2 = internal.keys@;
                    let cs2 = internal.children@;
                    let clo = child_lo(okeys, a as int, lo);
                    let hi_r = child_hi(okeys, a + 1, hi);
                    assert(cs2.len() == ocs.len() - 1);
                    assert(forall|i: int| 0 <= i < a ==> cs2[i] == ocs[i]);
                    assert(forall|i: int| a + 1 <= i < cs2.len() ==> cs2[i] == ocs[i + 1]);
                    assert(lleaf.keys@ == lk + rk);
                    assert(lleaf.values@ == lv + rv);
                    // the merged leaf is sorted and fills the joint window
                    assert(node_ok(Node::Leaf(lleaf), order, min, 0, clo, hi_r, min)) by {
                        assert forall|i: int, i2: int| 0 <= i < i2 < lleaf.keys@.len() implies
                            lleaf.keys@[i] < lleaf.keys@[i2] by {
                            if i < lk.len() && i2 >= lk.len() {
                                assert(lleaf.keys@[i] == lk[i]);
                                assert(lleaf.keys@[i2] == rk[i2 - lk.len()]);
                                assert(in_bounds(lk[i], clo, Option::Some(sep)));
                                assert(in_bounds(rk[i2 - lk.len()], Option::Some(sep), hi_r));
                            }
                        }
                        assert forall|i: int| 0 <= i < lleaf.keys@.len() implies in_bounds(
                            #[trigger] lleaf.keys@[i],
                            clo,
                            hi_r,
                        ) by {
                            assert(routing_in_bounds(sep, lo, hi));
                            if a + 1 < okeys.len() {
                                assert(routing_in_bounds(okeys[a + 1], lo, hi));
                                assert(sep < okeys[a + 1]);
                            }
                            if a > 0 {
                                assert(okeys[a - 1] < sep);
                            }
                            if i < lk.len() {
                                assert(lleaf.keys@[i] == lk[i]);
                                assert(in_bounds(lk[i], clo, Option::Some(sep)));
                            } else {
                                assert(lleaf.keys@[i] == rk[i - lk.len()]);
                                assert(in_bounds(rk[i - lk.len()], Option::Some(sep), hi_r));
                            }
                        }
                    }
                    lemma_kv_concat(lk, lv, rk, rv);
                    assert(node_map(*cs2[a as int]) == node_map(*ocs[a as int]).union_prefer_right(
                        node_map(*ocs[a + 1]),
                    ));
                    lemma_children_map_merge_at(ocs, cs2, a as int);
                    assert(merge_shape(okeys, ocs, Node::Internal(*internal), a as int));
                    // the parent's remaining keys still frame every child
                    assert forall|i: int, i2: int| 0 <= i < i2 < keys2.len() implies keys2[i]
                        < keys2[i2] by {
                        assert(i < a ==> keys2[i] == okeys[i]);
                        assert(i >= a ==> keys2[i] == okeys[i + 1]);
                        assert(i2 < a ==> keys2[i2] == okeys[i2]);
                        assert(i2 >= a ==> keys2[i2] == okeys[i2 + 1]);
                    }
                    assert forall|i: int| 0 <= i < keys2.len() implies routing_in_bounds(
                        #[trigger] keys2[i],
                        lo,
                        hi,
                    ) by {
                        if i < a {
                            assert(keys2[i] == okeys[i]);
                        } else {
                            assert(keys2[i] == okeys[i + 1]);
                        }
                    }
                    assert forall|j2: int| 0 <= j2 < cs2.len() implies node_ok(
                        *(#[trigger] cs2[j2]),
                        order,
                        min,
                        (h - 1) as nat,
                        child_lo(keys2, j2, lo),
                        child_hi(keys2, j2, hi),
                        min,
                    ) by {
                        if j2 < a {
                            assert(cs2[j2] == ocs[j2]);
                            assert(node_ok(*ocs[j2], order, min, (h - 1) as nat, child_lo(okeys, j2, lo), child_hi(okeys, j2, hi), min));
                            assert(child_lo(keys2, j2, lo) == child_lo(okeys, j2, lo));
                            assert(child_hi(keys2, j2, hi) == child_hi(okeys, j2, hi));
                        } else if j2 == a {
                            assert(child_lo(keys2, j2, lo) == clo);
                            assert(child_hi(keys2, j2, hi) == hi_r);
                        } else {
                            assert(cs2[j2] == ocs[j2 + 1]);
                            assert(node_ok(*ocs[j2 + 1], order, min, (h - 1) as nat, child_lo(okeys, j2 + 1, lo), child_hi(okeys, j2 + 1, hi), min));
                            assert(child_lo(keys2, j2, lo) == child_lo(okeys, j2 + 1, lo));
                            assert(child_hi(keys2, j2, hi) == child_hi(okeys, j2 + 1, hi));
                        }
                    }
                }
            },
            (Node::Internal(mut lnd), Node::Internal(mut rnd)) => {
                let ghost lkk = lnd.keys@;
                let ghost lccs = lnd.children@;
                let ghost rk = rnd.keys@;
                let ghost rcs = rnd.children@;
                lnd.keys.push(sep);
                lnd.keys.append(&mut rnd.keys);
                lnd.children.append(&mut rnd.children);
                let mb = Box::new(Node::Internal(lnd));
                internal.children.insert(a, mb);
                proof {
                    let keys2 = internal.keys@;
                    let cs2 = internal.children@;
                    let clo = child_lo(okeys, a as int, lo);
                    let hi_r = child_hi(okeys, a + 1, hi);
                    let mkeys = lnd.keys@;
                    let mcs = lnd.children@;
                    assert(cs2.len() == ocs.len() - 1);
                    assert(forall|i: int| 0 <= i < a ==> cs2[i] == ocs[i]);
                    assert(forall|i: int| a + 1 <= i < cs2.len() ==> cs2[i] == ocs[i + 1]);
                    assert(mkeys == lkk.push(sep) + rk);
                    assert(mcs == lccs + rcs);
                    assert(routing_in_bounds(sep, lo, hi));
                    if a + 1 < okeys.len() {
                        assert(routing_in_bounds(okeys[a + 1], lo, hi));
                        assert(sep < okeys[a + 1]);
                    }
                    if a > 0 {
                        assert(okeys[a - 1] < sep);
                    }
                    // the merged node is well-formed in the joint window
                    assert(node_ok(Node::Internal(lnd), order, min, (h - 1) as nat, clo, hi_r, min)) by {
                        assert(mkeys.len() == lkk.len() + 1 + rk.len());
                        assert(mcs.len() == lccs.len() + rcs.len());
                        assert forall|i: int, i2: int| 0 <= i < i2 < mkeys.len() implies mkeys[i]
                            < mkeys[i2] by {
                            if i < lkk.len() {
                                assert(mkeys[i] == lkk[i]);
                                assert(routing_in_bounds(lkk[i], clo, Option::Some(sep)));
                            } else if i == lkk.len() {
                                assert(mkeys[i] == sep);
                            } else {
                                assert(mkeys[i] == rk[i - lkk.len() - 1]);
                                assert(routing_in_bounds(rk[i - lkk.len() - 1], Option::Some(sep), hi_r));
                            }
                            if i2 < lkk.len() {
                                assert(mkeys[i2] == lkk[i2]);
                                assert(routing_in_bounds(lkk[i2], clo, Option::Some(sep)));
                            } else if i2 == lkk.len() {
                                assert(mkeys[i2] == sep);
                            } else {
                                assert(mkeys[i2] == rk[i2 - lkk.len() - 1]);
                                assert(routing_in_bounds(rk[i2 - lkk.len() - 1], Option::Some(sep), hi_r));
                            }
                        }
                        assert forall|i: int| 0 <= i < mkeys.len() implies routing_in_bounds(
                            #[trigger] mkeys[i],
                            clo,
                            hi_r,
                        ) by {
                            if i < lkk.len() {
                                assert(mkeys[i] == lkk[i]);
                                assert(routing_in_bounds(lkk[i], clo, Option::Some(sep)));
                            } else if i == lkk.len() {
                                assert(mkeys[i] == sep);
                            } else {
                                assert(mkeys[i] == rk[i - lkk.len() - 1]);
                                assert(routing_in_bounds(rk[i - lkk.len() - 1], Option::Some(sep), hi_r));
                            }
                        }
                        assert forall|j2: int| 0 <= j2 < mcs.len() implies node_ok(
                            *(#[trigger] mcs[j2]),
                            order,
                            min,
                            (h - 2) as nat,
                            child_lo(mkeys, j2, clo),
                            child_hi(mkeys, j2, hi_r),
                            min,
                        ) by {
                            if j2 < lccs.len() {
                                assert(mcs[j2] == lccs[j2]);
                                assert(node_ok(*lccs[j2], order, min, (h - 2) as nat, child_lo(lkk, j2, clo), child_hi(lkk, j2, Option::Some(sep)), min));
                                assert(child_lo(mkeys, j2, clo) == child_lo(lkk, j2, clo));
                                assert(child_hi(mkeys, j2, hi_r) == child_hi(lkk, j2, Option::Some(sep)));
                            } else {
                                let t = j2 - lccs.len();
                                assert(mcs[j2] == rcs[t]);
                                assert(node_ok(*rcs[t], order, min, (h - 2) as nat, child_lo(rk, t, Option::Some(sep)), child_hi(rk, t, hi_r), min));
                                assert(child_lo(mkeys, j2, clo) == child_lo(rk, t, Option::Some(sep)));
                                assert(child_hi(mkeys, j2, hi_r) == child_hi(rk, t, hi_r));
                            }
                        }
                    }
                    // the merged node holds the two siblings' joint map
                    crate::interp::lemma_children_map_concat(lccs, rcs);
                    assert(node_map(*cs2[a as int]) == node_map(*ocs[a as int]).union_prefer_right(
                        node_map(*ocs[a + 1]),
                    ));
                    lemma_children_map_merge_at(ocs, cs2, a as int);
                    assert(lnd.keys@ =~= lkk + seq![sep] + rk);
                    assert(*ocs[a as int] matches Node::Internal(ll0) && ll0.keys@ == lkk
                        && ll0.children@ == lccs);
                    assert(*ocs[a + 1] matches Node::Internal(rl0) && rl0.keys@ == rk
                        && rl0.children@ == rcs);
                    assert(merge_shape(okeys, ocs, Node::Internal(*internal), a as int));
                    // the parent's remaining keys still frame every child
                    assert forall|i: int, i2: int| 0 <= i < i2 < keys2.len() implies keys2[i]
                        < keys2[i2] by {
                        assert(i < a ==> keys2[i] == okeys[i]);
                        assert(i >= a ==> keys2[i] == okeys[i + 1]);
                        assert(i2 < a ==> keys2[i2] == okeys[i2]);
                        assert(i2 >= a ==> keys2[i2] == okeys[i2 + 1]);
                    }
                    assert forall|i: int| 0 <= i < keys2.len() implies routing_in_bounds(
                        #[trigger] keys2[i],
                        lo,
                        hi,
                    ) by {
                        if i < a {
                            assert(keys2[i] == okeys[i]);
                        } else {
                            assert(keys2[i] == okeys[i + 1]);
                        }
                    }
                    assert forall|j2: int| 0 <= j2 < cs2.len() implies node_ok(
                        *(#[trigger] cs2[j2]),
                        order,
                        min,
                        (h - 1) as nat,
                        child_lo(keys2, j2, lo),
                        child_hi(keys2, j2, hi),
                        min,
                    ) by {
                        if j2 < a {
                            assert(cs2[j2] == ocs[j2]);
                            assert(node_ok(*ocs[j2], order, min, (h - 1) as nat, child_lo(okeys, j2, lo), child_hi(okeys, j2, hi), min));
                            assert(child_lo(keys2, j2, lo) == child_lo(okeys, j2, lo));
                            assert(child_hi(keys2, j2, hi) == child_hi(okeys, j2, hi));
                        } else if j2 == a {
                            assert(child_lo(keys2, j2, lo) == clo);
                            assert(child_hi(keys2, j2, hi) == hi_r);
                        } else {
                            assert(cs2[j2] == ocs[j2 + 1]);
                            assert(node_ok(*ocs[j2 + 1], order, min, (h - 1) as nat, child_lo(okeys, j2 + 1, lo), child_hi(okeys, j2 + 1, hi), min));
                            assert(child_lo(keys2, j2, lo) == child_lo(okeys, j2 + 1, lo));
                            assert(child_hi(keys2, j2, hi) == child_hi(okeys, j2 + 1, hi));
                        }
                    }
                }
            },
            (Node::Leaf(_), Node::Internal(_)) => {
                proof {
                    assert(false);
                }
            },
            (Node::Internal(_), Node::Leaf(_)) => {
                proof {
                    assert(false);
                }
            },
        }
    }

    /// Resolves an underflow at child `idx`: borrow from the left sibling,
    /// else from the right sibling, else merge with the left sibling, else
    /// with the right one, in that priority order.  `child_min_opt` carries
    /// the subtree's new smallest key when it changed; an emptied leaf
    /// (`is_empty`) can only be resolved by merging.
    #[verifier::rlimit(100)]
    fn resolve_underflow(
        internal: &mut InternalNode<V>,
        idx: usize,
        order: usize,
        min: usize,
        child_min_opt: Option<KeySize>,
        is_empty: bool,
        Ghost(h): Ghost<nat>,
        Ghost(lo): Ghost<Option<KeySize>>,
        Ghost(hi): Ghost<Option<KeySize>>,
        Ghost(low): Ghost<nat>,
    ) -> (r: DeleteResult<KeySize>)
        requires
            internal_ok_except(*old(internal), idx as int, order as nat, min as nat, h, lo, hi, low),
            1 <= min,
            2 * min <= order,
            order < usize::MAX,
            1 <= low <= min,
            idx < old(internal).children@.len(),
            node_key_count(*old(internal).children@[idx as int]) + 1 == min,
            is_empty ==> node_key_count(*old(internal).children@[idx as int]) == 0
                && (*old(internal).children@[idx as int] matches Node::Leaf(_)),
            (child_min_opt matches Option::Some(m) ==> is_min_of(
                children_map(old(internal).children@),
                m,
            )),
        ensures
            children_map(final(internal).children@) == children_map(old(internal).children@),
            resolved_shape(
                old(internal).keys@,
                old(internal).children@,
                Node::Internal(*final(internal)),
                r,
                idx as int,
                is_empty,
                child_min_opt,
                min as nat,
            ),
            match r {
                DeleteResult::Done => {
                    node_ok(Node::Internal(*final(internal)), order as nat, min as nat, h, lo, hi, low)
                },
                DeleteResult::MinChanged { new_min } => {
                    &&& node_ok(Node::Internal(*final(internal)), order as nat, min as nat, h, lo, hi, low)
                    &&& is_min_of(children_map(final(internal).children@), new_min)
                },
                DeleteResult::Underflow { new_min_opt } => {
                    &&& node_ok(Node::Internal(*final(internal)), order as nat, min as nat, h, lo, hi, 0)
                    &&& final(internal).keys@.len() + 1 == old(internal).keys@.len()
                    &&& final(internal).keys@.len() < min
                    &&& (new_min_opt matches Option::Some(m) ==> is_min_of(
                        children_map(final(internal).children@),
                        m,
                    ))
                },
                DeleteResult::NotFound => false,
                DeleteResult::Empty => false,
            },
    {
        let ghost ond = *internal;
        let ghost okeys = internal.keys@;
        let ghost ocs = internal.children@;
        let clen = internal.children.len();
        let borrow_left = !is_empty && idx > 0 && Self::node_keys_len(&*internal.children[idx - 1])
            > min;
        let borrow_right = !borrow_left && !is_empty && idx + 1 < clen && Self::node_keys_len(
            &*internal.children[idx + 1],
        ) > min;
        if borrow_left {
            Self::borrow_from_left(
                internal,
                idx,
                Ghost(order as nat),
                Ghost(min as nat),
                Ghost(h),
                Ghost(lo),
                Ghost(hi),
                Ghost(low),
            );
            match child_min_opt {
                Option::Some(m) => DeleteResult::MinChanged { new_min: m },
                Option::None => DeleteResult::Done,
            }
        } else if borrow_right {
            Self::borrow_from_right(
                internal,
                idx,
                Ghost(order as nat),
                Ghost(min as nat),
                Ghost(h),
                Ghost(lo),
                Ghost(hi),
                Ghost(low),
            );
            match child_min_opt {
                Option::Some(m) => DeleteResult::MinChanged { new_min: m },
                Option::None => DeleteResult::Done,
            }
        } else {
            let a = if idx > 0 {
                idx - 1
            } else {
                0
            };
            proof {
                // both siblings that exist hold exactly `min` keys unless the
                // child is an emptied leaf, whose sibling may hold anything
                if !is_empty {
                    if idx > 0 {
                        assert(node_key_count(*ocs[idx - 1]) >= min);
                        assert(node_key_count(*ocs[idx - 1]) == min);
                    } else {
                        assert(idx + 1 < ocs.len());
                        assert(node_key_count(*ocs[idx + 1]) == min);
                    }
                } else {
                    assert(min == 1);
                    assert(h == 1) by {
                        assert(node_ok(
                            *ocs[idx as int],
                            order as nat,
                            min as nat,
                            (h - 1) as nat,
                            child_lo(okeys, idx as int, lo),
                            child_hi(okeys, idx as int, hi),
                            0,
                        ));
                    }
                    if a + 1 < ocs.len() {
                        assert(node_key_count(*ocs[a as int]) + node_key_count(*ocs[a + 1])
                            <= order) by {
                            if a == idx {
                                assert(node_ok(
                                    *ocs[a + 1],
                                    order as nat,
                                    min as nat,
                                    (h - 1) as nat,
                                    child_lo(okeys, a + 1, lo),
                                    child_hi(okeys, a + 1, hi),
                                    min as nat,
                                ));
                            } else {
                                assert(node_ok(
                                    *ocs[a as int],
                                    order as nat,
                                    min as nat,
                                    (h - 1) as nat,
                                    child_lo(okeys, a as int, lo),
                                    child_hi(okeys, a as int, hi),
                                    min as nat,
                                ));
                            }
                        }
                    }
                }
            }
            Self::merge_children(
                internal,
                a,
                Ghost(idx as int),
                Ghost(order as nat),
                Ghost(min as nat),
                Ghost(h),
                Ghost(lo),
                Ghost(hi),
                Ghost(low),
            );
            if internal.keys.len() >= min {
                proof {
                    lemma_node_ok_relow(
                        Node::Internal(*internal),
                        order as nat,
                        min as nat,
                        h,
                        lo,
                        hi,
                        0,
                        low,
                    );
                }
                match child_min_opt {
                    Option::Some(m) => DeleteResult::MinChanged { new_min: m },
                    Option::None => DeleteResult::Done,
                }
            } else {
                DeleteResult::Underflow { new_min_opt: child_min_opt }
            }
        }
    }

    /// Removes `key` from a leaf, reporting the outcome the parent must
    /// react to.
    #[verifier::rlimit(50)]
    fn delete_from_leaf(
        leaf: &mut LeafNode<V>,
        key: KeySize,
        min: usize,
        Ghost(order): Ghost<nat>,
        Ghost(lo): Ghost<Option<KeySize>>,
        Ghost(hi): Ghost<Option<KeySize>>,
        Ghost(low): Ghost<nat>,
    ) -> (r: DeleteResult<KeySize>)
        requires
            node_ok(Node::Leaf(*old(leaf)), order, min as nat, 0, lo, hi, low),
            1 <= min,
        ensures
            node_map(Node::Leaf(*final(leaf))) == node_map(Node::Leaf(*old(leaf))).remove(key),
            r == delete_outcome(Node::Leaf(*old(leaf)), key, min as nat),
            deleted_shape(Node::Leaf(*old(leaf)), Node::Leaf(*final(leaf)), r, key, min as nat),
            match r {
                DeleteResult::NotFound => {
                    &&& !node_map(Node::Leaf(*old(leaf))).contains_key(key)
                    &&& node_ok(Node::Leaf(*final(leaf)), order, min as nat, 0, lo, hi, low)
                    &&& final(leaf).keys@ == old(leaf).keys@
                },
                DeleteResult::Done => {
                    &&& node_map(Node::Leaf(*old(leaf))).contains_key(key)
                    &&& node_ok(Node::Leaf(*final(leaf)), order, min as nat, 0, lo, hi, min as nat)
                },
                DeleteResult::MinChanged { new_min } => {
                    &&& node_map(Node::Leaf(*old(leaf))).contains_key(key)
                    &&& node_ok(Node::Leaf(*final(leaf)), order, min as nat, 0, lo, hi, min as nat)
                    &&& is_min_of(node_map(Node::Leaf(*final(leaf))), new_min)
                },
                DeleteResult::Underflow { new_min_opt } => {
                    &&& node_map(Node::Leaf(*old(leaf))).contains_key(key)
                    &&& node_ok(Node::Leaf(*final(leaf)), order, min as nat, 0, lo, hi, 0)
                    &&& final(leaf).keys@.len() + 1 == old(leaf).keys@.len()
                    &&& final(leaf).keys@.len() < min
                    &&& final(leaf).keys@.len() >= 1
                    &&& (new_min_opt matches Option::Some(m) ==> is_min_of(
                        node_map(Node::Leaf(*final(leaf))),
                        m,
                    ))
                },
                DeleteResult::Empty => {
                    &&& node_map(Node::Leaf(*old(leaf))).contains_key(key)
                    &&& node_ok(Node::Leaf(*final(leaf)), order, min as nat, 0, lo, hi, 0)
                    &&& final(leaf).keys@.len() == 0
                    &&& final(leaf).keys@.len() + 1 == old(leaf).keys@.len()
                    &&& node_map(Node::Leaf(*final(leaf))) == Map::<KeySize, V>::empty()
                },
            },
    {
        let ghost okeys = leaf.keys@;
        let ghost ovals = leaf.values@;
        let idx = route_index(&leaf.keys, key);
        proof {
            lemma_route_properties(okeys, key);
            lemma_sorted_no_duplicates(okeys);
            lemma_kv_contains(okeys, ovals, key);
        }
        if !(idx > 0 && leaf.keys[idx - 1] == key) {
            proof {
                assert(!okeys.contains(key)) by {
                    if okeys.contains(key) {
                        let t = choose|t: int| 0 <= t < okeys.len() && okeys[t] == key;
                        if t < idx {
                            assert(t < idx - 1 ==> okeys[t] < okeys[idx - 1]);
                        } else {
                            assert(key < okeys[idx as int]);
                            assert(okeys[idx as int] <= okeys[t]);
                        }
                    }
                }
                assert(node_map(Node::Leaf(*leaf)).remove(key) =~= node_map(Node::Leaf(*leaf)));
            }
            return DeleteResult::NotFound;
        }
        let p = idx - 1;
        leaf.keys.remove(p);
        leaf.values.remove(p);
        proof {
            lemma_kv_remove_at(okeys, ovals, p as int);
            assert(leaf.keys@ == okeys.remove(p as int));
            assert forall|i: int, j: int|
                0 <= i < j < leaf.keys@.len() implies leaf.keys@[i] < leaf.keys@[j] by {
                assert(i < p ==> leaf.keys@[i] == okeys[i]);
                assert(i >= p ==> leaf.keys@[i] == okeys[i + 1]);
                assert(j < p ==> leaf.keys@[j] == okeys[j]);
                assert(j >= p ==> leaf.keys@[j] == okeys[j + 1]);
            }
            assert forall|i: int| 0 <= i < leaf.keys@.len() implies in_bounds(
                #[trigger] leaf.keys@[i],
                lo,
                hi,
            ) by {
                if i < p {
                    assert(leaf.keys@[i] == okeys[i]);
                } else {
                    assert(leaf.keys@[i] == okeys[i + 1]);
                }
            }
        }
        if leaf.keys.len() == 0 {
            proof {
                assert(node_map(Node::Leaf(*leaf)) =~= Map::<KeySize, V>::empty());
            }
            DeleteResult::Empty
        } else {
            proof {
                lemma_leaf_min(leaf.keys@, leaf.values@);
            }
            if leaf.keys.len() < min {
                if p == 0 {
                    let m = leaf.keys[0];
                    DeleteResult::Underflow { new_min_opt: Option::Some(m) }
                } else {
                    DeleteResult::Underflow { new_min_opt: Option::None }
                }
            } else if p == 0 {
                let m = leaf.keys[0];
                DeleteResult::MinChanged { new_min: m }
            } else {
                DeleteResult::Done
            }
        }
    }

    /// Recursive helper that removes `key` from the subtree rooted at
    /// `node`.
    ///
    /// Traverses down to the appropriate leaf, removes the pair there, and
    /// reacts to the outcome the child reports: a changed minimum updates
    /// the routing key to its left, and an underflowed or emptied child is
    /// repaired by borrowing from a sibling or merging with one, so that
    /// every node below this one satisfies the occupancy invariant again
    /// before this node reports its own outcome upward.
    #[verifier::rlimit(100)]
    fn delete_recursive(
        node: &mut Node<V>,
        key: KeySize,
        order: usize,
        min: usize,
        Ghost(h): Ghost<nat>,
        Ghost(lo): Ghost<Option<KeySize>>,
        Ghost(hi): Ghost<Option<KeySize>>,
        Ghost(low): Ghost<nat>,
    ) -> (r: DeleteResult<KeySize>)
        requires
            node_ok(*old(node), order as nat, min as nat, h, lo, hi, low),
            order < usize::MAX,
            1 <= min,
            2 * min <= order,
            low <= min,
            (*old(node) matches Node::Internal(_)) ==> 1 <= low,
            in_bounds(key, lo, hi),
        ensures
            node_map(*final(node)) == node_map(*old(node)).remove(key),
            ((*old(node) matches Node::Leaf(_)) <==> (*final(node) matches Node::Leaf(_))),
            r == delete_outcome(*old(node), key, min as nat),
            deleted_shape(*old(node), *final(node), r, key, min as nat),
            match r {
                DeleteResult::NotFound => {
                    &&& !node_map(*old(node)).contains_key(key)
                    &&& node_ok(*final(node), order as nat, min as nat, h, lo, hi, low)
                },
                DeleteResult::Done => {
                    &&& node_map(*old(node)).contains_key(key)
                    &&& node_ok(*final(node), order as nat, min as nat, h, lo, hi, low)
                },
                DeleteResult::MinChanged { new_min } => {
                    &&& node_map(*old(node)).contains_key(key)
                    &&& node_ok(*final(node), order as nat, min as nat, h, lo, hi, low)
                    &&& is_min_of(node_map(*final(node)), new_min)
                },
                DeleteResult::Underflow { new_min_opt } => {
                    &&& node_map(*old(node)).contains_key(key)
                    &&& node_ok(*final(node), order as nat, min as nat, h, lo, hi, 0)
                    &&& node_key_count(*final(node)) + 1 == node_key_count(*old(node))
                    &&& node_key_count(*final(node)) < min
                    &&& ((*final(node) matches Node::Leaf(_)) ==> node_key_count(*final(node))
                        >= 1)
                    &&& (new_min_opt matches Option::Some(m) ==> is_min_of(
                        node_map(*final(node)),
                        m,
                    ))
                },
                DeleteResult::Empty => {
                    &&& node_map(*old(node)).contains_key(key)
                    &&& (*final(node) matches Node::Leaf(_))
                    &&& node_key_count(*final(node)) == 0
                    &&& node_key_count(*final(node)) + 1 == node_key_count(*old(node))
                    &&& node_ok(*final(node), order as nat, min as nat, h, lo, hi, 0)
                    &&& node_map(*final(node)) == Map::<KeySize, V>::empty()
                },
            },
        decreases *old(node),
    {
        match node {
            Node::Leaf(leaf) => Self::delete_from_leaf(
                leaf,
                key,
                min,
                Ghost(order as nat),
                Ghost(lo),
                Ghost(hi),
                Ghost(low),
            ),
            Node::Internal(internal) => {
                let ghost ond = *internal;
                let ghost okeys = internal.keys@;
                let ghost ocs = internal.children@;
                let idx = route_index(&internal.keys, key);
                let ghost clo = child_lo(okeys, idx as int, lo);
                let ghost chi = child_hi(okeys, idx as int, hi);
                proof {
                    lemma_route_properties(okeys, key);
                    lemma_routed_key_only_in_child(
                        ond,
                        order as nat,
                        min as nat,
                        h,
                        lo,
                        hi,
                        low,
                        key,
                    );
                    assert(node_ok(
                        *ocs[idx as int],
                        order as nat,
                        min as nat,
                        (h - 1) as nat,
                        clo,
                        chi,
                        min as nat,
                    ));
                    assert(in_bounds(key, clo, chi));
                }
                let res = Self::delete_recursive(
                    &mut *internal.children[idx],
                    key,
                    order,
                    min,
                    Ghost((h - 1) as nat),
                    Ghost(clo),
                    Ghost(chi),
                    Ghost(min as nat),
                );
                let ghost gcr = res;
                let ghost cb = internal.children@[idx as int];
                proof {
                    assert(internal.children@ =~= ond.children@.update(idx as int, cb));
                    assert(gcr == delete_outcome(*ond.children@[idx as int], key, min as nat));
                    lemma_children_map_contains(ond.children@, key);
                    if children_map(ond.children@).contains_key(key) {
                        let j = choose|j: int|
                            0 <= j < ond.children@.len() && node_map(
                                *(#[trigger] ond.children@[j]),
                            ).contains_key(key);
                        assert(j == idx);
                    }
                    if node_map(*ocs[idx as int]).contains_key(key) {
                        assert(children_map(ond.children@).contains_key(key));
                    }
                }
                match res {
                    DeleteResult::NotFound => {
                        proof {
                            assert(node_map(*internal.children@[idx as int]) =~= node_map(
                                *ocs[idx as int],
                            ));
                            crate::update::lemma_internal_after_same(
                                ond,
                                *internal,
                                key,
                                order as nat,
                                min as nat,
                                h,
                                lo,
                                hi,
                                low,
                            );
                            assert(node_map(Node::Internal(*internal)).remove(key) =~= node_map(
                                Node::Internal(*internal),
                            ));
                            assert(deleted_shape(
                                Node::Internal(ond),
                                Node::Internal(*internal),
                                DeleteResult::NotFound,
                                key,
                                min as nat,
                            ));
                        }
                        DeleteResult::NotFound
                    },
                    DeleteResult::Done => {
                        proof {
                            lemma_internal_after_remove(
                                ond,
                                *internal,
                                key,
                                order as nat,
                                min as nat,
                                h,
                                lo,
                                hi,
                                low,
                                min as nat,
                            );
                            assert(deleted_shape(
                                Node::Internal(ond),
                                Node::Internal(*internal),
                                DeleteResult::Done,
                                key,
                                min as nat,
                            ));
                        }
                        DeleteResult::Done
                    },
                    DeleteResult::MinChanged { new_min } => {
                        proof {
                            lemma_internal_after_remove(
                                ond,
                                *internal,
                                key,
                                order as nat,
                                min as nat,
                                h,
                                lo,
                                hi,
                                low,
                                min as nat,
                            );
                        }
                        if idx > 0 {
                            let ghost nd2 = *internal;
                            internal.keys[idx - 1] = new_min;
                            proof {
                                lemma_routing_key_update(
                                    nd2,
                                    *internal,
                                    idx as int,
                                    new_min,
                                    order as nat,
                                    min as nat,
                                    h,
                                    lo,
                                    hi,
                                    low,
                                );
                                assert(internal.keys@ == ond.keys@.update(idx - 1, new_min));
                                assert(deleted_shape(
                                    Node::Internal(ond),
                                    Node::Internal(*internal),
                                    DeleteResult::Done,
                                    key,
                                    min as nat,
                                ));
                            }
                            DeleteResult::Done
                        } else {
                            proof {
                                crate::interp::lemma_internal_min(
                                    *internal,
                                    order as nat,
                                    min as nat,
                                    h,
                                    lo,
                                    hi,
                                    low,
                                    new_min,
                                );
                                assert(deleted_shape(
                                    Node::Internal(ond),
                                    Node::Internal(*internal),
                                    DeleteResult::MinChanged { new_min },
                                    key,
                                    min as nat,
                                ));
                            }
                            DeleteResult::MinChanged { new_min }
                        }
                    },
                    DeleteResult::Underflow { new_min_opt } => {
                        proof {
                            lemma_internal_after_remove(
                                ond,
                                *internal,
                                key,
                                order as nat,
                                min as nat,
                                h,
                                lo,
                                hi,
                                low,
                                0,
                            );
                        }
                        let passed: Option<KeySize> = if idx == 0 {
                            proof {
                                match new_min_opt {
                                    Option::Some(m) => {
                                        crate::interp::lemma_internal_min(
                                            *internal,
                                            order as nat,
                                            min as nat,
                                            h,
                                            lo,
                                            hi,
                                            low,
                                            m,
                                        );
                                    },
                                    Option::None => {},
                                }
                            }
                            new_min_opt
                        } else {
                            Option::None
                        };
                        proof {
                            assert(passed == passed_min(ond, idx as int, gcr));
                        }
                        let ghost csmid = internal.children@;
                        let r2 = Self::resolve_underflow(
                            internal,
                            idx,
                            order,
                            min,
                            passed,
                            false,
                            Ghost(h),
                            Ghost(lo),
                            Ghost(hi),
                            Ghost(low),
                        );
                        proof {
                            assert(resolved_shape(
                                ond.keys@,
                                ond.children@.update(idx as int, cb),
                                Node::Internal(*internal),
                                r2,
                                idx as int,
                                false,
                                passed_min(ond, idx as int, gcr),
                                min as nat,
                            ));
                            assert(r2 == delete_outcome(Node::Internal(ond), key, min as nat))
                                by {
                                let cs1 = ond.children@.update(idx as int, cb);
                                assert(cs1.len() == ond.children@.len());
                                if idx > 0 {
                                    assert(cs1[idx - 1] == ond.children@[idx - 1]);
                                }
                                if idx + 1 < cs1.len() {
                                    assert(cs1[idx + 1] == ond.children@[idx + 1]);
                                }
                            };
                            lemma_deleted_shape_intro(
                                ond,
                                Node::Internal(*internal),
                                r2,
                                cb,
                                key,
                                min as nat,
                                false,
                            );
                        }
                        r2
                    },
                    DeleteResult::Empty => {
                        proof {
                            lemma_internal_after_remove(
                                ond,
                                *internal,
                                key,
                                order as nat,
                                min as nat,
                                h,
                                lo,
                                hi,
                                low,
                                0,
                            );
                        }
                        let passed: Option<KeySize> = if idx == 0 {
                            match &*internal.children[1] {
                                Node::Leaf(l) => {
                                    proof {
                                        assert(node_ok(
                                            *internal.children@[1],
                                            order as nat,
                                            min as nat,
                                            (h - 1) as nat,
                                            child_lo(internal.keys@, 1, lo),
                                            child_hi(internal.keys@, 1, hi),
                                            min as nat,
                                        ));
                                        lemma_leaf_min(l.keys@, l.values@);
                                        lemma_min_from_second_child(
                                            *internal,
                                            order as nat,
                                            min as nat,
                                            h,
                                            lo,
                                            hi,
                                            low,
                                            l.keys@[0],
                                        );
                                    }
                                    Option::Some(l.keys[0])
                                },
                                Node::Internal(_) => {
                                    proof {
                                        assert(node_ok(
                                            *internal.children@[0],
                                            order as nat,
                                            min as nat,
                                            (h - 1) as nat,
                                            child_lo(internal.keys@, 0, lo),
                                            child_hi(internal.keys@, 0, hi),
                                            0,
                                        ));
                                        assert(node_ok(
                                            *internal.children@[1],
                                            order as nat,
                                            min as nat,
                                            (h - 1) as nat,
                                            child_lo(internal.keys@, 1, lo),
                                            child_hi(internal.keys@, 1, hi),
                                            min as nat,
                                        ));
                                        assert(false);
                                    }
                                    Option::None
                                },
                            }
                        } else {
                            Option::None
                        };
                        proof {
                            assert(passed == passed_min(ond, idx as int, gcr));
                        }
                        let r2 = Self::resolve_underflow(
                            internal,
                            idx,
                            order,
                            min,
                            passed,
                            true,
                            Ghost(h),
                            Ghost(lo),
                            Ghost(hi),
                            Ghost(low),
                        );
                        proof {
                            assert(resolved_shape(
                                ond.keys@,
                                ond.children@.update(idx as int, cb),
                                Node::Internal(*internal),
                                r2,
                                idx as int,
                                true,
                                passed_min(ond, idx as int, gcr),
                                min as nat,
                            ));
                            assert(r2 == delete_outcome(Node::Internal(ond), key, min as nat))
                                by {
                                let cs1 = ond.children@.update(idx as int, cb);
                                assert(cs1.len() == ond.children@.len());
                                if idx > 0 {
                                    assert(cs1[idx - 1] == ond.children@[idx - 1]);
                                }
                                if idx + 1 < cs1.len() {
                                    assert(cs1[idx + 1] == ond.children@[idx + 1]);
                                }
                            };
                            lemma_deleted_shape_intro(
                                ond,
                                Node::Internal(*internal),
                                r2,
                                cb,
                                key,
                                min as nat,
                                true,
                            );
                        }
                        r2
                    },
                }
            },
        }
    }

    /// Removes the value stored under `key`; a no-op if the key is absent,
    /// leaving every node exactly as it was.
    ///
    /// If deletion leaves the root as an internal node with a single child,
    /// the root is replaced by that child: the only way tree height
    /// shrinks.
    pub fn delete_value(&mut self, key: KeySize)
        requires
            old(self).wf(),
        ensures
            final(self).wf(),
            final(self)@ == old(self)@.remove(key),
            deleted_root_shape(
                old(self).root,
                final(self).root,
                key,
                old(self).min_elements as nat,
            ),
            node_height(old(self).root) == node_height(final(self).root) || node_height(
                old(self).root,
            ) == node_height(final(self).root) + 1,
            !old(self)@.contains_key(key) ==> crate::interp::same_shape(
                old(self).root,
                final(self).root,
            ),
            final(self).order == old(self).order,
            final(self).min_elements == old(self).min_elements,
    {
        let ghost oroot = self.root;
        let ghost h = node_height(self.root);
        let ghost low = self.root_low();
        let order = self.order;
        let min_elements = self.min_elements;
        let res = Self::delete_recursive(
            &mut self.root,
            key,
            order,
            min_elements,
            Ghost(h),
            Ghost(Option::None),
            Ghost(Option::None),
            Ghost(low),
        );
        proof {
            match res {
                DeleteResult::NotFound => {
                    assert(node_map(self.root).remove(key) =~= node_map(self.root));
                },
                _ => {},
            }
        }
        let collapse = match &self.root {
            Node::Internal(nd) => nd.keys.len() == 0,
            Node::Leaf(_) => false,
        };
        let ghost gmid = self.root;
        let ghost gres = res;
        if collapse {
            let mut tmp: Node<V> = Node::Leaf(LeafNode { keys: Vec::new(), values: Vec::new() });
            core::mem::swap(&mut self.root, &mut tmp);
            match tmp {
                Node::Internal(mut nd) => {
                    proof {
                        assert(node_ok(
                            Node::Internal(nd),
                            order as nat,
                            min_elements as nat,
                            h,
                            Option::None,
                            Option::None,
                            0,
                        ));
                        assert(node_ok(
                            *nd.children@[0],
                            order as nat,
                            min_elements as nat,
                            (h - 1) as nat,
                            Option::None,
                            Option::None,
                            min_elements as nat,
                        ));
                        lemma_children_map_singleton(nd.children@[0]);
                        assert(nd.children@ =~= seq![nd.children@[0]]);
                    }
                    let only = nd.children.pop().unwrap();
                    self.root = *only;
                    proof {
                        assert(root_witness(gmid));
                        assert(deleted_shape(
                            oroot,
                            gmid,
                            delete_outcome(oroot, key, min_elements as nat),
                            key,
                            min_elements as nat,
                        ));
                        assert(gmid matches Node::Internal(ndm) && ndm.keys@.len() == 0
                            && ndm.children@.len() == 1 && self.root == *ndm.children@[0]);
                        assert(deleted_root_shape(oroot, self.root, key, min_elements as nat));
                        lemma_node_ok_relow(
                            self.root,
                            order as nat,
                            min_elements as nat,
                            (h - 1) as nat,
                            Option::None,
                            Option::None,
                            min_elements as nat,
                            final(self).root_low(),
                        );
                        lemma_node_ok_height(
                            self.root,
                            order as nat,
                            min_elements as nat,
                            (h - 1) as nat,
                            Option::None,
                            Option::None,
                            final(self).root_low(),
                        );
                    }
                },
                Node::Leaf(_) => {
                    proof {
                        assert(false);
                    }
                },
            }
        } else {
            proof {
                match res {
                    DeleteResult::Underflow { new_min_opt } => {
                        lemma_node_ok_relow(
                            self.root,
                            order as nat,
                            min_elements as nat,
                            h,
                            Option::None,
                            Option::None,
                            0,
                            self.root_low(),
                        );
                    },
                    DeleteResult::Empty => {
                        lemma_node_ok_relow(
                            self.root,
                            order as nat,
                            min_elements as nat,
                            h,
                            Option::None,
                            Option::None,
                            0,
                            self.root_low(),
                        );
                    },
                    _ => {
                        lemma_node_ok_relow(
                            self.root,
                            order as nat,
                            min_elements as nat,
                            h,
                            Option::None,
                            Option::None,
                            low,
                            self.root_low(),
                        );
                    },
                }
                lemma_node_ok_height(
                    self.root,
                    order as nat,
                    min_elements as nat,
                    h,
                    Option::None,
                    Option::None,
                    self.root_low(),
                );
                assert(deleted_root_shape(oroot, self.root, key, min_elements as nat));
                if !node_map(oroot).contains_key(key) {
                    match gres {
                        DeleteResult::NotFound => {
                            lemma_deleted_notfound_same(oroot, self.root, key, min_elements as nat);
                        },
                        _ => {
                            assert(false);
                        },
                    }
                }
            }
        }
    }
}

/// Overwriting the routing key left of the routed child with that child's
/// (smaller or equal) new minimum preserves well-formedness; the maps do
/// not change.
proof fn lemma_routing_key_update<V>(
    nd: InternalNode<V>,
    nd2: InternalNode<V>,
    idx: int,
    m: KeySize,
    order: nat,
    min: nat,
    h: nat,
    lo: Option<KeySize>,
    hi: Option<KeySize>,
    low: nat,
)
    requires
        node_ok(Node::Internal(nd), order, min, h, lo, hi, low),
        1 <= min,
        1 <= idx < nd.children@.len(),
        nd2.keys@ == nd.keys@.update(idx - 1, m),
        nd2.children@ == nd.children@,
        is_min_of(node_map(*nd.children@[idx]), m),
    ensures
        node_ok(Node::Internal(nd2), order, min, h, lo, hi, low),
        node_map(Node::Internal(nd2)) == node_map(Node::Internal(nd)),
{
    let okeys = nd.keys@;
    let keys2 = nd2.keys@;
    lemma_node_map_bounds(
        *nd.children@[idx],
        order,
        min,
        (h - 1) as nat,
        child_lo(okeys, idx, lo),
        child_hi(okeys, idx, hi),
        min,
    );
    assert(node_map(*nd.children@[idx]).contains_key(m));
    assert(in_bounds(m, child_lo(okeys, idx, lo), child_hi(okeys, idx, hi)));
    assert(okeys[idx - 1] <= m);
    assert forall|i: int, j: int| 0 <= i < j < keys2.len() implies keys2[i] < keys2[j] by {
        assert(i != idx - 1 ==> keys2[i] == okeys[i]);
        assert(j != idx - 1 ==> keys2[j] == okeys[j]);
        if j == idx - 1 {
            assert(okeys[i] < okeys[idx - 1]);
        }
        if i == idx - 1 && j == idx {
            assert(m < okeys[idx]);
        } else if i == idx - 1 {
            assert(j > idx ==> okeys[idx] <= okeys[j]);
            assert(m < okeys[idx]);
        }
    }
    assert forall|i: int| 0 <= i < keys2.len() implies routing_in_bounds(
        #[trigger] keys2[i],
        lo,
        hi,
    ) by {
        if i == idx - 1 {
            assert(routing_in_bounds(okeys[idx - 1], lo, hi));
            assert(routing_in_bounds(okeys[i], lo, hi));
        }
    }
    assert forall|j: int| 0 <= j < nd2.children@.len() implies node_ok(
        *(#[trigger] nd2.children@[j]),
        order,
        min,
        (h - 1) as nat,
        child_lo(keys2, j, lo),
        child_hi(keys2, j, hi),
        min,
    ) by {
        assert(nd2.children@[j] == nd.children@[j]);
        assert(node_ok(
            *nd.children@[j],
            order,
            min,
            (h - 1) as nat,
            child_lo(okeys, j, lo),
            child_hi(okeys, j, hi),
            min,
        ));
        if j == idx - 1 {
            // the window widens on the right: keys[idx - 1] <= m
            crate::interp::lemma_node_ok_widen(
                *nd.children@[j],
                order,
                min,
                (h - 1) as nat,
                child_lo(okeys, j, lo),
                Option::Some(okeys[idx - 1]),
                min,
                child_lo(okeys, j, lo),
                Option::Some(m),
            );
            assert(child_lo(keys2, j, lo) == child_lo(okeys, j, lo));
            assert(child_hi(keys2, j, hi) == Option::Some(m));
        } else if j == idx {
            // the window tightens on the left, up to the subtree's minimum
            assert forall|k2: KeySize| #[trigger] node_map(*nd.children@[idx]).contains_key(
                k2,
            ) implies m <= k2 by {}
            crate::interp::lemma_node_ok_tighten_lo(
                *nd.children@[idx],
                order,
                min,
                (h - 1) as nat,
                child_lo(okeys, idx, lo),
                child_hi(okeys, idx, hi),
                min,
                m,
            );
            assert(child_lo(keys2, j, lo) == Option::Some(m));
            assert(child_hi(keys2, j, hi) == child_hi(okeys, j, hi));
        } else {
            assert(child_lo(keys2, j, lo) == child_lo(okeys, j, lo));
            assert(child_hi(keys2, j, hi) == child_hi(okeys, j, hi));
        }
    }
}

} // verus!
