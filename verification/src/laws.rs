//! Laws relating the tree's operations, stated over the `Map` view that
//! their contracts are written in and proved once for every tree.

use vstd::prelude::*;

use crate::models::BPlusTree;
use crate::models::KeySize;

verus! {

/// Round-trip: when a second tree is the first with `key` bound to
/// `value` — what `insert_with_key` and `insert_value` establish — then a
/// lookup of `key` in it is present and yields exactly `value`, which is
/// what `get` returns.
pub proof fn lemma_insert_round_trip<V>(
    t1: BPlusTree<V>,
    t2: BPlusTree<V>,
    key: KeySize,
    value: V,
)
    requires
        t2@ == t1@.insert(key, value),
    ensures
        t2@.contains_key(key),
        t2@[key] == value,
{
}

/// Delete-then-get: when a second tree is the first with `key` removed —
/// what `delete_value` establishes — then a lookup of `key` in it is
/// absent.
pub proof fn lemma_delete_then_get<V>(t1: BPlusTree<V>, t2: BPlusTree<V>, key: KeySize)
    requires
        t2@ == t1@.remove(key),
    ensures
        !t2@.contains_key(key),
{
}

/// Idempotent absence: deleting a key that is not present leaves the
/// tree's observable key/value map unchanged.
pub proof fn lemma_delete_absent<V>(t1: BPlusTree<V>, t2: BPlusTree<V>, key: KeySize)
    requires
        !t1@.contains_key(key),
        t2@ == t1@.remove(key),
    ensures
        t2@ == t1@,
{
    assert(t1@.remove(key) =~= t1@);
}

/// Update correctness: binding `key` to `v2` in a tree that already bound
/// it to `v1` — the chain `insert_with_key(key, v1)` then `update(key,
/// v2)` — makes a subsequent lookup of `key` yield `v2`, not `v1`.
pub proof fn lemma_update_overwrites<V>(
    t1: BPlusTree<V>,
    t2: BPlusTree<V>,
    t3: BPlusTree<V>,
    key: KeySize,
    v1: V,
    v2: V,
)
    requires
        t2@ == t1@.insert(key, v1),
        t3@ == if t2@.contains_key(key) {
            t2@.insert(key, v2)
        } else {
            t2@
        },
    ensures
        t3@.contains_key(key),
        t3@[key] == v2,
{
}

/// Every well-formed tree meets `get`'s precondition: the invariants the
/// mutating operations preserve include everything a lookup needs.
pub proof fn lemma_wf_searchable<V>(t: BPlusTree<V>)
    requires
        t.wf(),
    ensures
        t.searchable(),
{
    crate::interp::lemma_node_ok_search(
        t.root,
        t.order as nat,
        t.min_elements as nat,
        crate::interp::node_height(t.root),
        Option::None,
        Option::None,
        t.root_low(),
    );
}

} // verus!
