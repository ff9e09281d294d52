//! The map represented by a pair of index-aligned key/value sequences, and
//! how the positional operations on such a pair (insert, overwrite, remove,
//! concatenate) act on that map.  These are the facts that connect a leaf's
//! two parallel vectors to the `Map` abstraction of the tree.

use vstd::prelude::*;

use crate::models::KeySize;

verus! {

/// A key sequence is strictly ascending (hence duplicate-free).
pub open spec fn sorted_strict(s: Seq<KeySize>) -> bool {
    forall|i: int, j: int| 0 <= i < j < s.len() ==> s[i] < s[j]
}

/// The partial map represented by two index-aligned sequences:
/// `keys[i]` maps to `vals[i]`.
pub open spec fn kv_map<V>(keys: Seq<KeySize>, vals: Seq<V>) -> Map<KeySize, V>
    decreases keys.len(),
{
    if keys.len() == 0 {
        Map::empty()
    } else {
        kv_map(keys.drop_last(), vals.drop_last()).insert(keys.last(), vals.last())
    }
}

pub proof fn lemma_sorted_no_duplicates(s: Seq<KeySize>)
    requires
        sorted_strict(s),
    ensures
        s.no_duplicates(),
{
}

pub proof fn lemma_kv_contains<V>(keys: Seq<KeySize>, vals: Seq<V>, k: KeySize)
    requires
        keys.len() == vals.len(),
    ensures
        kv_map(keys, vals).contains_key(k) <==> keys.contains(k),
    decreases keys.len(),
{
    if keys.len() > 0 {
        lemma_kv_contains(keys.drop_last(), vals.drop_last(), k);
        if keys.contains(k) {
            let i = choose|i: int| 0 <= i < keys.len() && keys[i] == k;
            if i < keys.len() - 1 {
                assert(keys.drop_last()[i] == k);
            }
        }
        if keys.drop_last().contains(k) {
            let i = choose|i: int| 0 <= i < keys.drop_last().len() && keys.drop_last()[i] == k;
            assert(keys[i] == k);
        }
    }
}

pub proof fn lemma_kv_lookup<V>(keys: Seq<KeySize>, vals: Seq<V>, i: int)
    requires
        keys.len() == vals.len(),
        keys.no_duplicates(),
        0 <= i < keys.len(),
    ensures
        kv_map(keys, vals).contains_key(keys[i]),
        kv_map(keys, vals)[keys[i]] == vals[i],
    decreases keys.len(),
{
    if i < keys.len() - 1 {
        lemma_kv_lookup(keys.drop_last(), vals.drop_last(), i);
        assert(keys.last() != keys[i]);
    }
}

pub proof fn lemma_kv_insert_at<V>(keys: Seq<KeySize>, vals: Seq<V>, p: int, k: KeySize, v: V)
    requires
        keys.len() == vals.len(),
        0 <= p <= keys.len(),
        !keys.contains(k),
    ensures
        kv_map(keys.insert(p, k), vals.insert(p, v)) == kv_map(keys, vals).insert(k, v),
    decreases keys.len(),
{
    let nkeys = keys.insert(p, k);
    let nvals = vals.insert(p, v);
    if p == keys.len() {
        assert(nkeys.drop_last() =~= keys);
        assert(nvals.drop_last() =~= vals);
    } else {
        // the last element is unchanged; push the insertion into the prefix
        assert(nkeys.last() == keys.last());
        assert(nvals.last() == vals.last());
        assert(nkeys.drop_last() =~= keys.drop_last().insert(p, k));
        assert(nvals.drop_last() =~= vals.drop_last().insert(p, v));
        assert(!keys.drop_last().contains(k)) by {
            if keys.drop_last().contains(k) {
                let i = choose|i: int|
                    0 <= i < keys.drop_last().len() && keys.drop_last()[i] == k;
                assert(keys[i] == k);
            }
        }
        lemma_kv_insert_at(keys.drop_last(), vals.drop_last(), p, k, v);
        assert(keys[keys.len() - 1] != k);
        assert(kv_map(keys.drop_last(), vals.drop_last()).insert(k, v).insert(
            keys.last(),
            vals.last(),
        ) =~= kv_map(keys.drop_last(), vals.drop_last()).insert(keys.last(), vals.last()).insert(
            k,
            v,
        ));
    }
}

pub proof fn lemma_kv_update_at<V>(keys: Seq<KeySize>, vals: Seq<V>, p: int, v: V)
    requires
        keys.len() == vals.len(),
        keys.no_duplicates(),
        0 <= p < keys.len(),
    ensures
        kv_map(keys, vals.update(p, v)) == kv_map(keys, vals).insert(keys[p], v),
    decreases keys.len(),
{
    let nvals = vals.update(p, v);
    if p == keys.len() - 1 {
        assert(nvals.drop_last() =~= vals.drop_last());
        assert(nvals.last() == v);
        assert(kv_map(keys.drop_last(), vals.drop_last()).insert(keys.last(), v) =~= kv_map(
            keys.drop_last(),
            vals.drop_last(),
        ).insert(keys.last(), vals.last()).insert(keys[p], v));
    } else {
        assert(nvals.drop_last() =~= vals.drop_last().update(p, v));
        assert(nvals.last() == vals.last());
        lemma_kv_update_at(keys.drop_last(), vals.drop_last(), p, v);
        assert(keys.drop_last()[p] == keys[p]);
        assert(keys.last() != keys[p]);
        assert(kv_map(keys.drop_last(), vals.drop_last()).insert(keys[p], v).insert(
            keys.last(),
            vals.last(),
        ) =~= kv_map(keys.drop_last(), vals.drop_last()).insert(keys.last(), vals.last()).insert(
            keys[p],
            v,
        ));
    }
}

pub proof fn lemma_kv_remove_at<V>(keys: Seq<KeySize>, vals: Seq<V>, p: int)
    requires
        keys.len() == vals.len(),
        keys.no_duplicates(),
        0 <= p < keys.len(),
    ensures
        kv_map(keys.remove(p), vals.remove(p)) == kv_map(keys, vals).remove(keys[p]),
    decreases keys.len(),
{
    let nkeys = keys.remove(p);
    let nvals = vals.remove(p);
    if p == keys.len() - 1 {
        assert(nkeys =~= keys.drop_last());
        assert(nvals =~= vals.drop_last());
        assert(!keys.drop_last().contains(keys[p])) by {
            if keys.drop_last().contains(keys[p]) {
                let i = choose|i: int|
                    0 <= i < keys.drop_last().len() && keys.drop_last()[i] == keys[p];
                assert(keys[i] == keys[p]);
            }
        }
        lemma_kv_contains(keys.drop_last(), vals.drop_last(), keys[p]);
        assert(kv_map(keys.drop_last(), vals.drop_last()) =~= kv_map(
            keys.drop_last(),
            vals.drop_last(),
        ).insert(keys.last(), vals.last()).remove(keys[p]));
    } else {
        assert(nkeys.last() == keys.last());
        assert(nvals.last() == vals.last());
        assert(nkeys.drop_last() =~= keys.drop_last().remove(p));
        assert(nvals.drop_last() =~= vals.drop_last().remove(p));
        lemma_kv_remove_at(keys.drop_last(), vals.drop_last(), p);
        assert(keys.drop_last()[p] == keys[p]);
        assert(keys.last() != keys[p]);
        assert(kv_map(keys.drop_last(), vals.drop_last()).remove(keys[p]).insert(
            keys.last(),
            vals.last(),
        ) =~= kv_map(keys.drop_last(), vals.drop_last()).insert(keys.last(), vals.last()).remove(
            keys[p],
        ));
    }
}

pub proof fn lemma_kv_concat<V>(k1: Seq<KeySize>, v1: Seq<V>, k2: Seq<KeySize>, v2: Seq<V>)
    requires
        k1.len() == v1.len(),
        k2.len() == v2.len(),
    ensures
        kv_map(k1 + k2, v1 + v2) == kv_map(k1, v1).union_prefer_right(kv_map(k2, v2)),
    decreases k2.len(),
{
    if k2.len() == 0 {
        assert(k1 + k2 =~= k1);
        assert(v1 + v2 =~= v1);
        assert(kv_map(k1, v1).union_prefer_right(kv_map(k2, v2)) =~= kv_map(k1, v1));
    } else {
        assert((k1 + k2).drop_last() =~= k1 + k2.drop_last());
        assert((v1 + v2).drop_last() =~= v1 + v2.drop_last());
        assert((k1 + k2).last() == k2.last());
        assert((v1 + v2).last() == v2.last());
        lemma_kv_concat(k1, v1, k2.drop_last(), v2.drop_last());
        assert(kv_map(k1, v1).union_prefer_right(kv_map(k2.drop_last(), v2.drop_last())).insert(
            k2.last(),
            v2.last(),
        ) =~= kv_map(k1, v1).union_prefer_right(
            kv_map(k2.drop_last(), v2.drop_last()).insert(k2.last(), v2.last()),
        ));
    }
}

} // verus!
