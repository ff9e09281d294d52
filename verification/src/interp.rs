//! The mathematical reading of a node: the `Map` it represents, its height,
//! its routing function, and the well-formedness predicate that every
//! completed operation preserves.

use vstd::prelude::*;

use crate::kvmap::kv_map;
use crate::kvmap::lemma_kv_contains;
use crate::kvmap::sorted_strict;
use crate::models::InternalNode;
use crate::models::KeySize;
use crate::models::LeafNode;
use crate::models::Node;

verus! {

broadcast use vstd::std_specs::vec::group_vec_axioms;

/// The map held by the children `cs`, leftmost first; on (impossible)
/// overlaps the rightmost child wins.
pub open spec fn children_map<V>(cs: Seq<Box<Node<V>>>) -> Map<KeySize, V>
    decreases cs,
{
    if cs.len() == 0 {
        Map::empty()
    } else {
        children_map(cs.drop_last()).union_prefer_right(node_map(*cs.last()))
    }
}

/// The key/value map represented by the subtree rooted at `n`.
pub open spec fn node_map<V>(n: Node<V>) -> Map<KeySize, V>
    decreases n,
{
    match n {
        Node::Leaf(l) => kv_map(l.keys@, l.values@),
        Node::Internal(nd) => children_map(nd.children@),
    }
}

/// The height of a subtree: leaves are at height zero, and every internal
/// node is one above its first child.
pub open spec fn node_height<V>(n: Node<V>) -> nat
    decreases n,
{
    match n {
        Node::Leaf(_) => 0,
        Node::Internal(nd) => {
            if nd.children@.len() > 0 {
                1 + node_height(*nd.children@[0])
            } else {
                1
            }
        },
    }
}

/// `k` lies within the half-open window (`lo` inclusive, `hi` exclusive);
/// `None` means unbounded on that side.
pub open spec fn in_bounds(k: KeySize, lo: Option<KeySize>, hi: Option<KeySize>) -> bool {
    &&& match lo {
        Option::Some(l) => l <= k,
        Option::None => true,
    }
    &&& match hi {
        Option::Some(h) => k < h,
        Option::None => true,
    }
}

/// A routing key lies strictly inside the window: strictly above `lo`
/// (a promoted key always exceeds the keys routed left of it) and strictly
/// below `hi`.
pub open spec fn routing_in_bounds(k: KeySize, lo: Option<KeySize>, hi: Option<KeySize>) -> bool {
    &&& match lo {
        Option::Some(l) => l < k,
        Option::None => true,
    }
    &&& match hi {
        Option::Some(h) => k < h,
        Option::None => true,
    }
}

/// The lower window bound the routing keys assign to child `j`.
pub open spec fn child_lo(keys: Seq<KeySize>, j: int, lo: Option<KeySize>) -> Option<KeySize> {
    if j == 0 {
        lo
    } else {
        Option::Some(keys[j - 1])
    }
}

/// The upper window bound the routing keys assign to child `j`.
pub open spec fn child_hi(keys: Seq<KeySize>, j: int, hi: Option<KeySize>) -> Option<KeySize> {
    if j == keys.len() {
        hi
    } else {
        Option::Some(keys[j])
    }
}

/// Well-formedness of the subtree rooted at `n`:
/// - the subtree lies at uniform height `h` (all leaves at equal depth);
/// - every key of the subtree lies in the window (`lo`, `hi`);
/// - each node's keys are strictly ascending;
/// - each node holds at most `order` keys; `n` itself holds at least `low`
///   and every node below it at least `min` (`low` differs from `min` only
///   for the root and, transiently, for an underflowed node);
/// - an internal node with `n` keys has exactly `n + 1` children, and the
///   routing keys partition the children's key windows;
/// - a leaf's keys and values are index-aligned.
pub open spec fn node_ok<V>(
    n: Node<V>,
    order: nat,
    min: nat,
    h: nat,
    lo: Option<KeySize>,
    hi: Option<KeySize>,
    low: nat,
) -> bool
    decreases n,
{
    match n {
        Node::Leaf(l) => {
            &&& h == 0
            &&& l.keys@.len() == l.values@.len()
            &&& low <= l.keys@.len()
            &&& l.keys@.len() <= order
            &&& sorted_strict(l.keys@)
            &&& forall|i: int| 0 <= i < l.keys@.len() ==> in_bounds(#[trigger] l.keys@[i], lo, hi)
        },
        Node::Internal(nd) => {
            &&& h >= 1
            &&& nd.children@.len() == nd.keys@.len() + 1
            &&& low <= nd.keys@.len()
            &&& nd.keys@.len() <= order
            &&& sorted_strict(nd.keys@)
            &&& forall|i: int|
                0 <= i < nd.keys@.len() ==> routing_in_bounds(#[trigger] nd.keys@[i], lo, hi)
            &&& forall|j: int|
                0 <= j < nd.children@.len() ==> node_ok(
                    *(#[trigger] nd.children@[j]),
                    order,
                    min,
                    (h - 1) as nat,
                    child_lo(nd.keys@, j, lo),
                    child_hi(nd.keys@, j, hi),
                    min,
                )
        },
    }
}

/// The number of keys held by the node itself (not its subtree).
pub open spec fn node_key_count<V>(n: Node<V>) -> nat {
    match n {
        Node::Leaf(l) => l.keys@.len(),
        Node::Internal(nd) => nd.keys@.len(),
    }
}

/// `k` is the smallest key bound by the map `m`.
pub open spec fn is_min_of<V>(m: Map<KeySize, V>, k: KeySize) -> bool {
    &&& m.contains_key(k)
    &&& forall|k2: KeySize| #[trigger] m.contains_key(k2) ==> k <= k2
}

/// Well-formedness of an internal node all of whose children are fine,
/// except that child `j` may hold any number of keys: the state of a parent
/// right after a deletion has underflowed or emptied child `j`.
pub open spec fn internal_ok_except<V>(
    nd: InternalNode<V>,
    j: int,
    order: nat,
    min: nat,
    h: nat,
    lo: Option<KeySize>,
    hi: Option<KeySize>,
    low: nat,
) -> bool {
    &&& h >= 1
    &&& nd.children@.len() == nd.keys@.len() + 1
    &&& low <= nd.keys@.len()
    &&& nd.keys@.len() <= order
    &&& sorted_strict(nd.keys@)
    &&& forall|i: int| 0 <= i < nd.keys@.len() ==> routing_in_bounds(#[trigger] nd.keys@[i], lo, hi)
    &&& 0 <= j < nd.children@.len()
    &&& forall|i: int|
        0 <= i < nd.children@.len() && i != j ==> node_ok(
            *(#[trigger] nd.children@[i]),
            order,
            min,
            (h - 1) as nat,
            child_lo(nd.keys@, i, lo),
            child_hi(nd.keys@, i, hi),
            min,
        )
    &&& node_ok(
        *nd.children@[j],
        order,
        min,
        (h - 1) as nat,
        child_lo(nd.keys@, j, lo),
        child_hi(nd.keys@, j, hi),
        0,
    )
}

/// A node's occupancy floor can be moved to anything at or below its actual
/// key count.
pub proof fn lemma_node_ok_relow<V>(
    n: Node<V>,
    order: nat,
    min: nat,
    h: nat,
    lo: Option<KeySize>,
    hi: Option<KeySize>,
    low: nat,
    low2: nat,
)
    requires
        node_ok(n, order, min, h, lo, hi, low),
        low2 <= node_key_count(n),
    ensures
        node_ok(n, order, min, h, lo, hi, low2),
{
}

/// `None` is at or below any bound; `Some(a)` at or below `Some(b)` when
/// `a <= b`.
pub open spec fn lo_le(a: Option<KeySize>, b: Option<KeySize>) -> bool {
    match a {
        Option::None => true,
        Option::Some(x) => match b {
            Option::None => false,
            Option::Some(y) => x <= y,
        },
    }
}

/// `a` is at or below `b` as an upper bound: `None` is the widest bound.
pub open spec fn hi_le(a: Option<KeySize>, b: Option<KeySize>) -> bool {
    match b {
        Option::None => true,
        Option::Some(y) => match a {
            Option::None => false,
            Option::Some(x) => x <= y,
        },
    }
}

/// Widening the window on either side preserves well-formedness.
pub proof fn lemma_node_ok_widen<V>(
    n: Node<V>,
    order: nat,
    min: nat,
    h: nat,
    lo: Option<KeySize>,
    hi: Option<KeySize>,
    low: nat,
    lo2: Option<KeySize>,
    hi2: Option<KeySize>,
)
    requires
        node_ok(n, order, min, h, lo, hi, low),
        lo_le(lo2, lo),
        hi_le(hi, hi2),
    ensures
        node_ok(n, order, min, h, lo2, hi2, low),
    decreases n,
{
    match n {
        Node::Leaf(l) => {
            assert forall|i: int| 0 <= i < l.keys@.len() implies in_bounds(
                #[trigger] l.keys@[i],
                lo2,
                hi2,
            ) by {
                assert(in_bounds(l.keys@[i], lo, hi));
            }
        },
        Node::Internal(nd) => {
            assert forall|i: int| 0 <= i < nd.keys@.len() implies routing_in_bounds(
                #[trigger] nd.keys@[i],
                lo2,
                hi2,
            ) by {
                assert(routing_in_bounds(nd.keys@[i], lo, hi));
            }
            assert forall|j: int| 0 <= j < nd.children@.len() implies node_ok(
                *(#[trigger] nd.children@[j]),
                order,
                min,
                (h - 1) as nat,
                child_lo(nd.keys@, j, lo2),
                child_hi(nd.keys@, j, hi2),
                min,
            ) by {
                assert(node_ok(
                    *nd.children@[j],
                    order,
                    min,
                    (h - 1) as nat,
                    child_lo(nd.keys@, j, lo),
                    child_hi(nd.keys@, j, hi),
                    min,
                ));
                if j == 0 && j == nd.keys@.len() {
                    lemma_node_ok_widen(
                        *nd.children@[j],
                        order,
                        min,
                        (h - 1) as nat,
                        lo,
                        hi,
                        min,
                        lo2,
                        hi2,
                    );
                } else if j == 0 {
                    lemma_node_ok_widen(
                        *nd.children@[j],
                        order,
                        min,
                        (h - 1) as nat,
                        lo,
                        Option::Some(nd.keys@[0]),
                        min,
                        lo2,
                        Option::Some(nd.keys@[0]),
                    );
                } else if j == nd.keys@.len() {
                    lemma_node_ok_widen(
                        *nd.children@[j],
                        order,
                        min,
                        (h - 1) as nat,
                        Option::Some(nd.keys@[j - 1]),
                        hi,
                        min,
                        Option::Some(nd.keys@[j - 1]),
                        hi2,
                    );
                }
            }
        },
    }
}

/// A subtree whose every node holds at least one key represents a nonempty
/// map.
pub proof fn lemma_node_map_nonempty<V>(
    n: Node<V>,
    order: nat,
    min: nat,
    h: nat,
    lo: Option<KeySize>,
    hi: Option<KeySize>,
    low: nat,
)
    requires
        node_ok(n, order, min, h, lo, hi, low),
        1 <= min,
        1 <= low,
    ensures
        exists|k: KeySize| node_map(n).contains_key(k),
    decreases n,
{
    match n {
        Node::Leaf(l) => {
            lemma_kv_contains(l.keys@, l.values@, l.keys@[0]);
            assert(l.keys@.contains(l.keys@[0]));
            assert(node_map(n).contains_key(l.keys@[0]));
        },
        Node::Internal(nd) => {
            assert(node_ok(
                *nd.children@[0],
                order,
                min,
                (h - 1) as nat,
                child_lo(nd.keys@, 0, lo),
                child_hi(nd.keys@, 0, hi),
                min,
            ));
            lemma_node_map_nonempty(
                *nd.children@[0],
                order,
                min,
                (h - 1) as nat,
                child_lo(nd.keys@, 0, lo),
                child_hi(nd.keys@, 0, hi),
                min,
            );
            let k = choose|k: KeySize| node_map(*nd.children@[0]).contains_key(k);
            lemma_children_map_contains(nd.children@, k);
            assert(node_map(n).contains_key(k));
        },
    }
}

/// Raising the lower window bound to a value at or below every key of the
/// subtree preserves well-formedness.
pub proof fn lemma_node_ok_tighten_lo<V>(
    n: Node<V>,
    order: nat,
    min: nat,
    h: nat,
    lo: Option<KeySize>,
    hi: Option<KeySize>,
    low: nat,
    m: KeySize,
)
    requires
        node_ok(n, order, min, h, lo, hi, low),
        1 <= min,
        forall|k: KeySize| #[trigger] node_map(n).contains_key(k) ==> m <= k,
    ensures
        node_ok(n, order, min, h, Option::Some(m), hi, low),
    decreases n,
{
    match n {
        Node::Leaf(l) => {
            assert forall|i: int| 0 <= i < l.keys@.len() implies in_bounds(
                #[trigger] l.keys@[i],
                Option::Some(m),
                hi,
            ) by {
                lemma_kv_contains(l.keys@, l.values@, l.keys@[i]);
                assert(l.keys@.contains(l.keys@[i]));
                assert(node_map(n).contains_key(l.keys@[i]));
            }
        },
        Node::Internal(nd) => {
            // the first child is nonempty, and all its keys are below every
            // routing key, so the routing keys sit strictly above `m`
            assert(node_ok(
                *nd.children@[0],
                order,
                min,
                (h - 1) as nat,
                child_lo(nd.keys@, 0, lo),
                child_hi(nd.keys@, 0, hi),
                min,
            ));
            lemma_node_map_nonempty(
                *nd.children@[0],
                order,
                min,
                (h - 1) as nat,
                child_lo(nd.keys@, 0, lo),
                child_hi(nd.keys@, 0, hi),
                min,
            );
            let k0 = choose|k: KeySize| node_map(*nd.children@[0]).contains_key(k);
            lemma_node_map_bounds(
                *nd.children@[0],
                order,
                min,
                (h - 1) as nat,
                child_lo(nd.keys@, 0, lo),
                child_hi(nd.keys@, 0, hi),
                min,
            );
            lemma_children_map_contains(nd.children@, k0);
            assert(node_map(n).contains_key(k0));
            assert(m <= k0);
            assert(node_map(*nd.children@[0]).contains_key(k0));
            assert(in_bounds(k0, child_lo(nd.keys@, 0, lo), child_hi(nd.keys@, 0, hi)));
            assert(nd.keys@.len() > 0 ==> k0 < nd.keys@[0]);
            assert forall|i: int| 0 <= i < nd.keys@.len() implies routing_in_bounds(
                #[trigger] nd.keys@[i],
                Option::Some(m),
                hi,
            ) by {
                assert(nd.keys@[0] <= nd.keys@[i]);
            }
            assert forall|j: int| 0 <= j < nd.children@.len() implies node_ok(
                *(#[trigger] nd.children@[j]),
                order,
                min,
                (h - 1) as nat,
                child_lo(nd.keys@, j, Option::Some(m)),
                child_hi(nd.keys@, j, hi),
                min,
            ) by {
                assert(node_ok(
                    *nd.children@[j],
                    order,
                    min,
                    (h - 1) as nat,
                    child_lo(nd.keys@, j, lo),
                    child_hi(nd.keys@, j, hi),
                    min,
                ));
                if j == 0 {
                    assert forall|k: KeySize| #[trigger] node_map(
                        *nd.children@[0],
                    ).contains_key(k) implies m <= k by {
                        lemma_children_map_contains(nd.children@, k);
                        assert(node_map(n).contains_key(k));
                    }
                    lemma_node_ok_tighten_lo(
                        *nd.children@[0],
                        order,
                        min,
                        (h - 1) as nat,
                        lo,
                        child_hi(nd.keys@, 0, hi),
                        min,
                        m,
                    );
                }
            }
        },
    }
}

/// A smallest key of the first child's map, lying below the first routing
/// key, is a smallest key of the whole node's map.
pub proof fn lemma_internal_min<V>(
    nd: InternalNode<V>,
    order: nat,
    min: nat,
    h: nat,
    lo: Option<KeySize>,
    hi: Option<KeySize>,
    low: nat,
    m: KeySize,
)
    requires
        internal_ok_except(nd, 0, order, min, h, lo, hi, low) || node_ok(
            Node::Internal(nd),
            order,
            min,
            h,
            lo,
            hi,
            low,
        ),
        is_min_of(node_map(*nd.children@[0]), m),
    ensures
        is_min_of(children_map(nd.children@), m),
{
    lemma_node_map_bounds(
        *nd.children@[0],
        order,
        min,
        (h - 1) as nat,
        child_lo(nd.keys@, 0, lo),
        child_hi(nd.keys@, 0, hi),
        if internal_ok_except(nd, 0, order, min, h, lo, hi, low) {
            0
        } else {
            min
        },
    );
    lemma_children_map_contains(nd.children@, m);
    assert(children_map(nd.children@).contains_key(m));
    assert forall|k2: KeySize| #[trigger] children_map(nd.children@).contains_key(
        k2,
    ) implies m <= k2 by {
        lemma_children_map_contains(nd.children@, k2);
        let j = choose|j: int|
            0 <= j < nd.children@.len() && node_map(*(#[trigger] nd.children@[j])).contains_key(k2);
        if j == 0 {
        } else {
            // keys in later children lie at or above keys[j - 1] >= keys[0],
            // and m lies strictly below keys[0]
            lemma_node_map_bounds(
                *nd.children@[j],
                order,
                min,
                (h - 1) as nat,
                child_lo(nd.keys@, j, lo),
                child_hi(nd.keys@, j, hi),
                min,
            );
            assert(in_bounds(k2, child_lo(nd.keys@, j, lo), child_hi(nd.keys@, j, hi)));
            assert(nd.keys@[0] <= nd.keys@[j - 1]);
            assert(node_map(*nd.children@[0]).contains_key(m));
            assert(in_bounds(m, child_lo(nd.keys@, 0, lo), child_hi(nd.keys@, 0, hi)));
            assert(m < nd.keys@[0]);
        }
    }
}

/// Removing the binding of `k` from child `j` removes it from the
/// children's map, provided no other child knows `k`.
pub proof fn lemma_children_map_update_remove<V>(
    cs: Seq<Box<Node<V>>>,
    cs2: Seq<Box<Node<V>>>,
    j: int,
    k: KeySize,
)
    requires
        0 <= j < cs.len(),
        cs2.len() == cs.len(),
        forall|i: int| 0 <= i < cs.len() && i != j ==> cs2[i] == cs[i],
        node_map(*cs2[j]) == node_map(*cs[j]).remove(k),
        forall|i: int| 0 <= i < cs.len() && i != j ==> !node_map(*(#[trigger] cs[i])).contains_key(k),
    ensures
        children_map(cs2) == children_map(cs).remove(k),
    decreases cs.len(),
{
    if j == cs.len() - 1 {
        assert(cs2.drop_last() =~= cs.drop_last());
        assert(!children_map(cs.drop_last()).contains_key(k)) by {
            lemma_children_map_contains(cs.drop_last(), k);
            if children_map(cs.drop_last()).contains_key(k) {
                let i = choose|i: int|
                    0 <= i < cs.drop_last().len() && node_map(
                        *(#[trigger] cs.drop_last()[i]),
                    ).contains_key(k);
                assert(!node_map(*cs[i]).contains_key(k));
            }
        }
        assert(children_map(cs.drop_last()).union_prefer_right(
            node_map(*cs[j]).remove(k),
        ) =~= children_map(cs.drop_last()).union_prefer_right(node_map(*cs[j])).remove(k));
    } else {
        assert(cs2.last() == cs.last());
        assert(forall|i: int|
            0 <= i < cs.drop_last().len() && i != j ==> cs2.drop_last()[i] == cs.drop_last()[i]);
        assert(cs2.drop_last()[j] == cs2[j]);
        assert(forall|i: int|
            0 <= i < cs.drop_last().len() && i != j ==> !node_map(
                *(#[trigger] cs.drop_last()[i]),
            ).contains_key(k));
        lemma_children_map_update_remove(cs.drop_last(), cs2.drop_last(), j, k);
        assert(!node_map(*cs.last()).contains_key(k));
        assert(children_map(cs.drop_last()).remove(k).union_prefer_right(
            node_map(*cs.last()),
        ) =~= children_map(cs.drop_last()).union_prefer_right(node_map(*cs.last())).remove(k));
    }
}

/// Replacing two adjacent children by two others with the same joint map
/// leaves the children's map unchanged.
pub proof fn lemma_children_map_pair_update<V>(
    cs: Seq<Box<Node<V>>>,
    cs2: Seq<Box<Node<V>>>,
    a: int,
)
    requires
        0 <= a,
        a + 1 < cs.len(),
        cs2.len() == cs.len(),
        forall|i: int| 0 <= i < cs.len() && i != a && i != a + 1 ==> cs2[i] == cs[i],
        node_map(*cs2[a]).union_prefer_right(node_map(*cs2[a + 1])) == node_map(
            *cs[a],
        ).union_prefer_right(node_map(*cs[a + 1])),
    ensures
        children_map(cs2) == children_map(cs),
{
    let pre = cs.subrange(0, a);
    let suf = cs.subrange(a + 2, cs.len() as int);
    assert(cs =~= pre + seq![cs[a], cs[a + 1]] + suf);
    assert(cs2 =~= pre + seq![cs2[a], cs2[a + 1]] + suf);
    lemma_children_map_concat(pre + seq![cs[a], cs[a + 1]], suf);
    lemma_children_map_concat(pre, seq![cs[a], cs[a + 1]]);
    lemma_children_map_concat(pre + seq![cs2[a], cs2[a + 1]], suf);
    lemma_children_map_concat(pre, seq![cs2[a], cs2[a + 1]]);
    assert(seq![cs[a], cs[a + 1]].drop_last() =~= seq![cs[a]]);
    assert(seq![cs2[a], cs2[a + 1]].drop_last() =~= seq![cs2[a]]);
    lemma_children_map_singleton(cs[a]);
    lemma_children_map_singleton(cs2[a]);
    assert(children_map(seq![cs[a], cs[a + 1]]) == node_map(*cs[a]).union_prefer_right(
        node_map(*cs[a + 1]),
    ));
    assert(children_map(seq![cs2[a], cs2[a + 1]]) == node_map(*cs2[a]).union_prefer_right(
        node_map(*cs2[a + 1]),
    ));
}

/// Replacing two adjacent children by a single one holding their joint map
/// leaves the children's map unchanged.
pub proof fn lemma_children_map_merge_at<V>(cs: Seq<Box<Node<V>>>, cs2: Seq<Box<Node<V>>>, a: int)
    requires
        0 <= a,
        a + 1 < cs.len(),
        cs2.len() == cs.len() - 1,
        forall|i: int| 0 <= i < a ==> cs2[i] == cs[i],
        forall|i: int| a + 1 <= i < cs2.len() ==> cs2[i] == cs[i + 1],
        node_map(*cs2[a]) == node_map(*cs[a]).union_prefer_right(node_map(*cs[a + 1])),
    ensures
        children_map(cs2) == children_map(cs),
{
    let pre = cs.subrange(0, a);
    let suf = cs.subrange(a + 2, cs.len() as int);
    assert(cs =~= pre + seq![cs[a], cs[a + 1]] + suf);
    assert(cs2 =~= pre + seq![cs2[a]] + suf);
    lemma_children_map_concat(pre + seq![cs[a], cs[a + 1]], suf);
    lemma_children_map_concat(pre, seq![cs[a], cs[a + 1]]);
    lemma_children_map_concat(pre + seq![cs2[a]], suf);
    lemma_children_map_concat(pre, seq![cs2[a]]);
    assert(seq![cs[a], cs[a + 1]].drop_last() =~= seq![cs[a]]);
    lemma_children_map_singleton(cs[a]);
    lemma_children_map_singleton(cs2[a]);
    assert(children_map(seq![cs[a], cs[a + 1]]) == node_map(*cs[a]).union_prefer_right(
        node_map(*cs[a + 1]),
    ));
}

/// `a` and `b` are structurally identical: same variant tags, routing
/// keys, child order, and leaf key/value contents throughout.
pub open spec fn same_shape<V>(a: Node<V>, b: Node<V>) -> bool
    decreases a,
{
    match a {
        Node::Leaf(l) => b matches Node::Leaf(l2) && l2.keys@ == l.keys@ && l2.values@
            == l.values@,
        Node::Internal(nd) => b matches Node::Internal(nd2) && nd2.keys@ == nd.keys@
            && nd2.children@.len() == nd.children@.len() && (forall|j: int|
            0 <= j < nd.children@.len() ==> same_shape(
                *(#[trigger] nd.children@[j]),
                *nd2.children@[j],
            )),
    }
}

pub proof fn lemma_same_shape_refl<V>(a: Node<V>)
    ensures
        same_shape(a, a),
    decreases a,
{
    match a {
        Node::Leaf(_) => {},
        Node::Internal(nd) => {
            assert forall|j: int| 0 <= j < nd.children@.len() implies same_shape(
                *(#[trigger] nd.children@[j]),
                *nd.children@[j],
            ) by {
                lemma_same_shape_refl(*nd.children@[j]);
            }
        },
    }
}

/// The minimal structural soundness needed to traverse a node: an internal
/// node with `n` keys has `n + 1` children, and leaf vectors are aligned.
pub open spec fn links_ok<V>(n: Node<V>) -> bool
    decreases n,
{
    match n {
        Node::Leaf(l) => l.keys@.len() == l.values@.len(),
        Node::Internal(nd) => {
            &&& nd.children@.len() == nd.keys@.len() + 1
            &&& forall|j: int| 0 <= j < nd.children@.len() ==> links_ok(*(#[trigger] nd.children@[j]))
        },
    }
}

/// The index of the child an operation on `key` descends into: the index of
/// the first routing key strictly greater than `key`, or the last child if
/// none is greater.
pub open spec fn route(keys: Seq<KeySize>, key: KeySize) -> int
    decreases keys.len(),
{
    if keys.len() == 0 {
        0
    } else if key < keys[0] {
        0
    } else {
        1 + route(keys.drop_first(), key)
    }
}

/// The leaf that the routing rule reaches for `key`.
pub open spec fn spec_find_leaf<V>(n: Node<V>, key: KeySize) -> LeafNode<V>
    decreases n,
{
    match n {
        Node::Leaf(l) => l,
        Node::Internal(nd) => {
            let j = route(nd.keys@, key);
            if 0 <= j < nd.children@.len() {
                spec_find_leaf(*nd.children@[j], key)
            } else {
                vstd::pervasive::arbitrary()
            }
        },
    }
}

pub proof fn lemma_route_properties(keys: Seq<KeySize>, key: KeySize)
    ensures
        0 <= route(keys, key) <= keys.len(),
        forall|j: int| 0 <= j < route(keys, key) ==> keys[j] <= key,
        route(keys, key) < keys.len() ==> key < keys[route(keys, key)],
    decreases keys.len(),
{
    if keys.len() > 0 && !(key < keys[0]) {
        lemma_route_properties(keys.drop_first(), key);
        assert forall|j: int| 0 <= j < route(keys, key) implies keys[j] <= key by {
            if j > 0 {
                assert(keys.drop_first()[j - 1] == keys[j]);
            }
        }
    }
}

/// What a lookup needs of a subtree, and nothing more: index-aligned
/// leaves, sorted keys, and routing keys that partition the children into
/// their windows.  Unlike `node_ok` it demands no occupancy floor, no
/// particular height, and no configuration, so lookups are covered on any
/// structurally sound tree.
pub open spec fn search_ok<V>(n: Node<V>, lo: Option<KeySize>, hi: Option<KeySize>) -> bool
    decreases n,
{
    match n {
        Node::Leaf(l) => {
            &&& l.keys@.len() == l.values@.len()
            &&& sorted_strict(l.keys@)
            &&& forall|i: int| 0 <= i < l.keys@.len() ==> in_bounds(#[trigger] l.keys@[i], lo, hi)
        },
        Node::Internal(nd) => {
            &&& nd.children@.len() == nd.keys@.len() + 1
            &&& sorted_strict(nd.keys@)
            &&& forall|i: int| 0 <= i < nd.keys@.len() ==> in_bounds(#[trigger] nd.keys@[i], lo, hi)
            &&& forall|j: int|
                0 <= j < nd.children@.len() ==> search_ok(
                    *(#[trigger] nd.children@[j]),
                    child_lo(nd.keys@, j, lo),
                    child_hi(nd.keys@, j, hi),
                )
        },
    }
}

/// Full well-formedness includes everything a lookup needs.
pub proof fn lemma_node_ok_search<V>(
    n: Node<V>,
    order: nat,
    min: nat,
    h: nat,
    lo: Option<KeySize>,
    hi: Option<KeySize>,
    low: nat,
)
    requires
        node_ok(n, order, min, h, lo, hi, low),
    ensures
        search_ok(n, lo, hi),
    decreases n,
{
    match n {
        Node::Leaf(_) => {},
        Node::Internal(nd) => {
            assert forall|i: int| 0 <= i < nd.keys@.len() implies in_bounds(
                #[trigger] nd.keys@[i],
                lo,
                hi,
            ) by {
                assert(routing_in_bounds(nd.keys@[i], lo, hi));
            }
            assert forall|j: int| 0 <= j < nd.children@.len() implies search_ok(
                *(#[trigger] nd.children@[j]),
                child_lo(nd.keys@, j, lo),
                child_hi(nd.keys@, j, hi),
            ) by {
                lemma_node_ok_search(
                    *nd.children@[j],
                    order,
                    min,
                    (h - 1) as nat,
                    child_lo(nd.keys@, j, lo),
                    child_hi(nd.keys@, j, hi),
                    min,
                );
            }
        },
    }
}

/// A searchable subtree can be traversed.
pub proof fn lemma_search_ok_links<V>(n: Node<V>, lo: Option<KeySize>, hi: Option<KeySize>)
    requires
        search_ok(n, lo, hi),
    ensures
        links_ok(n),
    decreases n,
{
    match n {
        Node::Leaf(_) => {},
        Node::Internal(nd) => {
            assert forall|j: int| 0 <= j < nd.children@.len() implies links_ok(
                *(#[trigger] nd.children@[j]),
            ) by {
                lemma_search_ok_links(
                    *nd.children@[j],
                    child_lo(nd.keys@, j, lo),
                    child_hi(nd.keys@, j, hi),
                );
            }
        },
    }
}

pub proof fn lemma_node_ok_links<V>(
    n: Node<V>,
    order: nat,
    min: nat,
    h: nat,
    lo: Option<KeySize>,
    hi: Option<KeySize>,
    low: nat,
)
    requires
        node_ok(n, order, min, h, lo, hi, low),
    ensures
        links_ok(n),
    decreases n,
{
    match n {
        Node::Leaf(_) => {},
        Node::Internal(nd) => {
            assert forall|j: int| 0 <= j < nd.children@.len() implies links_ok(
                *(#[trigger] nd.children@[j]),
            ) by {
                lemma_node_ok_links(
                    *nd.children@[j],
                    order,
                    min,
                    (h - 1) as nat,
                    child_lo(nd.keys@, j, lo),
                    child_hi(nd.keys@, j, hi),
                    min,
                );
            }
        },
    }
}

pub proof fn lemma_children_map_contains<V>(cs: Seq<Box<Node<V>>>, k: KeySize)
    ensures
        children_map(cs).contains_key(k) <==> exists|j: int|
            0 <= j < cs.len() && node_map(*(#[trigger] cs[j])).contains_key(k),
    decreases cs,
{
    if cs.len() > 0 {
        lemma_children_map_contains(cs.drop_last(), k);
        if children_map(cs).contains_key(k) {
            if node_map(*cs.last()).contains_key(k) {
                assert(node_map(*cs[cs.len() - 1]).contains_key(k));
            } else {
                let j = choose|j: int|
                    0 <= j < cs.drop_last().len() && node_map(
                        *(#[trigger] cs.drop_last()[j]),
                    ).contains_key(k);
                assert(node_map(*cs[j]).contains_key(k));
            }
        }
        if exists|j: int| 0 <= j < cs.len() && node_map(*(#[trigger] cs[j])).contains_key(k) {
            let j = choose|j: int|
                0 <= j < cs.len() && node_map(*(#[trigger] cs[j])).contains_key(k);
            if j < cs.len() - 1 {
                assert(node_map(*cs.drop_last()[j]).contains_key(k));
            }
        }
    }
}

/// Every key of a searchable subtree lies within the subtree's window.
pub proof fn lemma_search_map_bounds<V>(n: Node<V>, lo: Option<KeySize>, hi: Option<KeySize>)
    requires
        search_ok(n, lo, hi),
    ensures
        forall|k: KeySize| node_map(n).contains_key(k) ==> in_bounds(k, lo, hi),
    decreases n,
{
    match n {
        Node::Leaf(l) => {
            assert forall|k: KeySize| node_map(n).contains_key(k) implies in_bounds(k, lo, hi) by {
                lemma_kv_contains(l.keys@, l.values@, k);
                let i = choose|i: int| 0 <= i < l.keys@.len() && l.keys@[i] == k;
            }
        },
        Node::Internal(nd) => {
            assert forall|k: KeySize| node_map(n).contains_key(k) implies in_bounds(k, lo, hi) by {
                lemma_children_map_contains(nd.children@, k);
                let j = choose|j: int|
                    0 <= j < nd.children@.len() && node_map(
                        *(#[trigger] nd.children@[j]),
                    ).contains_key(k);
                lemma_search_map_bounds(
                    *nd.children@[j],
                    child_lo(nd.keys@, j, lo),
                    child_hi(nd.keys@, j, hi),
                );
                assert(in_bounds(k, child_lo(nd.keys@, j, lo), child_hi(nd.keys@, j, hi)));
                if j > 0 {
                    assert(in_bounds(nd.keys@[j - 1], lo, hi));
                }
                if j < nd.keys@.len() {
                    assert(in_bounds(nd.keys@[j], lo, hi));
                }
            }
        },
    }
}

/// Every key of a well-formed subtree lies within the subtree's window.
pub proof fn lemma_node_map_bounds<V>(
    n: Node<V>,
    order: nat,
    min: nat,
    h: nat,
    lo: Option<KeySize>,
    hi: Option<KeySize>,
    low: nat,
)
    requires
        node_ok(n, order, min, h, lo, hi, low),
    ensures
        forall|k: KeySize| node_map(n).contains_key(k) ==> in_bounds(k, lo, hi),
{
    lemma_node_ok_search(n, order, min, h, lo, hi, low);
    lemma_search_map_bounds(n, lo, hi);
}

/// When `k` can lie in the map of child `j` alone, the children's map
/// answers `k` exactly as child `j` does.
pub proof fn lemma_children_map_at<V>(cs: Seq<Box<Node<V>>>, j: int, k: KeySize)
    requires
        0 <= j < cs.len(),
        forall|j2: int|
            0 <= j2 < cs.len() && j2 != j ==> !node_map(*(#[trigger] cs[j2])).contains_key(k),
    ensures
        children_map(cs).contains_key(k) == node_map(*cs[j]).contains_key(k),
        node_map(*cs[j]).contains_key(k) ==> children_map(cs)[k] == node_map(*cs[j])[k],
    decreases cs,
{
    if j == cs.len() - 1 {
        lemma_children_map_contains(cs.drop_last(), k);
        if children_map(cs.drop_last()).contains_key(k) {
            let j2 = choose|j2: int|
                0 <= j2 < cs.drop_last().len() && node_map(
                    *(#[trigger] cs.drop_last()[j2]),
                ).contains_key(k);
            assert(node_map(*cs[j2]).contains_key(k));
        }
    } else {
        assert(forall|j2: int|
            0 <= j2 < cs.drop_last().len() && j2 != j ==> cs.drop_last()[j2] == cs[j2]);
        lemma_children_map_at(cs.drop_last(), j, k);
        assert(!node_map(*cs[cs.len() - 1]).contains_key(k));
    }
}

/// The leaf that routing reaches for `key` answers `key` exactly as the
/// whole searchable subtree does.
pub proof fn lemma_find_leaf_map<V>(
    n: Node<V>,
    lo: Option<KeySize>,
    hi: Option<KeySize>,
    key: KeySize,
)
    requires
        search_ok(n, lo, hi),
        in_bounds(key, lo, hi),
    ensures
        ({
            let l = spec_find_leaf(n, key);
            &&& l.keys@.len() == l.values@.len()
            &&& sorted_strict(l.keys@)
            &&& (node_map(n).contains_key(key) <==> l.keys@.contains(key))
            &&& forall|i: int|
                0 <= i < l.keys@.len() && l.keys@[i] == key ==> node_map(n).contains_key(key)
                    && node_map(n)[key] == l.values@[i]
        }),
    decreases n,
{
    match n {
        Node::Leaf(l) => {
            lemma_kv_contains(l.keys@, l.values@, key);
            crate::kvmap::lemma_sorted_no_duplicates(l.keys@);
            assert forall|i: int|
                0 <= i < l.keys@.len() && l.keys@[i] == key implies node_map(n).contains_key(key)
                && node_map(n)[key] == l.values@[i] by {
                crate::kvmap::lemma_kv_lookup(l.keys@, l.values@, i);
            }
        },
        Node::Internal(nd) => {
            lemma_route_properties(nd.keys@, key);
            let j = route(nd.keys@, key);
            let clo = child_lo(nd.keys@, j, lo);
            let chi = child_hi(nd.keys@, j, hi);
            assert(search_ok(*nd.children@[j], clo, chi));
            assert(in_bounds(key, clo, chi));
            lemma_find_leaf_map(*nd.children@[j], clo, chi, key);
            assert forall|j2: int|
                0 <= j2 < nd.children@.len() && j2 != j implies !node_map(
                *(#[trigger] nd.children@[j2]),
            ).contains_key(key) by {
                lemma_search_map_bounds(
                    *nd.children@[j2],
                    child_lo(nd.keys@, j2, lo),
                    child_hi(nd.keys@, j2, hi),
                );
                if node_map(*nd.children@[j2]).contains_key(key) {
                    assert(in_bounds(key, child_lo(nd.keys@, j2, lo), child_hi(nd.keys@, j2, hi)));
                    if j2 < j {
                        // the window of an earlier child ends at keys[j2] <= key
                        assert(nd.keys@[j2] <= key);
                        assert(key < nd.keys@[j2]);
                    } else {
                        // the window of a later child starts at keys[j2 - 1] >= keys[j] > key
                        assert(key < nd.keys@[j]);
                        assert(nd.keys@[j] <= nd.keys@[j2 - 1]);
                        assert(nd.keys@[j2 - 1] <= key);
                    }
                    assert(false);
                }
            }
            lemma_children_map_at(nd.children@, j, key);
        },
    }
}

/// A key can lie only in the child that routing selects for it.
pub proof fn lemma_routed_key_only_in_child<V>(
    nd: InternalNode<V>,
    order: nat,
    min: nat,
    h: nat,
    lo: Option<KeySize>,
    hi: Option<KeySize>,
    low: nat,
    key: KeySize,
)
    requires
        node_ok(Node::Internal(nd), order, min, h, lo, hi, low),
        in_bounds(key, lo, hi),
    ensures
        forall|j2: int|
            0 <= j2 < nd.children@.len() && j2 != route(nd.keys@, key) ==> !node_map(
                *(#[trigger] nd.children@[j2]),
            ).contains_key(key),
{
    lemma_route_properties(nd.keys@, key);
    let j = route(nd.keys@, key);
    assert forall|j2: int|
        0 <= j2 < nd.children@.len() && j2 != j implies !node_map(
        *(#[trigger] nd.children@[j2]),
    ).contains_key(key) by {
        lemma_node_map_bounds(
            *nd.children@[j2],
            order,
            min,
            (h - 1) as nat,
            child_lo(nd.keys@, j2, lo),
            child_hi(nd.keys@, j2, hi),
            min,
        );
        if node_map(*nd.children@[j2]).contains_key(key) {
            assert(in_bounds(key, child_lo(nd.keys@, j2, lo), child_hi(nd.keys@, j2, hi)));
            if j2 < j {
                assert(nd.keys@[j2] <= key);
                assert(key < nd.keys@[j2]);
            } else {
                assert(key < nd.keys@[j]);
                assert(nd.keys@[j] <= nd.keys@[j2 - 1]);
                assert(nd.keys@[j2 - 1] <= key);
            }
            assert(false);
        }
    }
}

/// A well-formed subtree's height is determined by its structure.
pub proof fn lemma_node_ok_height<V>(
    n: Node<V>,
    order: nat,
    min: nat,
    h: nat,
    lo: Option<KeySize>,
    hi: Option<KeySize>,
    low: nat,
)
    requires
        node_ok(n, order, min, h, lo, hi, low),
    ensures
        node_height(n) == h,
    decreases n,
{
    match n {
        Node::Leaf(_) => {},
        Node::Internal(nd) => {
            assert(node_ok(
                *nd.children@[0],
                order,
                min,
                (h - 1) as nat,
                child_lo(nd.keys@, 0, lo),
                child_hi(nd.keys@, 0, hi),
                min,
            ));
            lemma_node_ok_height(
                *nd.children@[0],
                order,
                min,
                (h - 1) as nat,
                child_lo(nd.keys@, 0, lo),
                child_hi(nd.keys@, 0, hi),
                min,
            );
        },
    }
}

pub proof fn lemma_children_map_singleton<V>(c: Box<Node<V>>)
    ensures
        children_map(seq![c]) == node_map(*c),
{
    let s = seq![c];
    assert(s.len() == 1);
    assert(s.last() == c);
    assert(s.drop_last() =~= Seq::<Box<Node<V>>>::empty());
    assert(children_map(s.drop_last()) == Map::<KeySize, V>::empty());
    assert(children_map(s) == children_map(s.drop_last()).union_prefer_right(node_map(*s.last())));
    assert(Map::<KeySize, V>::empty().union_prefer_right(node_map(*c)) =~= node_map(*c));
}

/// Replacing child `j` by one whose map has `k` bound to `v` inserts the
/// binding into the children's map, provided no other child knows `k`.
pub proof fn lemma_children_map_update_insert<V>(
    cs: Seq<Box<Node<V>>>,
    cs2: Seq<Box<Node<V>>>,
    j: int,
    k: KeySize,
    v: V,
)
    requires
        0 <= j < cs.len(),
        cs2.len() == cs.len(),
        forall|i: int| 0 <= i < cs.len() && i != j ==> cs2[i] == cs[i],
        node_map(*cs2[j]) == node_map(*cs[j]).insert(k, v),
        forall|i: int| 0 <= i < cs.len() && i != j ==> !node_map(*(#[trigger] cs[i])).contains_key(k),
    ensures
        children_map(cs2) == children_map(cs).insert(k, v),
    decreases cs.len(),
{
    if j == cs.len() - 1 {
        assert(cs2.drop_last() =~= cs.drop_last());
        assert(children_map(cs.drop_last()).union_prefer_right(
            node_map(*cs[j]).insert(k, v),
        ) =~= children_map(cs.drop_last()).union_prefer_right(node_map(*cs[j])).insert(k, v));
    } else {
        assert(cs2.last() == cs.last());
        assert(forall|i: int|
            0 <= i < cs.drop_last().len() && i != j ==> cs2.drop_last()[i] == cs.drop_last()[i]);
        assert(cs2.drop_last()[j] == cs2[j]);
        assert(forall|i: int|
            0 <= i < cs.drop_last().len() && i != j ==> !node_map(
                *(#[trigger] cs.drop_last()[i]),
            ).contains_key(k));
        lemma_children_map_update_insert(cs.drop_last(), cs2.drop_last(), j, k, v);
        assert(!node_map(*cs.last()).contains_key(k));
        assert(children_map(cs.drop_last()).insert(k, v).union_prefer_right(
            node_map(*cs.last()),
        ) =~= children_map(cs.drop_last()).union_prefer_right(node_map(*cs.last())).insert(k, v));
    }
}

/// Replacing child `j` by two children whose joint map has `k` bound to `v`
/// inserts the binding into the children's map, provided no other child
/// knows `k`.
pub proof fn lemma_children_map_split_insert<V>(
    cs: Seq<Box<Node<V>>>,
    cs2: Seq<Box<Node<V>>>,
    j: int,
    k: KeySize,
    v: V,
)
    requires
        0 <= j < cs.len(),
        cs2.len() == cs.len() + 1,
        forall|i: int| 0 <= i < j ==> cs2[i] == cs[i],
        forall|i: int| j + 2 <= i < cs2.len() ==> cs2[i] == cs[i - 1],
        node_map(*cs2[j]).union_prefer_right(node_map(*cs2[j + 1])) == node_map(*cs[j]).insert(
            k,
            v,
        ),
        forall|i: int| 0 <= i < cs.len() && i != j ==> !node_map(*(#[trigger] cs[i])).contains_key(k),
    ensures
        children_map(cs2) == children_map(cs).insert(k, v),
{
    let pre = cs.subrange(0, j);
    let suf = cs.subrange(j + 1, cs.len() as int);
    assert(cs =~= pre + seq![cs[j]] + suf);
    assert(cs2 =~= pre + seq![cs2[j], cs2[j + 1]] + suf);
    lemma_children_map_concat(pre + seq![cs[j]], suf);
    lemma_children_map_concat(pre, seq![cs[j]]);
    lemma_children_map_concat(pre + seq![cs2[j], cs2[j + 1]], suf);
    lemma_children_map_concat(pre, seq![cs2[j], cs2[j + 1]]);
    lemma_children_map_singleton(cs[j]);
    assert(seq![cs2[j], cs2[j + 1]].drop_last() =~= seq![cs2[j]]);
    lemma_children_map_singleton(cs2[j]);
    assert(children_map(seq![cs2[j], cs2[j + 1]]) == node_map(*cs2[j]).union_prefer_right(
        node_map(*cs2[j + 1]),
    ));
    // no key `k` anywhere in the prefix or the suffix
    assert(!children_map(pre).contains_key(k)) by {
        lemma_children_map_contains(pre, k);
        if children_map(pre).contains_key(k) {
            let i = choose|i: int|
                0 <= i < pre.len() && node_map(*(#[trigger] pre[i])).contains_key(k);
            assert(!node_map(*cs[i]).contains_key(k));
        }
    }
    assert(!children_map(suf).contains_key(k)) by {
        lemma_children_map_contains(suf, k);
        if children_map(suf).contains_key(k) {
            let i = choose|i: int|
                0 <= i < suf.len() && node_map(*(#[trigger] suf[i])).contains_key(k);
            assert(suf[i] == cs[j + 1 + i]);
            assert(!node_map(*cs[j + 1 + i]).contains_key(k));
        }
    }
    assert(children_map(pre).union_prefer_right(node_map(*cs[j]).insert(k, v)).union_prefer_right(
        children_map(suf),
    ) =~= children_map(pre).union_prefer_right(node_map(*cs[j])).union_prefer_right(
        children_map(suf),
    ).insert(k, v));
}

/// `b` is `a` with the leaf that routing reaches for `key` replaced by `l`,
/// and nothing else changed.
pub open spec fn is_leaf_replaced<V>(a: Node<V>, b: Node<V>, key: KeySize, l: LeafNode<V>) -> bool
    decreases a,
{
    match a {
        Node::Leaf(_) => b == Node::Leaf(l),
        Node::Internal(nd) => match b {
            Node::Internal(nd2) => {
                let j = route(nd.keys@, key);
                &&& nd2.keys@ == nd.keys@
                &&& nd2.children@.len() == nd.children@.len()
                &&& 0 <= j < nd.children@.len()
                &&& forall|i: int|
                    0 <= i < nd.children@.len() && i != j ==> nd2.children@[i] == nd.children@[i]
                &&& is_leaf_replaced(*nd.children@[j], *nd2.children@[j], key, l)
            },
            Node::Leaf(_) => false,
        },
    }
}

/// Splitting the child list splits the represented map.
pub proof fn lemma_children_map_concat<V>(cs1: Seq<Box<Node<V>>>, cs2: Seq<Box<Node<V>>>)
    ensures
        children_map(cs1 + cs2) == children_map(cs1).union_prefer_right(children_map(cs2)),
    decreases cs2.len(),
{
    if cs2.len() == 0 {
        assert(cs1 + cs2 =~= cs1);
        assert(children_map(cs1).union_prefer_right(children_map(cs2)) =~= children_map(cs1));
    } else {
        assert((cs1 + cs2).drop_last() =~= cs1 + cs2.drop_last());
        assert((cs1 + cs2).last() == cs2.last());
        lemma_children_map_concat(cs1, cs2.drop_last());
        assert(children_map(cs1).union_prefer_right(children_map(cs2.drop_last())).union_prefer_right(
            node_map(*cs2.last()),
        ) =~= children_map(cs1).union_prefer_right(
            children_map(cs2.drop_last()).union_prefer_right(node_map(*cs2.last())),
        ));
    }
}

} // verus!
