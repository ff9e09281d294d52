//! Read-only traversal: exporting the keys of the whole tree in ascending
//! order, for visualization and round-tripping by outside collaborators.

use vstd::prelude::*;

use crate::interp::child_hi;
use crate::interp::child_lo;
use crate::interp::in_bounds;
use crate::interp::lemma_children_map_contains;
use crate::interp::lemma_node_ok_links;
use crate::interp::links_ok;
use crate::interp::node_map;
use crate::interp::node_ok;
use crate::kvmap::lemma_kv_contains;
use crate::kvmap::sorted_strict;
use crate::models::BPlusTree;
use crate::models::KeySize;
use crate::models::Node;

verus! {

broadcast use vstd::std_specs::vec::group_vec_axioms;

/// The keys of the subtree at `n`, leftmost leaf first.
pub open spec fn inorder_keys<V>(n: Node<V>) -> Seq<KeySize>
    decreases n,
{
    match n {
        Node::Leaf(l) => l.keys@,
        Node::Internal(nd) => children_inorder(nd.children@),
    }
}

/// The keys of the children `cs`, leftmost first.
pub open spec fn children_inorder<V>(cs: Seq<Box<Node<V>>>) -> Seq<KeySize>
    decreases cs,
{
    if cs.len() == 0 {
        Seq::empty()
    } else {
        children_inorder(cs.drop_last()) + inorder_keys(*cs.last())
    }
}

proof fn lemma_children_inorder_contains<V>(cs: Seq<Box<Node<V>>>, k: KeySize)
    ensures
        children_inorder(cs).contains(k) <==> exists|j: int|
            0 <= j < cs.len() && inorder_keys(*(#[trigger] cs[j])).contains(k),
    decreases cs,
{
    if cs.len() > 0 {
        lemma_children_inorder_contains(cs.drop_last(), k);
        if children_inorder(cs).contains(k) {
            if inorder_keys(*cs.last()).contains(k) {
                assert(inorder_keys(*cs[cs.len() - 1]).contains(k));
            } else {
                assert(children_inorder(cs.drop_last()).contains(k)) by {
                    let i = choose|i: int|
                        0 <= i < children_inorder(cs).len() && children_inorder(cs)[i] == k;
                    if i < children_inorder(cs.drop_last()).len() {
                        assert(children_inorder(cs.drop_last())[i] == k);
                    } else {
                        assert(inorder_keys(*cs.last())[i - children_inorder(
                            cs.drop_last(),
                        ).len()] == k);
                    }
                }
                let j = choose|j: int|
                    0 <= j < cs.drop_last().len() && inorder_keys(
                        *(#[trigger] cs.drop_last()[j]),
                    ).contains(k);
                assert(inorder_keys(*cs[j]).contains(k));
            }
        }
        if exists|j: int| 0 <= j < cs.len() && inorder_keys(*(#[trigger] cs[j])).contains(k) {
            let j = choose|j: int|
                0 <= j < cs.len() && inorder_keys(*(#[trigger] cs[j])).contains(k);
            if j == cs.len() - 1 {
                let i = choose|i: int|
                    0 <= i < inorder_keys(*cs.last()).len() && inorder_keys(*cs.last())[i] == k;
                assert(children_inorder(cs)[children_inorder(cs.drop_last()).len() + i] == k);
            } else {
                assert(inorder_keys(*cs.drop_last()[j]).contains(k));
                let i = choose|i: int|
                    0 <= i < children_inorder(cs.drop_last()).len() && children_inorder(
                        cs.drop_last(),
                    )[i] == k;
                assert(children_inorder(cs)[i] == k);
            }
        }
    }
}

/// A subtree's in-order keys are exactly the keys its map binds.
proof fn lemma_inorder_matches_map<V>(n: Node<V>, k: KeySize)
    requires
        links_ok(n),
    ensures
        inorder_keys(n).contains(k) <==> node_map(n).contains_key(k),
    decreases n,
{
    match n {
        Node::Leaf(l) => {
            lemma_kv_contains(l.keys@, l.values@, k);
        },
        Node::Internal(nd) => {
            lemma_children_inorder_contains(nd.children@, k);
            lemma_children_map_contains(nd.children@, k);
            assert forall|j: int| 0 <= j < nd.children@.len() implies (inorder_keys(
                *(#[trigger] nd.children@[j]),
            ).contains(k) <==> node_map(*nd.children@[j]).contains_key(k)) by {
                lemma_inorder_matches_map(*nd.children@[j], k);
            }
        },
    }
}

proof fn lemma_sorted_concat(a: Seq<KeySize>, b: Seq<KeySize>)
    requires
        sorted_strict(a),
        sorted_strict(b),
        forall|i: int, j: int| 0 <= i < a.len() && 0 <= j < b.len() ==> a[i] < b[j],
    ensures
        sorted_strict(a + b),
{
    assert forall|i: int, j: int| 0 <= i < j < (a + b).len() implies (a + b)[i] < (a + b)[j] by {
        if i < a.len() && j >= a.len() {
            assert((a + b)[i] == a[i]);
            assert((a + b)[j] == b[j - a.len()]);
        }
    }
}

/// Under well-formedness, the in-order key sequence is strictly ascending
/// and confined to the subtree's window.
proof fn lemma_inorder_sorted<V>(
    n: Node<V>,
    order: nat,
    min: nat,
    h: nat,
    lo: Option<KeySize>,
    hi: Option<KeySize>,
    low: nat,
)
    requires
        node_ok(n, order, min, h, lo, hi, low),
    ensures
        sorted_strict(inorder_keys(n)),
        forall|i: int|
            0 <= i < inorder_keys(n).len() ==> in_bounds(#[trigger] inorder_keys(n)[i], lo, hi),
    decreases n, 1nat,
{
    match n {
        Node::Leaf(_) => {},
        Node::Internal(nd) => {
            lemma_children_inorder_sorted(nd, order, min, h, lo, hi, low, nd.children@.len() as int);
            assert(nd.children@.subrange(0, nd.children@.len() as int) =~= nd.children@);
        },
    }
}

/// The in-order keys of the first `j` children are ascending, in-window,
/// and strictly below the window of child `j`.
proof fn lemma_children_inorder_sorted<V>(
    nd: crate::models::InternalNode<V>,
    order: nat,
    min: nat,
    h: nat,
    lo: Option<KeySize>,
    hi: Option<KeySize>,
    low: nat,
    j: int,
)
    requires
        node_ok(Node::Internal(nd), order, min, h, lo, hi, low),
        0 <= j <= nd.children@.len(),
    ensures
        sorted_strict(children_inorder(nd.children@.subrange(0, j))),
        forall|i: int|
            0 <= i < children_inorder(nd.children@.subrange(0, j)).len() ==> in_bounds(
                #[trigger] children_inorder(nd.children@.subrange(0, j))[i],
                lo,
                hi,
            ),
        forall|i: int|
            0 <= i < children_inorder(nd.children@.subrange(0, j)).len() && j
                <= nd.keys@.len() && j >= 1 ==> children_inorder(nd.children@.subrange(0, j))[i]
                < nd.keys@[j - 1],
    decreases Node::Internal(nd), 0nat, j,
{
    let cs = nd.children@;
    if j == 0 {
        assert(cs.subrange(0, 0) =~= Seq::<Box<Node<V>>>::empty());
    } else {
        lemma_children_inorder_sorted(nd, order, min, h, lo, hi, low, j - 1);
        let pre = cs.subrange(0, j - 1);
        let cur = cs.subrange(0, j);
        assert(cur.drop_last() =~= pre);
        assert(cur.last() == cs[j - 1]);
        let clo = child_lo(nd.keys@, j - 1, lo);
        let chi = child_hi(nd.keys@, j - 1, hi);
        assert(node_ok(*cs[j - 1], order, min, (h - 1) as nat, clo, chi, min));
        lemma_inorder_sorted(*cs[j - 1], order, min, (h - 1) as nat, clo, chi, min);
        lemma_node_ok_links(*cs[j - 1], order, min, (h - 1) as nat, clo, chi, min);
        // every key of child j-1 sits in its window, which opens at or
        // after keys[j-2] and closes before keys[j-1]
        assert forall|i: int, i2: int|
            0 <= i < children_inorder(pre).len() && 0 <= i2 < inorder_keys(*cs[j - 1]).len()
            implies #[trigger] children_inorder(pre)[i] < #[trigger] inorder_keys(*cs[j - 1])[i2]
            by {
            assert(in_bounds(inorder_keys(*cs[j - 1])[i2], clo, chi));
            if j >= 2 {
                assert(children_inorder(pre)[i] < nd.keys@[j - 2]);
            }
        }
        lemma_sorted_concat(children_inorder(pre), inorder_keys(*cs[j - 1]));
        assert forall|i: int| 0 <= i < children_inorder(cur).len() implies in_bounds(
            #[trigger] children_inorder(cur)[i],
            lo,
            hi,
        ) by {
            if i < children_inorder(pre).len() {
                assert(children_inorder(cur)[i] == children_inorder(pre)[i]);
            } else {
                let t = i - children_inorder(pre).len();
                assert(children_inorder(cur)[i] == inorder_keys(*cs[j - 1])[t]);
                assert(in_bounds(inorder_keys(*cs[j - 1])[t], clo, chi));
                if j >= 2 {
                    assert(in_bounds(nd.keys@[j - 2], lo, hi) || crate::interp::routing_in_bounds(
                        nd.keys@[j - 2],
                        lo,
                        hi,
                    ));
                    assert(crate::interp::routing_in_bounds(nd.keys@[j - 2], lo, hi));
                }
                if j - 1 < nd.keys@.len() {
                    assert(crate::interp::routing_in_bounds(nd.keys@[j - 1], lo, hi));
                }
            }
        }
        assert forall|i: int|
            0 <= i < children_inorder(cur).len() && j <= nd.keys@.len() && j >= 1 implies
            children_inorder(cur)[i] < nd.keys@[j - 1] by {
            if i < children_inorder(pre).len() {
                assert(children_inorder(cur)[i] == children_inorder(pre)[i]);
                if j >= 2 {
                    assert(children_inorder(pre)[i] < nd.keys@[j - 2]);
                    assert(nd.keys@[j - 2] < nd.keys@[j - 1]);
                }
            } else {
                let t = i - children_inorder(pre).len();
                assert(children_inorder(cur)[i] == inorder_keys(*cs[j - 1])[t]);
                assert(in_bounds(inorder_keys(*cs[j - 1])[t], clo, chi));
            }
        }
    }
}

impl<V> BPlusTree<V> {
    /// Appends the keys of the subtree at `node` to `out`, leftmost first.
    fn collect_keys_rec(node: &Node<V>, out: &mut Vec<KeySize>)
        requires
            links_ok(*node),
        ensures
            final(out)@ == old(out)@ + inorder_keys(*node),
        decreases *node,
    {
        match node {
            Node::Leaf(l) => {
                let mut i: usize = 0;
                while i < l.keys.len()
                    invariant
                        0 <= i <= l.keys@.len(),
                        out@ == old(out)@ + l.keys@.subrange(0, i as int),
                    decreases l.keys@.len() - i,
                {
                    out.push(l.keys[i]);
                    proof {
                        assert(out@ =~= old(out)@ + l.keys@.subrange(0, i + 1));
                    }
                    i = i + 1;
                }
                proof {
                    assert(l.keys@.subrange(0, l.keys@.len() as int) =~= l.keys@);
                }
            },
            Node::Internal(nd) => {
                let mut j: usize = 0;
                proof {
                    assert(nd.children@.subrange(0, 0) =~= Seq::<Box<Node<V>>>::empty());
                }
                while j < nd.children.len()
                    invariant
                        0 <= j <= nd.children@.len(),
                        links_ok(*node),
                        *node matches Node::Internal(nd2) && nd2 == nd,
                        out@ == old(out)@ + children_inorder(nd.children@.subrange(0, j as int)),
                    decreases nd.children@.len() - j,
                {
                    proof {
                        assert(links_ok(*nd.children@[j as int]));
                    }
                    Self::collect_keys_rec(&*nd.children[j], out);
                    proof {
                        let cur = nd.children@.subrange(0, j + 1);
                        assert(cur.drop_last() =~= nd.children@.subrange(0, j as int));
                        assert(cur.last() == nd.children@[j as int]);
                        assert(out@ =~= old(out)@ + children_inorder(cur));
                    }
                    j = j + 1;
                }
                proof {
                    assert(nd.children@.subrange(0, nd.children@.len() as int) =~= nd.children@);
                }
            },
        }
    }

    /// Exports every key of the tree in ascending order: the read-only
    /// traversal that display and persistence layers consume.
    pub fn keys_in_order(&self) -> (r: Vec<KeySize>)
        requires
            self.wf(),
        ensures
            sorted_strict(r@),
            forall|k: KeySize| r@.contains(k) <==> self@.contains_key(k),
    {
        proof {
            lemma_node_ok_links(
                self.root,
                self.order as nat,
                self.min_elements as nat,
                crate::interp::node_height(self.root),
                Option::None,
                Option::None,
                self.root_low(),
            );
            lemma_inorder_sorted(
                self.root,
                self.order as nat,
                self.min_elements as nat,
                crate::interp::node_height(self.root),
                Option::None,
                Option::None,
                self.root_low(),
            );
            assert forall|k: KeySize|
                inorder_keys(self.root).contains(k) <==> #[trigger] self@.contains_key(k) by {
                lemma_inorder_matches_map(self.root, k);
            }
        }
        let mut out: Vec<KeySize> = Vec::new();
        Self::collect_keys_rec(&self.root, &mut out);
        out
    }
}

} // verus!
