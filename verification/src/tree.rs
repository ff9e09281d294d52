//! The aggregate root: tree-level well-formedness, the `Map` view, and
//! construction.

use vstd::prelude::*;

use crate::interp::node_height;
use crate::interp::node_map;
use crate::interp::node_ok;
use crate::models::BPlusTree;
use crate::models::KeySize;
use crate::models::LeafNode;
use crate::models::Node;
use crate::models::TreeError;

verus! {

impl<V> BPlusTree<V> {
    /// A configuration under which splitting and merging can always restore
    /// the occupancy invariant: every split half and every merged node then
    /// holds between `min_elements` and `order` keys.
    pub open spec fn cfg_ok(self) -> bool {
        &&& 1 <= self.min_elements
        &&& 2 * self.min_elements <= self.order
        &&& self.order < usize::MAX
    }

    /// The occupancy floor of the root itself: an empty leaf is a valid
    /// root, and a root that is internal needs at least one routing key.
    pub open spec fn root_low(self) -> nat {
        match self.root {
            Node::Leaf(_) => 0,
            Node::Internal(_) => 1,
        }
    }

    /// The invariants that hold after every completed public operation.
    pub open spec fn wf(self) -> bool {
        &&& self.cfg_ok()
        &&& node_ok(
            self.root,
            self.order as nat,
            self.min_elements as nat,
            node_height(self.root),
            Option::None,
            Option::None,
            self.root_low(),
        )
    }

    /// What a lookup needs of this tree: sound routing structure, with no
    /// demand on occupancy or configuration.  Every well-formed tree is
    /// searchable.
    pub open spec fn searchable(self) -> bool {
        crate::interp::search_ok(self.root, Option::None, Option::None)
    }

    /// The key/value map the whole tree represents.
    pub open spec fn as_map(self) -> Map<KeySize, V> {
        node_map(self.root)
    }

    /// Reports whether an `order`/`min_elements` combination is one under
    /// which every split and merge can restore the occupancy invariant:
    /// the validation a caller performs at construction time.
    pub fn is_valid_config(min_elements: usize, order: usize) -> (r: bool)
        ensures
            r <==> (1 <= min_elements && 2 * min_elements <= order && order < usize::MAX),
    {
        1 <= min_elements && min_elements <= order / 2 && order < usize::MAX
    }

    /// Creates an empty tree — the root an empty leaf — under the given
    /// configuration.  A combination under which splitting and merging
    /// could not maintain the occupancy invariant is rejected here, at
    /// construction time, and is never discovered later: construction
    /// succeeds exactly on the valid configurations, and a tree it returns
    /// is well-formed and empty.
    pub fn create(min_elements: usize, order: usize) -> (r: Result<Self, TreeError>)
        ensures
            match r {
                Result::Ok(t) => {
                    &&& 1 <= min_elements && 2 * min_elements <= order && order < usize::MAX
                    &&& t.min_elements == min_elements
                    &&& t.order == order
                    &&& t.root matches Node::Leaf(l) && l.keys@.len() == 0 && l.values@.len() == 0
                    &&& t.arena@.len() == 0
                    &&& t.wf()
                    &&& t@ == Map::<KeySize, V>::empty()
                },
                Result::Err(e) => {
                    &&& !(1 <= min_elements && 2 * min_elements <= order && order < usize::MAX)
                    &&& e == TreeError::InvalidConfiguration
                },
            },
    {
        if Self::is_valid_config(min_elements, order) {
            let root = Node::Leaf(LeafNode { keys: Vec::new(), values: Vec::new() });
            let t = Self::new(min_elements, order, root, Vec::new());
            proof {
                assert(t@ =~= Map::<KeySize, V>::empty());
            }
            Result::Ok(t)
        } else {
            Result::Err(TreeError::InvalidConfiguration)
        }
    }

    /// Assembles a tree around the given, possibly pre-built node graph:
    /// the node-model constructor, which records the parameters as given.
    /// Validated construction of an empty tree is `create`; built over an
    /// empty leaf and a valid configuration, the tree assembled here is
    /// likewise well-formed from the start.  The mutating operations
    /// assume `wf()`, which holds only under a valid configuration.
    pub fn new(min_elements: usize, order: usize, root: Node<V>, arena: Vec<Node<V>>) -> (t: Self)
        ensures
            t.min_elements == min_elements,
            t.order == order,
            t.root == root,
            t.arena == arena,
            t@ == node_map(root),
            (match root {
                Node::Leaf(l) => l.keys@.len() == 0 && l.values@.len() == 0,
                Node::Internal(_) => false,
            } && 1 <= min_elements && 2 * min_elements <= order && order < usize::MAX) ==> t.wf(),
    {
        let t = BPlusTree { root, order, min_elements, arena };
        proof {
            let ghost groot = t.root;
            match groot {
                Node::Leaf(l) => {
                    if l.keys@.len() == 0 && l.values@.len() == 0 && 1 <= min_elements && 2
                        * min_elements <= order && order < usize::MAX {
                        assert(node_ok(
                            groot,
                            order as nat,
                            min_elements as nat,
                            node_height(t.root),
                            Option::None,
                            Option::None,
                            0nat,
                        ));
                    }
                },
                Node::Internal(_) => {},
            }
        }
        t
    }
}

impl<V> View for BPlusTree<V> {
    type V = Map<KeySize, V>;

    open spec fn view(&self) -> Map<KeySize, V> {
        self.as_map()
    }
}

} // verus!
