//! An in-memory ordered key-value index implemented as a B+ tree.
//!
//! Leaves hold the key/value payload in parallel sorted vectors; internal
//! nodes hold only routing keys and child links.  The public operations —
//! insert (with node splitting and key promotion), lookup, update, and
//! delete (with sibling borrowing and merging on underflow) — are verified
//! against a `Map<KeySize, V>` abstraction of the whole tree, and each of
//! them preserves the structural invariants: all leaves at equal depth,
//! node occupancy between `min_elements` and `order`, and routing keys
//! that partition the children.

pub mod delete;
pub mod insert;
pub mod interp;
pub mod kvmap;
pub mod laws;
pub mod leaf;
pub mod lookup;
pub mod models;
pub mod traverse;
pub mod tree;
pub mod update;

pub use models::BPlusTree;
pub use models::DeleteResult;
pub use models::InternalNode;
pub use models::KeySize;
pub use models::LeafNode;
pub use models::Node;
pub use models::TreeError;
