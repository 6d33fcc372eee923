//! Merkle-tree authentication paths for stateful hash-based signatures.
//!
//! A binary hash tree of height `H` is built over `2^H` leaves. For each leaf,
//! taken in increasing order, the tree hands out the sibling nodes on the way
//! from that leaf to the root. The nodes are produced by the treehash
//! algorithm, which keeps one small stack per tree level and never holds the
//! whole tree.
mod advance;
pub mod error;
pub mod hash;
pub mod merkle_tree;
pub mod model;
pub mod node;
pub mod path;
pub mod powers;
pub mod root;
pub mod schedule;
pub mod stack;
pub mod tree_hash;

pub use error::Error;
pub use merkle_tree::MerkleTree;
pub use node::is_even;
pub use node::Leaf;
pub use node::Level;
pub use node::Node;
pub use root::calculate_root;
pub use root::path_is_defined;
pub use root::try_calculate_root;
pub use stack::Stack;
pub use tree_hash::TreeHash;
