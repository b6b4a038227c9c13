//! An arena-allocated hash tree over sorted `u64` keys, and the hash-comparison
//! walk that localises a divergent leaf between two replicas of it.

pub mod adjacency;
pub mod decimal;
pub mod hashing;
pub mod index;
pub mod laws;
pub mod stable_binary_tree;
pub mod tree;
pub mod vector_clock;
pub mod walk;

pub use adjacency::AdjacencyMatrix;
pub use hashing::{hash, hash_two};
pub use stable_binary_tree::StableBinaryTree;
pub use tree::{search_index, Child, MerkleTree, Node, Value};
pub use vector_clock::VectorClock;
pub use walk::{find_divergence, FetchError, Walk, WalkStep};
