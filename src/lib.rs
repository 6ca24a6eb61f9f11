//! An append-only log addressed through an incremental flat Merkle tree, with
//! its tree, data, bitfield and signature regions kept in byte stores.

pub mod error;
pub mod feed;
pub mod merkle;
pub mod node;
pub mod storage;
pub mod store;
pub mod tree;

pub use error::Error;
pub use feed::{Feed, KeyPair};
pub use merkle::Merkle;
pub use node::Node;
pub use storage::{DataOffset, Storage, Store};
pub use store::{ByteStore, MemoryStore};
pub use tree::{full_roots, leaf_to_node};
