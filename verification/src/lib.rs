//! Global-state storage core: the canonical binary codec ("bytesrepr") and the
//! content-addressed Merkle Patricia Trie built on top of it.

pub mod bytesrepr;
pub mod deploy;
pub mod digest;
pub mod named_key;
pub mod network;
pub mod ordered;
pub mod phase;
pub mod ratio;
pub mod semver;
pub mod state;
pub mod store;
pub mod trie;
