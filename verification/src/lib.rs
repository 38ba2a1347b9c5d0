//! Storage primitives of a blockchain virtual machine: a persistent, content-addressed
//! array mapped trie over a block store, and the saturating gas counter that meters it.

pub mod amt;
pub mod codec;
pub mod error;
pub mod gas;
pub mod laws;
pub mod limits;
pub mod node;
pub mod root;
pub mod store;
