//! An append-only B+ tree index whose nodes live at integer offsets in a
//! pluggable store and are brought into memory on first use.
//!
//! [`offset_tree::OffsetTree`] is the entry point. It maps keys of any
//! ordered type to 64-bit values, reads its nodes through a
//! [`StorageBackend`] when a search first reaches them, and changes them in
//! memory only: what the store holds is never overwritten.
//!
//! The tree is verified against the meaning given in [`tree_model`]: a lookup
//! returns what the tree holds, an insertion adds one entry and keeps the
//! tree a well-formed B+ tree. [`outline`] says node by node what an
//! insertion makes of the tree: where the pair goes, when a node is split
//! and where it is cut. [`marks`] says node by node which nodes are in
//! memory and which are marked as changed, and that a lookup and an
//! insertion touch those on the way to the key alone. [`tree_laws`] draws
//! the consequences a user relies on; the remaining modules hold the lemmas
//! behind the proofs.

pub mod key_order;
pub mod marks;
pub mod offset_tree;
pub mod outline;
pub mod search_lemmas;
pub mod split_lemmas;
pub mod storage_backend;
pub mod tree_laws;
pub mod tree_model;
pub mod update_lemmas;

pub use storage_backend::StorageBackend;
