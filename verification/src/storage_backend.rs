//! The store the tree reads its nodes from, and the record it keeps there.

use vstd::prelude::*;

verus! {

/// Declares `std::io::Error`, which the error types below carry. Nothing
/// is claimed of such a value: it is only handed on.
#[verifier::external_type_specification]
#[verifier::external_body]
pub struct ExIoError(std::io::Error);

/// Why a record could not be read back.
#[derive(Debug)]
pub enum DecodingError {
    /// The bytes at the offset do not form a record.
    Corrupt(String),
    /// The store could not be read.
    IoError(std::io::Error),
}

/// Why a record could not be written.
#[derive(Debug)]
pub enum EncodingError {
    /// The record could not be serialized.
    Unknown(String),
    /// The store could not be written.
    IoError(std::io::Error),
}

/// The role a node plays in the tree.
#[derive(Debug, Clone, Copy, PartialEq, Eq, PartialOrd, Ord, Structural)]
pub enum NodeType {
    Root,
    Internal,
    Leaf,
}

/// A node as the store holds it: its role, its keys in ascending order, and
/// one offset per child (per value, in a leaf).
pub struct DiskNode<K> {
    pub node_type: NodeType,
    pub keys: Vec<K>,
    pub children: Vec<u64>,
}

/// The contents of a stored node.
pub struct NodeRecord<K> {
    pub node_type: NodeType,
    pub keys: Seq<K>,
    pub children: Seq<u64>,
}

impl<K> View for DiskNode<K> {
    type V = NodeRecord<K>;

    open spec fn view(&self) -> NodeRecord<K> {
        NodeRecord { node_type: self.node_type, keys: self.keys@, children: self.children@ }
    }
}

/// An append-only store of node records, each under a key of the store's
/// choosing.
///
/// The tree is proved against what `load` promises here. For a store that is
/// not itself verified, that promise is taken on trust: what it hands out
/// for a key must be the record it holds under that key, the same at every
/// read.
pub trait StorageBackend<K> {
    /// The records the store holds, by key. A store that does not say
    /// otherwise is taken to hold from the start every record it will ever
    /// hand out.
    open spec fn records(&self) -> Map<u64, NodeRecord<K>> {
        arbitrary()
    }

    /// Reads the record stored under `key`. A record that comes back is the
    /// one the store holds there; the read may fail instead.
    fn load(&self, key: u64) -> (r: Result<DiskNode<K>, DecodingError>)
        ensures
            r matches Ok(node) ==> self.records().contains_key(key) && self.records()[key]
                == node@,
    ;

    /// Appends `value` and returns the key it can be read back under.
    /// Records already present stay as they are, whether or not the write
    /// succeeds.
    fn store(&mut self, value: &DiskNode<K>) -> (r: Result<u64, EncodingError>)
        ensures
            old(self).records().submap_of(final(self).records()),
            r matches Ok(key) ==> final(self).records().contains_key(key)
                && final(self).records()[key] == value@,
    ;
}

} // verus!
