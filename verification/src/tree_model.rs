//! What a tree means: when a subtree is well formed with respect to a store,
//! and which entries it holds.

use crate::key_order::{key_le, key_lt};
use crate::offset_tree::{Node, NodeRef, NodeShape};
use crate::storage_backend::{DecodingError, DiskNode, NodeRecord, NodeType, StorageBackend};
use vstd::prelude::*;

verus! {

/// The records of a store, by offset.
pub type Store<K> = Map<u64, NodeRecord<K>>;

/// Each key sorts strictly before the next.
pub open spec fn sorted<K: Ord>(keys: Seq<K>) -> bool {
    forall|i: int, j: int|
        0 <= i < j < keys.len() ==> key_lt(#[trigger] keys[i], #[trigger] keys[j])
}

/// The position at which a search for `k` among `keys` ends: just past the
/// last key that sorts strictly before `k`.
pub open spec fn rank<K: Ord>(keys: Seq<K>, k: K) -> int
    decreases keys.len(),
{
    if keys.len() == 0 {
        0
    } else if key_lt(keys.last(), k) {
        keys.len() as int
    } else {
        rank(keys.drop_last(), k)
    }
}

/// `k` lies strictly above the lower bound, if there is one.
pub open spec fn above<K: Ord>(lo: Option<K>, k: K) -> bool {
    lo matches Some(l) ==> key_lt(l, k)
}

/// `k` lies strictly below the upper bound, if there is one.
pub open spec fn below<K: Ord>(hi: Option<K>, k: K) -> bool {
    hi matches Some(u) ==> key_lt(k, u)
}

/// `k` lies at or below the upper bound, if there is one.
pub open spec fn at_most<K: Ord>(hi: Option<K>, k: K) -> bool {
    hi matches Some(u) ==> key_le(k, u)
}

/// The lower bound of child `i` of a node with separators `keys`.
pub open spec fn lo_of<K>(lo: Option<K>, keys: Seq<K>, i: int) -> Option<K> {
    if i == 0 {
        lo
    } else {
        Some(keys[i - 1])
    }
}

/// The upper bound of child `i` of a node with separators `keys`.
pub open spec fn hi_of<K>(hi: Option<K>, keys: Seq<K>, i: int) -> Option<K> {
    if i < keys.len() {
        Some(keys[i])
    } else {
        hi
    }
}

/// The value that `m` holds under `k`, if any.
pub open spec fn lookup<K>(m: Map<K, u64>, k: K) -> Option<u64> {
    if m.contains_key(k) {
        Some(m[k])
    } else {
        None
    }
}

/// `whole` is `left` for the keys up to `sep` and `right` for the keys past
/// it.
pub open spec fn joined<K: Ord>(
    whole: Map<K, u64>,
    left: Map<K, u64>,
    right: Map<K, u64>,
    sep: K,
) -> bool {
    forall|k: K|
        #![trigger lookup(whole, k)]
        lookup(whole, k) == if key_le(k, sep) {
            lookup(left, k)
        } else {
            lookup(right, k)
        }
}

/// The number of links past which a node is split: half the order, rounded
/// up.
pub open spec fn threshold_of(order: u64) -> nat {
    (order / 2 + order % 2) as nat
}

/// Comparing a count of links with `threshold` tells what comparing it with
/// `limit` would: they are the same number, or both lie at or beyond the
/// largest count there is.
pub open spec fn counts_as(threshold: usize, limit: nat) -> bool {
    limit == threshold || (threshold == usize::MAX && limit > usize::MAX)
}

/// `len` respects the limit, if there is one.
pub open spec fn fits(len: nat, cap: Option<nat>) -> bool {
    cap matches Some(c) ==> len <= c
}

impl<K> NodeRecord<K> {
    /// The record has as many links as its keys ask for: one per key in a
    /// leaf, one more in any other node.
    pub open spec fn fits(self) -> bool {
        self.children.len() == self.keys.len() + (if self.node_type == NodeType::Leaf {
            0int
        } else {
            1int
        })
    }

    /// The record seen as a node: every link unread, nothing changed.
    pub open spec fn shape(self) -> NodeShape<K> {
        NodeShape {
            kind: self.node_type,
            keys: self.keys,
            links: self.children.map_values(|o: u64| NodeRef::Unloaded(o)),
            dirty: false,
        }
    }
}

/// `read` is what a record makes as a node: where its links fit its keys,
/// the node with the record's role and keys, every link unread and nothing
/// changed; where they do not, the failure that tells of a corrupt record.
pub open spec fn checked_as<K>(d: DiskNode<K>, read: Result<Node<K>, DecodingError>) -> bool {
    if d@.fits() {
        read matches Ok(node) && node@ == d@.shape()
    } else {
        read matches Err(DecodingError::Corrupt(_))
    }
}

/// `read` is `outcome` with the record, if there is one, turned into a node
/// or found corrupt. A failure of the read is the same failure.
pub open spec fn as_node<K>(
    outcome: Result<DiskNode<K>, DecodingError>,
    read: Result<Node<K>, DecodingError>,
) -> bool {
    match outcome {
        Ok(d) => checked_as(d, read),
        Err(e) => read == Err::<Node<K>, DecodingError>(e),
    }
}

/// `e` is the failure of reading the node at `off`: the one that the
/// store's own read gave, or the one that tells of a corrupt record where
/// the read gave a record whose links do not fit its keys.
pub open spec fn failed_at<K, B: StorageBackend<K>>(
    backend: &B,
    off: u64,
    e: DecodingError,
) -> bool {
    ||| call_ensures(B::load, (backend, off), Err::<DiskNode<K>, DecodingError>(e))
    ||| e is Corrupt && exists|d: DiskNode<K>|
        #[trigger] call_ensures(B::load, (backend, off), Ok::<DiskNode<K>, DecodingError>(d))
            && !d@.fits()
}

/// `e` is the failure of reading a node, at some offset.
pub open spec fn read_failed<K, B: StorageBackend<K>>(backend: &B, e: DecodingError) -> bool {
    exists|off: u64| #[trigger] failed_at::<K, B>(backend, off, e)
}

impl<K> Node<K> {
    /// This node seen as the target of a link.
    pub open spec fn link(self) -> NodeRef<K> {
        NodeRef::Loaded(Box::new(self))
    }
}

impl<K> NodeRef<K> {
    /// The node is in memory, or the store has its record.
    pub open spec fn present(self, store: Store<K>) -> bool {
        match self {
            NodeRef::Loaded(_) => true,
            NodeRef::Unloaded(off) => store.contains_key(off),
        }
    }

    /// What the link stands for: the node in memory, or the record at its
    /// offset.
    pub open spec fn shape(self, store: Store<K>) -> NodeShape<K> {
        match self {
            NodeRef::Loaded(n) => n@,
            NodeRef::Unloaded(off) => store[off].shape(),
        }
    }

    /// The node's role.
    pub open spec fn kind(self, store: Store<K>) -> NodeType {
        self.shape(store).kind
    }

    /// The node's keys.
    pub open spec fn keys(self, store: Store<K>) -> Seq<K> {
        self.shape(store).keys
    }

    /// The node's links.
    pub open spec fn links(self, store: Store<K>) -> Seq<NodeRef<K>> {
        self.shape(store).links
    }

    /// The node is in memory and has changed since it was read.
    pub open spec fn dirty(self) -> bool {
        self matches NodeRef::Loaded(n) && n@.dirty
    }

    /// The offset an unread link holds.
    pub open spec fn target(self) -> u64 {
        self->Unloaded_0
    }

    /// This link and `other` stand for nodes with the same role, keys and
    /// links.
    pub open spec fn same_shape(self, other: NodeRef<K>, store: Store<K>) -> bool {
        &&& self.present(store)
        &&& other.present(store)
        &&& self.kind(store) == other.kind(store)
        &&& self.keys(store) == other.keys(store)
        &&& self.links(store) == other.links(store)
    }

    /// Some link among `links` leads to a subtree of height `below` that
    /// holds `k`.
    pub open spec fn held(links: Seq<NodeRef<K>>, store: Store<K>, below: nat, k: K) -> bool
        decreases below, 1int,
    {
        exists|i: int|
            0 <= i < links.len() && (#[trigger] links[i]).entries(store, below).contains_key(k)
    }

    /// The position among `links` of a subtree of height `below` that holds
    /// `k`, where there is one.
    pub open spec fn holder(links: Seq<NodeRef<K>>, store: Store<K>, below: nat, k: K) -> int
        decreases below, 1int,
    {
        choose|i: int|
            0 <= i < links.len() && (#[trigger] links[i]).entries(store, below).contains_key(k)
    }

    /// The entries of the subtree of height `h` under this link: in a leaf,
    /// each key with the offset beside it; above, what the children hold.
    pub open spec fn entries(self, store: Store<K>, h: nat) -> Map<K, u64>
        decreases h, 0int,
    {
        let keys = self.keys(store);
        let links = self.links(store);
        if h == 0 {
            Map::new(|k: K| keys.contains(k), |k: K| links[keys.index_of(k)].target())
        } else {
            Map::new(
                |k: K| Self::held(links, store, (h - 1) as nat, k),
                |k: K|
                    links[Self::holder(links, store, (h - 1) as nat, k)].entries(
                        store,
                        (h - 1) as nat,
                    )[k],
            )
        }
    }
}

impl<K: Ord> NodeRef<K> {
    /// The subtree under this link is a well-formed B+ tree of height `h` in
    /// `store`: keys ascend strictly in every node and lie within the bounds
    /// set by the separators above, `(lo, hi]`; a leaf has one link per key
    /// and an inner node one more; every node below the root has two links
    /// or more, and none has more than `cap`, if that is given; a node that
    /// has not changed has no changed child.
    pub open spec fn wf_at(
        self,
        store: Store<K>,
        h: nat,
        lo: Option<K>,
        hi: Option<K>,
        root: bool,
        cap: Option<nat>,
    ) -> bool
        decreases h,
    {
        let keys = self.keys(store);
        let links = self.links(store);
        &&& self.present(store)
        &&& sorted(keys)
        &&& fits(links.len(), cap)
        &&& !root ==> links.len() >= 2
        &&& if h == 0 {
            &&& self.kind(store) == NodeType::Leaf
            &&& links.len() == keys.len()
            &&& forall|i: int| 0 <= i < links.len() ==> #[trigger] links[i] is Unloaded
            &&& forall|i: int|
                0 <= i < keys.len() ==> above(lo, #[trigger] keys[i]) && at_most(hi, keys[i])
        } else {
            &&& self.kind(store) == (if root {
                NodeType::Root
            } else {
                NodeType::Internal
            })
            &&& links.len() == keys.len() + 1
            &&& forall|i: int|
                0 <= i < keys.len() ==> above(lo, #[trigger] keys[i]) && below(hi, keys[i])
            &&& forall|i: int|
                0 <= i < links.len() ==> (#[trigger] links[i]).wf_at(
                    store,
                    (h - 1) as nat,
                    lo_of(lo, keys, i),
                    hi_of(hi, keys, i),
                    false,
                    cap,
                )
            &&& !self.dirty() ==> forall|i: int|
                0 <= i < links.len() ==> !(#[trigger] links[i]).dirty()
        }
    }

    /// The subtree is well formed but for the number of links of its top
    /// node, which may exceed `cap`: the state of a node that has just taken
    /// an entry or a child and has not been split yet.
    pub open spec fn wf_loose(
        self,
        store: Store<K>,
        h: nat,
        lo: Option<K>,
        hi: Option<K>,
        root: bool,
        cap: Option<nat>,
    ) -> bool {
        &&& self.wf_at(store, h, lo, hi, root, None)
        &&& h > 0 ==> forall|i: int|
            0 <= i < self.links(store).len() ==> (#[trigger] self.links(store)[i]).wf_at(
                store,
                (h - 1) as nat,
                lo_of(lo, self.keys(store), i),
                hi_of(hi, self.keys(store), i),
                false,
                cap,
            )
    }

    /// Every node on the way to `k` in the subtree of height `h` is in
    /// memory and, where `changed` is asked for, marked as changed.
    pub open spec fn reached(self, store: Store<K>, h: nat, k: K, changed: bool) -> bool
        decreases h,
    {
        &&& self is Loaded
        &&& changed ==> self.dirty()
        &&& h > 0 ==> self.links(store)[rank(self.keys(store), k)].reached(
            store,
            (h - 1) as nat,
            k,
            changed,
        )
    }

    /// Every node on the way to `k` in the subtree of height `h` is in
    /// memory, so a search for `k` reads nothing from the store.
    pub open spec fn resident(self, store: Store<K>, h: nat, k: K) -> bool {
        self.reached(store, h, k, false)
    }

    /// Every node on the way to `k` in the subtree of height `h` is in
    /// memory and marked as changed.
    pub open spec fn marked(self, store: Store<K>, h: nat, k: K) -> bool {
        self.reached(store, h, k, true)
    }

    /// Whatever way through `before` was in memory is in memory in this
    /// subtree, and whatever way was marked as changed is marked.
    pub open spec fn keeps_paths(self, before: NodeRef<K>, store: Store<K>, h: nat) -> bool {
        forall|k: K, c: bool| #[trigger]
            before.reached(store, h, k, c) ==> self.reached(store, h, k, c)
    }

    /// Whatever way through this subtree was in memory, or marked as
    /// changed, is so in the half it now lies in: `left` for the keys up to
    /// `sep`, `right` for those past it.
    pub open spec fn halves_keep_paths(
        self,
        left: NodeRef<K>,
        right: NodeRef<K>,
        sep: K,
        store: Store<K>,
        h: nat,
    ) -> bool {
        forall|k: K, c: bool| #[trigger]
            self.reached(store, h, k, c) ==> if key_le(k, sep) {
                left.reached(store, h, k, c)
            } else {
                right.reached(store, h, k, c)
            }
    }

    /// No way through this subtree is marked as changed that was not marked
    /// in `before`.
    pub open spec fn adds_no_marks(self, before: NodeRef<K>, store: Store<K>, h: nat) -> bool {
        forall|k: K| #[trigger] self.marked(store, h, k) ==> before.marked(store, h, k)
    }
}

} // verus!
