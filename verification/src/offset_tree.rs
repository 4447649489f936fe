//! The tree itself: nodes, the references that bring them into memory, and
//! lookup and insertion over them.

use crate::key_order::{copy_key, is_less, is_same, key_laws, key_le, key_lt, lemma_trichotomy};
use crate::search_lemmas::{lemma_rank, lemma_rank_after_insert, lemma_rank_finds, lemma_rank_is};
use crate::storage_backend::{DiskNode, NodeType, StorageBackend};
use crate::update_lemmas::lemma_joined_same;
use crate::marks::Marks;
use crate::outline::Outline;
use crate::tree_model::{
    above, as_node, at_most, below, checked_as, counts_as, failed_at, hi_of, joined, lo_of, lookup,
    rank, read_failed, sorted, threshold_of, Store,
};
use vstd::prelude::*;

pub use crate::storage_backend::{DecodingError, EncodingError};

verus! {

/// A link to a node: either the offset of its record in the store, or the
/// node itself once it has been read. In a leaf the links are never read:
/// their offsets are the values stored under the leaf's keys.
pub enum NodeRef<K> {
    Unloaded(u64),
    Loaded(Box<Node<K>>),
}

/// A node in memory: its keys in ascending order, its links, and whether it
/// has changed since it was read from the store.
pub struct Node<K> {
    node_type: NodeType,
    keys: Vec<K>,
    children: Vec<NodeRef<K>>,
    modified: bool,
}

/// What a node holds.
pub struct NodeShape<K> {
    pub kind: NodeType,
    pub keys: Seq<K>,
    pub links: Seq<NodeRef<K>>,
    pub dirty: bool,
}

impl<K> View for Node<K> {
    type V = NodeShape<K>;

    closed spec fn view(&self) -> NodeShape<K> {
        NodeShape {
            kind: self.node_type,
            keys: self.keys@,
            links: self.children@,
            dirty: self.modified,
        }
    }
}

impl<K> Node<K> {
    /// The node that a record describes: the record's role and keys, every
    /// link unread, nothing changed.
    pub fn from(obj: DiskNode<K>) -> (node: Node<K>)
        ensures
            node@ == obj@.shape(),
    {
        let DiskNode { node_type, keys, children: offsets } = obj;
        let mut children: Vec<NodeRef<K>> = Vec::new();
        let mut i: usize = 0;
        while i < offsets.len()
            invariant
                i <= offsets.len(),
                children@.len() == i,
                forall|j: int|
                    0 <= j < i ==> #[trigger] children@[j] == NodeRef::<K>::Unloaded(offsets@[j]),
            decreases offsets.len() - i,
        {
            children.push(NodeRef::from_offset(offsets[i]));
            i += 1;
        }
        assert(children@ =~= offsets@.map_values(|o: u64| NodeRef::<K>::Unloaded(o)));
        Node { node_type, keys, children, modified: false }
    }

    /// The node that a record describes, after a look at the record's
    /// counts: a leaf must have one link per key and any other node one
    /// more. A record that does not is corrupt and gives no node.
    pub fn checked(obj: DiskNode<K>) -> (r: Result<Node<K>, DecodingError>)
        ensures
            checked_as(obj, r),
    {
        let keys = obj.keys.len();
        let links = obj.children.len();
        let fits = match obj.node_type {
            NodeType::Leaf => links == keys,
            _ => links > 0 && links - 1 == keys,
        };
        if fits {
            Ok(Node::from(obj))
        } else {
            Err(DecodingError::Corrupt("node record has the wrong field count".to_string()))
        }
    }
}

impl<K> Node<K> {
    /// The node's role.
    pub fn node_type(&self) -> (r: NodeType)
        ensures
            r == self@.kind,
    {
        self.node_type
    }

    /// The node's keys, in ascending order.
    pub fn keys(&self) -> (r: &Vec<K>)
        ensures
            r@ == self@.keys,
    {
        &self.keys
    }

    /// The node's links: values in a leaf, children elsewhere.
    pub fn children(&self) -> (r: &Vec<NodeRef<K>>)
        ensures
            r@ == self@.links,
    {
        &self.children
    }

    /// Whether the node has changed since it was read from the store, or
    /// has never been there.
    pub fn is_modified(&self) -> (r: bool)
        ensures
            r == self@.dirty,
    {
        self.modified
    }
}

impl<K> DiskNode<K> {
    /// Reads the record at `offset` from `backend`: what comes back is what
    /// the store's own read of `offset` gave, a record or a failure.
    pub fn load<B: StorageBackend<K>>(backend: &B, offset: u64) -> (r: Result<
        DiskNode<K>,
        DecodingError,
    >)
        ensures
            call_ensures(B::load, (backend, offset), r),
            r matches Ok(d) ==> backend.records().contains_key(offset) && backend.records()[offset]
                == d@,
    {
        backend.load(offset)
    }
}

/// Reads the node at `offset` from `backend`, every link unread: what comes
/// back is what the store's own read of `offset` gave, with a record turned
/// into a node, or found corrupt where its links do not fit its keys, and
/// a failure handed on as it is.
pub fn load<K, B: StorageBackend<K>>(backend: &B, offset: u64) -> (r: Result<
    Node<K>,
    DecodingError,
>)
    ensures
        exists|outcome: Result<DiskNode<K>, DecodingError>|
            #[trigger] call_ensures(B::load, (backend, offset), outcome) && as_node(outcome, r),
        r matches Ok(node) ==> {
            &&& backend.records().contains_key(offset)
            &&& backend.records()[offset].fits()
            &&& node@ == backend.records()[offset].shape()
        },
        r matches Err(e) ==> failed_at::<K, B>(backend, offset, e),
{
    match DiskNode::load(backend, offset) {
        Ok(d) => Node::checked(d),
        Err(e) => Err(e),
    }
}

/// The split threshold for `order`, as a count of links. A threshold beyond
/// what a node can hold is given as the largest count there is.
pub fn split_threshold(order: u64) -> (t: usize)
    ensures
        t == if threshold_of(order) <= usize::MAX {
            threshold_of(order)
        } else {
            usize::MAX as nat
        },
{
    let t: u64 = order / 2 + order % 2;
    if t > usize::MAX as u64 {
        usize::MAX
    } else {
        t as usize
    }
}

impl<K> NodeRef<K> {
    /// A link to the record at `offset`, not yet read.
    pub fn from_offset(offset: u64) -> (r: NodeRef<K>)
        ensures
            r == NodeRef::<K>::Unloaded(offset),
    {
        NodeRef::Unloaded(offset)
    }

    /// A link that holds `node`.
    pub fn from_boxed_node(node: Box<Node<K>>) -> (r: NodeRef<K>)
        ensures
            r == NodeRef::Loaded(node),
    {
        NodeRef::Loaded(node)
    }

    /// The offset that an unread link holds.
    pub fn offset(&self) -> (r: u64)
        requires
            self is Unloaded,
        ensures
            r == self.target(),
    {
        match self {
            NodeRef::Unloaded(offset) => *offset,
            NodeRef::Loaded(_) => vstd::pervasive::unreached(),
        }
    }

    /// Puts the outcome of reading this link's record in place: a node that
    /// was read is held from now on, and a failure is handed on with the
    /// link as it was.
    pub fn install(&mut self, outcome: Result<Node<K>, DecodingError>) -> (r: Result<
        (),
        DecodingError,
    >)
        ensures
            match outcome {
                Ok(node) => r is Ok && *final(self) == NodeRef::Loaded(Box::new(node)),
                Err(e) => r == Err::<(), DecodingError>(e) && *final(self) == *old(self),
            },
    {
        match outcome {
            Ok(node) => {
                *self = NodeRef::Loaded(Box::new(node));
                Ok(())
            },
            Err(e) => Err(e),
        }
    }

    /// Reads the node in from `backend` unless it is in memory already. A
    /// link that holds its node is left alone and the store is not asked; a
    /// failed read leaves the link unread, and the failure that comes back
    /// is the one the store's read of the link's offset gave, or the one
    /// that tells of a corrupt record where the record's links do not fit
    /// its keys.
    pub fn load<B: StorageBackend<K>>(&mut self, backend: &B) -> (r: Result<(), DecodingError>)
        ensures
            *old(self) is Loaded ==> r is Ok && *final(self) == *old(self),
            r is Ok ==> *final(self) is Loaded && final(self).same_shape(
                *old(self),
                backend.records(),
            ) && final(self).dirty() == old(self).dirty(),
            r matches Err(e) ==> {
                &&& *final(self) == *old(self)
                &&& *old(self) is Unloaded
                &&& failed_at::<K, B>(backend, old(self).target(), e)
            },
    {
        match self {
            NodeRef::Loaded(_) => Ok(()),
            NodeRef::Unloaded(offset) => {
                let outcome = load(backend, *offset);
                self.install(outcome)
            },
        }
    }

    /// The node behind the link, read in first where needed, for reading.
    /// The node comes back as the link stood for it, and whatever is done to
    /// it is done to the link's node.
    pub fn get<B: StorageBackend<K>>(&mut self, backend: &B) -> (r: Result<
        &mut Node<K>,
        DecodingError,
    >)
        ensures
            *old(self) is Loaded ==> r is Ok,
            match r {
                Ok(node) => {
                    &&& node.link().same_shape(*old(self), backend.records())
                    &&& node@.dirty == old(self).dirty()
                    &&& *final(self) == final(node).link()
                },
                Err(e) => {
                    &&& *final(self) == *old(self)
                    &&& *old(self) is Unloaded
                    &&& failed_at::<K, B>(backend, old(self).target(), e)
                },
            },
    {
        match self.load(backend) {
            Ok(()) => {},
            Err(e) => {
                return Err(e);
            },
        }
        match self {
            NodeRef::Loaded(n) => Ok(&mut **n),
            NodeRef::Unloaded(_) => vstd::pervasive::unreached(),
        }
    }

    /// The node behind the link, read in first where needed, for changing:
    /// it is marked as changed.
    pub fn get_mut<B: StorageBackend<K>>(&mut self, backend: &B) -> (r: Result<
        &mut Node<K>,
        DecodingError,
    >)
        ensures
            *old(self) is Loaded ==> r is Ok,
            match r {
                Ok(node) => {
                    &&& node.link().same_shape(*old(self), backend.records())
                    &&& node@.dirty
                    &&& *final(self) == final(node).link()
                },
                Err(e) => {
                    &&& *final(self) == *old(self)
                    &&& *old(self) is Unloaded
                    &&& failed_at::<K, B>(backend, old(self).target(), e)
                },
            },
    {
        match self.load(backend) {
            Ok(()) => {},
            Err(e) => {
                return Err(e);
            },
        }
        match self {
            NodeRef::Loaded(n) => {
                n.modified = true;
                Ok(&mut **n)
            },
            NodeRef::Unloaded(_) => vstd::pervasive::unreached(),
        }
    }

    /// Takes the node out of the link, read in first where needed.
    pub fn into_box<B: StorageBackend<K>>(self, backend: &B) -> (r: Result<
        Box<Node<K>>,
        DecodingError,
    >)
        ensures
            self is Loaded ==> r is Ok,
            r matches Ok(node) ==> node.link().same_shape(self, backend.records())
                && node@.dirty == self.dirty(),
            r matches Err(e) ==> self is Unloaded && failed_at::<K, B>(backend, self.target(), e),
    {
        let mut this = self;
        match this.load(backend) {
            Ok(()) => {},
            Err(e) => {
                return Err(e);
            },
        }
        match this {
            NodeRef::Loaded(n) => Ok(n),
            NodeRef::Unloaded(_) => vstd::pervasive::unreached(),
        }
    }
}

impl<K: Ord + Clone> Node<K> {
    /// The position at which a search for `key` among this node's keys
    /// ends: that of `key` where it is present, else that of the first
    /// larger key, else the number of keys. In an inner node this is the
    /// child to descend into.
    pub fn index_of(&self, key: &K) -> (r: usize)
        requires
            key_laws::<K>(),
            sorted(self@.keys),
        ensures
            r == rank(self@.keys, *key),
    {
        let mut low: usize = 0;
        let mut high: usize = self.keys.len();
        while low < high
            invariant
                key_laws::<K>(),
                sorted(self.keys@),
                low <= high <= self.keys@.len(),
                forall|j: int| 0 <= j < low ==> key_lt(#[trigger] self.keys@[j], *key),
                forall|j: int|
                    high <= j < self.keys@.len() ==> !key_lt(#[trigger] self.keys@[j], *key),
            decreases high - low,
        {
            let mid = low + (high - low) / 2;
            if is_less(&self.keys[mid], key) {
                proof {
                    assert forall|j: int| 0 <= j < mid + 1 implies key_lt(
                        #[trigger] self.keys@[j],
                        *key,
                    ) by {
                        if j < mid {
                            crate::key_order::lemma_lt_transitive(
                                self.keys@[j],
                                self.keys@[mid as int],
                                *key,
                            );
                        }
                    }
                }
                low = mid + 1;
            } else {
                proof {
                    assert forall|j: int| mid <= j < self.keys@.len() implies !key_lt(
                        #[trigger] self.keys@[j],
                        *key,
                    ) by {
                        if j > mid && key_lt(self.keys@[j], *key) {
                            crate::key_order::lemma_lt_transitive(
                                self.keys@[mid as int],
                                self.keys@[j],
                                *key,
                            );
                        }
                    }
                }
                high = mid;
            }
        }
        proof {
            lemma_rank_is(self.keys@, *key, low as int);
        }
        low
    }

    /// Splits this node in half at the middle key. The front half stays in
    /// this node and the back half goes to a new node, marked as changed,
    /// which is returned with the key that divides the two: the last key of
    /// the front half, which a leaf keeps and an inner node gives up. An
    /// inner node is an ordinary inner node afterwards, even if it was the
    /// root.
    pub fn split_in_place(&mut self) -> (r: (K, Box<Node<K>>))
        requires
            key_laws::<K>(),
            old(self)@.keys.len() >= 4,
            old(self)@.links.len() == old(self)@.keys.len() + (if old(self)@.kind
                == NodeType::Leaf {
                0int
            } else {
                1int
            }),
        ensures
            ({
                let was = old(self)@;
                let now = final(self)@;
                let n = was.keys.len() as int;
                let half = n / 2;
                &&& r.0 == was.keys[half - 1]
                &&& now.dirty == was.dirty
                &&& now.links == was.links.subrange(0, half)
                &&& now.keys == was.keys.subrange(
                    0,
                    if was.kind == NodeType::Leaf {
                        half
                    } else {
                        half - 1
                    },
                )
                &&& now.kind == (if was.kind == NodeType::Leaf {
                    NodeType::Leaf
                } else {
                    NodeType::Internal
                })
                &&& r.1@.kind == now.kind
                &&& r.1@.keys == was.keys.subrange(half, n)
                &&& r.1@.links == was.links.subrange(half, was.links.len() as int)
                &&& r.1@.dirty
            }),
    {
        let half = self.keys.len() / 2;
        let upper_keys = self.keys.split_off(half);
        let upper_children = self.children.split_off(half);
        match self.node_type {
            NodeType::Leaf => {
                let ret_key = copy_key(&self.keys[half - 1]);
                let ret_node = Node {
                    keys: upper_keys,
                    children: upper_children,
                    node_type: NodeType::Leaf,
                    modified: true,
                };
                (ret_key, Box::new(ret_node))
            },
            NodeType::Root | NodeType::Internal => {
                self.node_type = NodeType::Internal;
                let ret_key = self.keys.pop().unwrap();
                let ret_node = Node {
                    node_type: NodeType::Internal,
                    keys: upper_keys,
                    children: upper_children,
                    modified: true,
                };
                (ret_key, Box::new(ret_node))
            },
        }
    }

    /// Takes `key` with `value` into the subtree under this node, without
    /// splitting the node itself: a leaf replaces the value beside `key` or
    /// gains the pair at the key's rank; an inner node hands the pair to the
    /// child at the key's rank and, where that child was split, takes the
    /// separator and the new sibling in beside it. The node may be left with
    /// one link more than before.
    fn put<B: StorageBackend<K>>(
        &mut self,
        backend: &B,
        key: &K,
        value: u64,
        split_threshold: usize,
        Ghost(limit): Ghost<nat>,
        Ghost(h): Ghost<nat>,
        Ghost(lo): Ghost<Option<K>>,
        Ghost(hi): Ghost<Option<K>>,
        Ghost(root): Ghost<bool>,
        Ghost(cap): Ghost<Option<nat>>,
    ) -> (r: Result<(), DecodingError>)
        requires
            key_laws::<K>(),
            old(self).link().wf_at(backend.records(), h, lo, hi, root, cap),
            old(self)@.dirty,
            above(lo, *key),
            at_most(hi, *key),
            split_threshold >= 4,
            counts_as(split_threshold, limit),
            cap matches Some(c) ==> c >= split_threshold,
        ensures
            ({
                let store = backend.records();
                let was = old(self).link();
                let now = final(self).link();
                &&& now.kind(store) == was.kind(store)
                &&& now.dirty()
                &&& now.wf_loose(store, h, lo, hi, root, cap)
                &&& now.links(store).len() <= was.links(store).len() + 1
                &&& now.keeps_paths(was, store, h)
                &&& was.resident(store, h, *key) ==> r is Ok
                &&& r is Ok ==> {
                    &&& now.outline(store, h) == was.outline(store, h).taken(
                        *key,
                        value,
                        limit,
                        h,
                    )
                    &&& now.entries(store, h) == was.entries(store, h).insert(*key, value)
                    &&& now.marked(store, h, *key)
                    &&& now.marks(store, h) == was.marks(store, h).taken(
                        was.outline(store, h),
                        *key,
                        value,
                        limit,
                        h,
                    )
                }
                &&& r matches Err(e) ==> {
                    &&& read_failed::<K, B>(backend, e)
                    &&& was.stopped(backend, *key, h, e, now.marks(store, h), true)
                    &&& now.outline(store, h) == was.outline(store, h)
                    &&& now.entries(store, h) == was.entries(store, h)
                    &&& now.links(store).len() == was.links(store).len()
                }
            }),
        decreases h, 0int,
    {
        let ghost store = backend.records();
        let ghost before = old(self).link();
        let target = self.index_of(key);
        proof {
            lemma_rank(self@.keys, *key);
            lemma_rank_finds(self@.keys, *key);
        }
        match self.node_type {
            NodeType::Leaf => {
                if target < self.keys.len() && is_same(&self.keys[target], key) {
                    self.children[target] = NodeRef::from_offset(value);
                    proof {
                        self.link().lemma_leaf_overwrite(
                            before,
                            store,
                            lo,
                            hi,
                            root,
                            cap,
                            *key,
                            value,
                        );
                        self.link().lemma_loosen(store, h, lo, hi, root, cap);
                        self.link().lemma_outline_leaf(before, store, *key, value, limit);
                        assert(self.link().marks(store, h).parts =~= before.marks(store, h).parts);
                    }
                } else {
                    self.keys.insert(target, copy_key(key));
                    self.children.insert(target, NodeRef::from_offset(value));
                    proof {
                        self.link().lemma_leaf_insert(
                            before,
                            store,
                            lo,
                            hi,
                            root,
                            cap,
                            *key,
                            value,
                        );
                        self.link().lemma_outline_leaf(before, store, *key, value, limit);
                        assert(self.link().marks(store, h).parts =~= before.marks(store, h).parts);
                    }
                }
                Ok(())
            },
            _ => {
                let ghost below = (h - 1) as nat;
                let ghost child_lo = lo_of(lo, before.keys(store), target as int);
                let ghost child_hi = hi_of(hi, before.keys(store), target as int);
                let ghost child_before = self.children@[target as int];
                proof {
                    if target < self.keys@.len() {
                        lemma_trichotomy(self.keys@[target as int], *key);
                    }
                    assert(before.resident(store, h, *key) ==> child_before.resident(
                        store,
                        below,
                        *key,
                    ));
                }
                let ghost mut child_read = child_before;
                let needs_split = match self.children[target].get_mut(backend) {
                    Err(e) => {
                        proof {
                            assert(self.children@ =~= before.links(store));
                            self.link().lemma_same_shape(before, store, h, lo, hi, root, cap);
                            self.link().lemma_same_shape_paths(before, store, h);
                            self.link().lemma_same_shape_outline(before, store, h);
                            self.link().lemma_loosen(store, h, lo, hi, root, cap);
                            self.link().lemma_stop_here(before, backend, *key, h, e, true);
                        }
                        return Err(e);
                    },
                    Ok(child) => {
                        proof {
                            child.link().lemma_same_shape(
                                child_before,
                                store,
                                below,
                                child_lo,
                                child_hi,
                                false,
                                cap,
                            );
                            child.link().lemma_same_shape_paths(child_before, store, below);
                            child.link().lemma_same_shape_outline(child_before, store, below);
                            child_read = child.link();
                            child_read.lemma_read_then_visited(
                                child_before,
                                backend,
                                *key,
                                value,
                                limit,
                                below,
                                true,
                            );
                        }
                        child.insert_nonroot(
                            backend,
                            key,
                            value,
                            split_threshold,
                            Ghost(limit),
                            Ghost(below),
                            Ghost(child_lo),
                            Ghost(child_hi),
                            Ghost(cap),
                        )
                    },
                };
                match needs_split {
                    Err(e) => {
                        proof {
                            let after = self.link();
                            after.lemma_child_replaced(
                                before,
                                store,
                                h,
                                lo,
                                hi,
                                root,
                                cap,
                                target as int,
                            );
                            after.lemma_entries_same_children(
                                before,
                                store,
                                h,
                                lo,
                                hi,
                                root,
                                cap,
                                root,
                                cap,
                            );
                            after.lemma_loosen(store, h, lo, hi, root, cap);
                            after.lemma_child_kept_paths(before, store, h, target as int);
                            after.lemma_outline_child(before, store, h, target as int);
                            assert(after.outline(store, h).parts =~= before.outline(
                                store,
                                h,
                            ).parts);
                            after.lemma_stop_step(before, child_read, backend, *key, h, e, true);
                        }
                        Err(e)
                    },
                    Ok(None) => {
                        proof {
                            let after = self.link();
                            after.lemma_child_replaced(
                                before,
                                store,
                                h,
                                lo,
                                hi,
                                root,
                                cap,
                                target as int,
                            );
                            after.lemma_child_took(
                                before,
                                store,
                                h,
                                lo,
                                hi,
                                root,
                                cap,
                                *key,
                                value,
                            );
                            after.lemma_loosen(store, h, lo, hi, root, cap);
                            after.lemma_child_kept_paths(before, store, h, target as int);
                            after.lemma_outline_child(before, store, h, target as int);
                            after.lemma_marks_child(before, store, h, target as int);
                            assert(before.marks(store, h).parts[target as int]
                                == child_before.marks(store, below));
                            assert(before.outline(store, h).parts[target as int]
                                == child_before.outline(store, below));
                        }
                        Ok(())
                    },
                    Ok(Some((k, n))) => {
                        let ghost left = self.children@[target as int];
                        assert(target < self.children.len());
                        self.keys.insert(target, k);
                        self.children.insert(target + 1, NodeRef::from_boxed_node(n));
                        proof {
                            self.link().lemma_absorb_split(
                                before,
                                left,
                                n.link(),
                                k,
                                store,
                                h,
                                lo,
                                hi,
                                root,
                                cap,
                                *key,
                                value,
                            );
                            self.link().lemma_absorb_kept_paths(
                                before,
                                left,
                                n.link(),
                                k,
                                store,
                                h,
                                target as int,
                            );
                            lemma_rank_after_insert(before.keys(store), target as int, k, *key);
                            self.link().lemma_outline_absorb(
                                before,
                                left,
                                n.link(),
                                k,
                                store,
                                h,
                                target as int,
                            );
                            self.link().lemma_marks_absorb(
                                before,
                                left,
                                n.link(),
                                store,
                                h,
                                target as int,
                            );
                            assert(before.marks(store, h).parts[target as int]
                                == child_before.marks(store, below));
                            assert(before.outline(store, h).parts[target as int]
                                == child_before.outline(store, below));
                        }
                        Ok(())
                    },
                }
            },
        }
    }

    /// Splits this node if it has more than `split_threshold` links, and
    /// says whether it did by handing out the separator and the new sibling.
    fn split_if_full(
        &mut self,
        split_threshold: usize,
        Ghost(limit): Ghost<nat>,
        Ghost(store): Ghost<Store<K>>,
        Ghost(h): Ghost<nat>,
        Ghost(lo): Ghost<Option<K>>,
        Ghost(hi): Ghost<Option<K>>,
        Ghost(root): Ghost<bool>,
        Ghost(cap): Ghost<Option<nat>>,
    ) -> (r: Option<(K, Box<Node<K>>)>)
        requires
            key_laws::<K>(),
            old(self).link().wf_loose(store, h, lo, hi, root, cap),
            old(self)@.dirty,
            split_threshold >= 4,
            counts_as(split_threshold, limit),
            cap matches Some(c) ==> c >= split_threshold && old(self)@.links.len() <= c + 1,
        ensures
            ({
                let was = old(self).link();
                let now = final(self).link();
                &&& now.dirty()
                &&& r is Some <==> was.links(store).len() > split_threshold
                &&& r is Some <==> was.outline(store, h).width() > limit
                &&& match r {
                    None => *final(self) == *old(self) && now.wf_at(store, h, lo, hi, root, cap),
                    Some((sep, right)) => {
                        &&& now.wf_at(store, h, lo, Some(sep), false, cap)
                        &&& right.link().wf_at(store, h, Some(sep), hi, false, cap)
                        &&& above(lo, sep)
                        &&& below(hi, sep)
                        &&& joined(
                            was.entries(store, h),
                            now.entries(store, h),
                            right.link().entries(store, h),
                            sep,
                        )
                        &&& was.halves_keep_paths(now, right.link(), sep, store, h)
                        &&& now.outline(store, h) == was.outline(store, h).front()
                        &&& sep == was.outline(store, h).middle()
                        &&& right.link().outline(store, h) == was.outline(store, h).back()
                        &&& now.links(store).len() + right.link().links(store).len()
                            == was.links(store).len()
                        &&& now.marks(store, h) == was.marks(store, h).front(was.outline(store, h))
                        &&& right.link().marks(store, h) == was.marks(store, h).back(
                            was.outline(store, h),
                        )
                    },
                }
            }),
    {
        proof {
            self.link().lemma_outline_top(store, h, lo, hi, root, None);
        }
        if self.children.len() > split_threshold {
            let ghost whole = self.link();
            let (sep, right) = self.split_in_place();
            proof {
                if h == 0 {
                    let left = self.link();
                    whole.lemma_split_leaf(left, right.link(), sep, store, lo, hi, root, cap);
                } else {
                    whole.lemma_split_inner(
                        self.link(),
                        right.link(),
                        sep,
                        store,
                        h,
                        lo,
                        hi,
                        root,
                        cap,
                    );
                }
                whole.lemma_split_kept_paths(self.link(), right.link(), sep, store, h);
                whole.lemma_outline_cut(self.link(), right.link(), store, h);
                whole.lemma_marks_cut(
                    self.link(),
                    right.link(),
                    store,
                    h,
                    whole.keys(store).len() as int / 2,
                );
            }
            Some((sep, right))
        } else {
            proof {
                self.link().lemma_tighten(store, h, lo, hi, root, cap);
            }
            None
        }
    }

    /// Takes `key` with `value` into the subtree under this node, which is
    /// not the root, and splits the node exactly if that leaves it with more
    /// than `split_threshold` links. After a split this node is the front
    /// half and holds the entries up to the separator, and the new sibling
    /// is the back half and holds those past it.
    pub(crate) fn insert_nonroot<B: StorageBackend<K>>(
        &mut self,
        backend: &B,
        key: &K,
        value: u64,
        split_threshold: usize,
        Ghost(limit): Ghost<nat>,
        Ghost(h): Ghost<nat>,
        Ghost(lo): Ghost<Option<K>>,
        Ghost(hi): Ghost<Option<K>>,
        Ghost(cap): Ghost<Option<nat>>,
    ) -> (r: Result<Option<(K, Box<Node<K>>)>, DecodingError>)
        requires
            key_laws::<K>(),
            old(self).link().wf_at(backend.records(), h, lo, hi, false, cap),
            old(self)@.dirty,
            above(lo, *key),
            at_most(hi, *key),
            split_threshold >= 4,
            counts_as(split_threshold, limit),
            cap matches Some(c) ==> c >= split_threshold,
        ensures
            ({
                let store = backend.records();
                let was = old(self).link();
                let now = final(self).link();
                let grown = was.entries(store, h).insert(*key, value);
                let top = was.outline(store, h).taken(*key, value, limit, h);
                let flags = was.marks(store, h).taken(
                    was.outline(store, h),
                    *key,
                    value,
                    limit,
                    h,
                );
                &&& now.dirty()
                &&& was.resident(store, h, *key) ==> r is Ok
                &&& r is Ok ==> (r matches Ok(Some(_)) <==> top.width() > limit)
                &&& r is Ok ==> top.width() <= was.links(store).len() + 1
                &&& match r {
                    Ok(None) => {
                        &&& now.outline(store, h) == top
                        &&& now.marks(store, h) == flags
                        &&& now.links(store).len() <= limit
                        &&& now.links(store).len() <= split_threshold
                        &&& now.wf_at(store, h, lo, hi, false, cap)
                        &&& now.entries(store, h) == grown
                        &&& now.keeps_paths(was, store, h)
                        &&& now.marked(store, h, *key)
                    },
                    Ok(Some((sep, right))) => {
                        &&& now.outline(store, h) == top.front()
                        &&& sep == top.middle()
                        &&& right.link().outline(store, h) == top.back()
                        &&& now.marks(store, h) == flags.front(top)
                        &&& right.link().marks(store, h) == flags.back(top)
                        &&& now.links(store).len() + right.link().links(store).len() == top.width()
                        &&& now.links(store).len() + right.link().links(store).len() > limit
                        &&& now.links(store).len() + right.link().links(store).len()
                            > split_threshold
                        &&& now.wf_at(store, h, lo, Some(sep), false, cap)
                        &&& right.link().wf_at(store, h, Some(sep), hi, false, cap)
                        &&& above(lo, sep)
                        &&& below(hi, sep)
                        &&& joined(
                            grown,
                            now.entries(store, h),
                            right.link().entries(store, h),
                            sep,
                        )
                        &&& was.halves_keep_paths(now, right.link(), sep, store, h)
                        &&& if key_le(*key, sep) {
                            now.marked(store, h, *key)
                        } else {
                            right.link().marked(store, h, *key)
                        }
                    },
                    Err(e) => {
                        &&& read_failed::<K, B>(backend, e)
                        &&& was.stopped(backend, *key, h, e, now.marks(store, h), true)
                        &&& now.outline(store, h) == was.outline(store, h)
                        &&& now.wf_at(store, h, lo, hi, false, cap)
                        &&& now.entries(store, h) == was.entries(store, h)
                        &&& now.keeps_paths(was, store, h)
                    },
                }
            }),
        decreases h, 1int,
    {
        let ghost before = self.link();
        match self.put(
            backend,
            key,
            value,
            split_threshold,
            Ghost(limit),
            Ghost(h),
            Ghost(lo),
            Ghost(hi),
            Ghost(false),
            Ghost(cap),
        ) {
            Ok(()) => {},
            Err(e) => {
                proof {
                    self.link().lemma_tighten(backend.records(), h, lo, hi, false, cap);
                }
                return Err(e);
            },
        }
        let ghost taken = self.link();
        let split = self.split_if_full(
            split_threshold,
            Ghost(limit),
            Ghost(backend.records()),
            Ghost(h),
            Ghost(lo),
            Ghost(hi),
            Ghost(false),
            Ghost(cap),
        );
        proof {
            taken.lemma_halves_after(before, self.link(), split, backend.records(), h);
            taken.lemma_outline_top(backend.records(), h, lo, hi, false, None);
        }
        Ok(split)
    }

    /// Takes `key` with `value` into the tree under this node, the root, and
    /// splits the root exactly if that leaves it with more links than the
    /// threshold for `order`. After a split this node is an ordinary node,
    /// the front half, that holds the entries up to the separator, and the
    /// new sibling is the back half and holds those past it; the caller puts
    /// a new root above the two.
    pub(crate) fn insert<B: StorageBackend<K>>(
        &mut self,
        backend: &B,
        key: &K,
        value: u64,
        order: u64,
        Ghost(h): Ghost<nat>,
        Ghost(cap): Ghost<Option<nat>>,
    ) -> (r: Result<Option<(K, Box<Node<K>>)>, DecodingError>)
        requires
            key_laws::<K>(),
            old(self).link().wf_at(backend.records(), h, None, None, true, cap),
            old(self)@.dirty,
            threshold_of(order) >= 4,
            cap matches Some(c) ==> c >= threshold_of(order),
        ensures
            ({
                let store = backend.records();
                let was = old(self).link();
                let now = final(self).link();
                let grown = was.entries(store, h).insert(*key, value);
                let top = was.outline(store, h).taken(*key, value, threshold_of(order), h);
                let flags = was.marks(store, h).taken(
                    was.outline(store, h),
                    *key,
                    value,
                    threshold_of(order),
                    h,
                );
                &&& now.dirty()
                &&& was.resident(store, h, *key) ==> r is Ok
                &&& r is Ok ==> (r matches Ok(Some(_)) <==> top.width() > threshold_of(order))
                &&& r is Ok ==> top.width() <= was.links(store).len() + 1
                &&& match r {
                    Ok(None) => {
                        &&& now.outline(store, h) == top
                        &&& now.marks(store, h) == flags
                        &&& now.links(store).len() <= threshold_of(order)
                        &&& now.wf_at(store, h, None, None, true, cap)
                        &&& now.entries(store, h) == grown
                        &&& now.keeps_paths(was, store, h)
                        &&& now.marked(store, h, *key)
                    },
                    Ok(Some((sep, right))) => {
                        &&& now.outline(store, h) == top.front()
                        &&& sep == top.middle()
                        &&& right.link().outline(store, h) == top.back()
                        &&& now.marks(store, h) == flags.front(top)
                        &&& right.link().marks(store, h) == flags.back(top)
                        &&& now.links(store).len() + right.link().links(store).len() == top.width()
                        &&& now.links(store).len() + right.link().links(store).len()
                            > threshold_of(order)
                        &&& now.wf_at(store, h, None, Some(sep), false, cap)
                        &&& right.link().wf_at(store, h, Some(sep), None, false, cap)
                        &&& above(None, sep)
                        &&& below(None, sep)
                        &&& joined(
                            grown,
                            now.entries(store, h),
                            right.link().entries(store, h),
                            sep,
                        )
                        &&& was.halves_keep_paths(now, right.link(), sep, store, h)
                        &&& if key_le(*key, sep) {
                            now.marked(store, h, *key)
                        } else {
                            right.link().marked(store, h, *key)
                        }
                    },
                    Err(e) => {
                        &&& read_failed::<K, B>(backend, e)
                        &&& was.stopped(backend, *key, h, e, now.marks(store, h), true)
                        &&& now.outline(store, h) == was.outline(store, h)
                        &&& now.wf_at(store, h, None, None, true, cap)
                        &&& now.entries(store, h) == was.entries(store, h)
                        &&& now.keeps_paths(was, store, h)
                    },
                }
            }),
    {
        let ghost before = self.link();
        let split_threshold = split_threshold(order);
        match self.put(
            backend,
            key,
            value,
            split_threshold,
            Ghost(threshold_of(order)),
            Ghost(h),
            Ghost(None),
            Ghost(None),
            Ghost(true),
            Ghost(cap),
        ) {
            Ok(()) => {},
            Err(e) => {
                proof {
                    self.link().lemma_tighten(backend.records(), h, None, None, true, cap);
                }
                return Err(e);
            },
        }
        let ghost taken = self.link();
        let split = self.split_if_full(
            split_threshold,
            Ghost(threshold_of(order)),
            Ghost(backend.records()),
            Ghost(h),
            Ghost(None),
            Ghost(None),
            Ghost(true),
            Ghost(cap),
        );
        proof {
            taken.lemma_halves_after(before, self.link(), split, backend.records(), h);
            taken.lemma_outline_top(backend.records(), h, None, None, true, None);
        }
        Ok(split)
    }

    /// Looks `key` up in the subtree under this node, reading in the nodes
    /// on the way as needed. The answer is the value the subtree holds for
    /// `key`; the subtree holds afterwards what it held before. Where every
    /// node on the way is in memory already, the search succeeds.
    pub(crate) fn find_offset_for<B: StorageBackend<K>>(
        &mut self,
        backend: &B,
        key: &K,
        Ghost(h): Ghost<nat>,
        Ghost(lo): Ghost<Option<K>>,
        Ghost(hi): Ghost<Option<K>>,
        Ghost(root): Ghost<bool>,
        Ghost(cap): Ghost<Option<nat>>,
    ) -> (r: Result<Option<u64>, DecodingError>)
        requires
            key_laws::<K>(),
            old(self).link().wf_at(backend.records(), h, lo, hi, root, cap),
        ensures
            ({
                let store = backend.records();
                let was = old(self).link();
                let now = final(self).link();
                &&& now.wf_at(store, h, lo, hi, root, cap)
                &&& now.outline(store, h) == was.outline(store, h)
                &&& now.entries(store, h) == was.entries(store, h)
                &&& now.dirty() == was.dirty()
                &&& now.keeps_paths(was, store, h)
                &&& now.adds_no_marks(was, store, h)
                &&& was.resident(store, h, *key) ==> r is Ok
                &&& r matches Err(e) ==> {
                    &&& read_failed::<K, B>(backend, e)
                    &&& was.stopped(backend, *key, h, e, now.marks(store, h), false)
                }
                &&& r matches Ok(v) ==> {
                    &&& v == lookup(was.entries(store, h), *key)
                    &&& now.resident(store, h, *key)
                    &&& now.marks(store, h) == was.marks(store, h).visited(
                        was.outline(store, h),
                        *key,
                        h,
                        h + 1,
                        false,
                    )
                }
            }),
        decreases h,
    {
        let ghost store = backend.records();
        let ghost before = old(self).link();
        let j = self.index_of(key);
        proof {
            lemma_rank(self@.keys, *key);
        }
        match self.node_type {
            NodeType::Leaf => {
                proof {
                    before.lemma_leaf_entry(store, lo, hi, root, cap, *key);
                    assert(before.marks(store, h) == before.marks(store, h).visited(
                        before.outline(store, h),
                        *key,
                        h,
                        1,
                        false,
                    ));
                }
                if j < self.keys.len() && is_same(&self.keys[j], key) {
                    Ok(Some(self.children[j].offset()))
                } else {
                    Ok(None)
                }
            },
            _ => {
                let ghost below = (h - 1) as nat;
                let ghost child_lo = lo_of(lo, before.keys(store), j as int);
                let ghost child_hi = hi_of(hi, before.keys(store), j as int);
                let ghost child_before = self.children@[j as int];
                proof {
                    before.lemma_route(store, h, lo, hi, root, cap, *key);
                    assert(before.resident(store, h, *key) ==> child_before.resident(
                        store,
                        below,
                        *key,
                    ));
                }
                match self.children[j].get(backend) {
                    Err(e) => {
                        proof {
                            assert(self.children@ =~= before.links(store));
                            self.link().lemma_same_shape(before, store, h, lo, hi, root, cap);
                            self.link().lemma_same_shape_paths(before, store, h);
                            self.link().lemma_same_shape_no_marks(before, store, h);
                            self.link().lemma_same_shape_outline(before, store, h);
                            self.link().lemma_stop_here(before, backend, *key, h, e, false);
                        }
                        Err(e)
                    },
                    Ok(child) => {
                        let ghost child_read = child.link();
                        proof {
                            child_read.lemma_same_shape(
                                child_before,
                                store,
                                below,
                                child_lo,
                                child_hi,
                                false,
                                cap,
                            );
                            child_read.lemma_same_shape_paths(child_before, store, below);
                            child_read.lemma_same_shape_no_marks(child_before, store, below);
                            child_read.lemma_same_shape_outline(child_before, store, below);
                        }
                        let r = child.find_offset_for(
                            backend,
                            key,
                            Ghost(below),
                            Ghost(child_lo),
                            Ghost(child_hi),
                            Ghost(false),
                            Ghost(cap),
                        );
                        proof {
                            let after = self.link();
                            after.lemma_child_replaced(
                                before,
                                store,
                                h,
                                lo,
                                hi,
                                root,
                                cap,
                                j as int,
                            );
                            after.lemma_entries_same_children(
                                before,
                                store,
                                h,
                                lo,
                                hi,
                                root,
                                cap,
                                root,
                                cap,
                            );
                            after.lemma_child_kept_paths(before, store, h, j as int);
                            after.lemma_child_added_no_marks(before, store, h, j as int);
                            after.lemma_outline_child(before, store, h, j as int);
                            assert(after.outline(store, h).parts =~= before.outline(
                                store,
                                h,
                            ).parts);
                            if r is Ok {
                                after.lemma_visit_step(
                                    before,
                                    child_read,
                                    store,
                                    *key,
                                    h,
                                    h,
                                    false,
                                );
                            } else {
                                after.lemma_stop_step(
                                    before,
                                    child_read,
                                    backend,
                                    *key,
                                    h,
                                    r->Err_0,
                                    false,
                                );
                            }
                        }
                        r
                    },
                }
            },
        }
    }
}

/// A B+ tree from keys to 64-bit values whose nodes are read from a store
/// when a search first reaches them and are never written back in place.
pub struct OffsetTree<K> {
    root_reference: NodeRef<K>,
    order: u64,
}

impl<K: Ord + Clone> OffsetTree<K> {
    /// The link to the root node.
    pub closed spec fn root(&self) -> NodeRef<K> {
        self.root_reference
    }

    /// The order the tree was made with.
    pub closed spec fn order(&self) -> u64 {
        self.order
    }

    /// The tree is a well-formed B+ tree in `store`. For the nodes in
    /// memory the tree's own operations see to that. For the records that
    /// have not been read it is the host's part: as the store is
    /// append-only and the tree only ever refers to records that a host
    /// wrote for it, each record reached from the root is there, has its
    /// keys in strictly ascending order and within the bounds that the
    /// separators above it set, has two links or more unless it is the
    /// root, and has its leaves as deep as every other. That a record has as
    /// many links as its keys ask for is owed as well, and is the one part
    /// that is looked at again when the record is read: a record that has
    /// not is refused as corrupt and never becomes a node.
    pub open spec fn wf(&self, store: Store<K>) -> bool {
        exists|h: nat| self.root().wf_at(store, h, None, None, true, None)
    }

    /// The number of levels between the root and the leaves.
    pub open spec fn height(&self, store: Store<K>) -> nat {
        choose|h: nat| self.root().wf_at(store, h, None, None, true, None)
    }

    /// The entries of the tree: each key with its value.
    pub open spec fn entries(&self, store: Store<K>) -> Map<K, u64> {
        self.root().entries(store, self.height(store))
    }

    /// Every node on the way to `k` is in memory.
    pub open spec fn resident(&self, store: Store<K>, k: K) -> bool {
        self.root().resident(store, self.height(store), k)
    }

    /// The nodes of the tree as they stand, whether read or not: the role
    /// and keys of each, and the values or children below it.
    pub open spec fn outline(&self, store: Store<K>) -> Outline<K> {
        self.root().outline(store, self.height(store))
    }

    /// For every node of the tree, whether it is in memory and whether it
    /// is marked as changed.
    pub open spec fn marks(&self, store: Store<K>) -> Marks {
        self.root().marks(store, self.height(store))
    }

    /// Every node on the way to `k` is in memory and marked as changed.
    pub open spec fn marked(&self, store: Store<K>, k: K) -> bool {
        self.root().marked(store, self.height(store), k)
    }

    /// The tree is well formed in `store` and none of its nodes has more
    /// links than the split threshold of its order.
    pub open spec fn within_threshold(&self, store: Store<K>) -> bool {
        exists|h: nat|
            self.root().wf_at(store, h, None, None, true, Some(threshold_of(self.order())))
    }

    /// The link to the root node, for walking the nodes that are in memory.
    pub fn root_reference(&self) -> (r: &NodeRef<K>)
        ensures
            *r == self.root(),
    {
        &self.root_reference
    }

    /// A tree without entries: its root is an empty leaf, in memory.
    pub fn empty(order: u64) -> (tree: Self)
        ensures
            tree.order() == order,
            forall|store: Store<K>| #[trigger] tree.wf(store),
            forall|store: Store<K>| #[trigger] tree.height(store) == 0,
            forall|store: Store<K>| #[trigger] tree.entries(store) == Map::<K, u64>::empty(),
            forall|store: Store<K>| #[trigger] tree.outline(store) == Outline::<K>::bare(),
            forall|store: Store<K>| #[trigger] tree.marks(store) == Marks::fresh(),
            forall|store: Store<K>, k: K| #[trigger] tree.resident(store, k),
            forall|store: Store<K>| #[trigger] tree.within_threshold(store),
    {
        let node = Node {
            node_type: NodeType::Leaf,
            keys: Vec::new(),
            children: Vec::new(),
            modified: true,
        };
        let tree = OffsetTree { root_reference: NodeRef::from_boxed_node(Box::new(node)), order };
        proof {
            assert forall|store: Store<K>|
                #![trigger tree.wf(store)]
                #![trigger tree.height(store)]
                #![trigger tree.entries(store)]
                tree.wf(store) && tree.height(store) == 0 && tree.entries(store) == Map::<
                    K,
                    u64,
                >::empty() by {
                tree.root().lemma_height_unique(
                    store,
                    0,
                    None,
                    None,
                    true,
                    None,
                    tree.height(store),
                    None,
                    None,
                    true,
                    None,
                );
            }
            assert forall|store: Store<K>| #[trigger]
                tree.outline(store) == Outline::<K>::bare() by {
                assert(tree.height(store) == 0);
                assert(tree.outline(store).offsets =~= Seq::<u64>::empty());
            }
            assert forall|store: Store<K>| #[trigger] tree.marks(store) == Marks::fresh() by {
                assert(tree.height(store) == 0);
                assert(tree.marks(store).parts =~= Seq::<Marks>::empty());
            }
            assert forall|store: Store<K>, k: K| #[trigger] tree.resident(store, k) by {
                assert(tree.wf(store));
            }
            assert forall|store: Store<K>| #[trigger] tree.within_threshold(store) by {
                assert(tree.root().wf_at(
                    store,
                    0,
                    None,
                    None,
                    true,
                    Some(threshold_of(tree.order())),
                ));
            }
        }
        tree
    }

    /// The tree whose root record is at `offset` in the store. Nothing is
    /// read yet.
    pub fn from_root_offset(offset: u64, order: u64) -> (tree: Self)
        ensures
            tree.root() == NodeRef::<K>::Unloaded(offset),
            tree.order() == order,
    {
        OffsetTree { root_reference: NodeRef::from_offset(offset), order }
    }

    /// The value stored under `key`, if any. Nodes on the way to `key` are
    /// read from `backend` as needed, and nothing else changes: every node
    /// has afterwards the role, keys and links it had, no node's mark has
    /// changed, and no node off the way has been read. With every node on
    /// the way in memory the search succeeds. It fails where a node on the
    /// way cannot be read: the failure is the one that reading the first
    /// such node gave, and the nodes above it have been read.
    pub fn offset_for<B: StorageBackend<K>>(&mut self, backend: &B, key: &K) -> (r: Result<
        Option<u64>,
        DecodingError,
    >)
        requires
            key_laws::<K>(),
            old(self).wf(backend.records()),
        ensures
            ({
                let store = backend.records();
                let was = *old(self);
                let now = *final(self);
                &&& now.wf(store)
                &&& now.order() == was.order()
                &&& now.height(store) == was.height(store)
                &&& now.outline(store) == was.outline(store)
                &&& now.entries(store) == was.entries(store)
                &&& r matches Ok(v) ==> v == lookup(was.entries(store), *key)
                &&& was.resident(store, *key) ==> r is Ok
                &&& r matches Err(e) ==> {
                    &&& read_failed::<K, B>(backend, e)
                    &&& was.root().stopped(
                        backend,
                        *key,
                        was.height(store),
                        e,
                        now.marks(store),
                        false,
                    )
                }
                &&& r is Ok ==> now.marks(store) == was.marks(store).visited(
                    was.outline(store),
                    *key,
                    was.height(store),
                    was.height(store) + 1,
                    false,
                )
                &&& r is Ok ==> now.resident(store, *key)
                &&& forall|k: K| was.resident(store, k) ==> #[trigger] now.resident(store, k)
                &&& forall|k: K| was.marked(store, k) == #[trigger] now.marked(store, k)
            }),
    {
        let ghost store = backend.records();
        let ghost h = self.height(store);
        let ghost before = self.root_reference;
        match self.root_reference.get(backend) {
            Err(e) => {
                proof {
                    assert(before.stopped_at(
                        backend,
                        *key,
                        h,
                        e,
                        before.marks(store, h),
                        false,
                        0,
                    ));
                }
                Err(e)
            },
            Ok(node) => {
                proof {
                    node.link().lemma_same_shape(before, store, h, None, None, true, None);
                    node.link().lemma_same_shape_paths(before, store, h);
                    node.link().lemma_same_shape_no_marks(before, store, h);
                    node.link().lemma_same_shape_outline(before, store, h);
                    node.link().lemma_read_then_visited(before, backend, *key, 0, 0, h, false);
                }
                let r = node.find_offset_for(
                    backend,
                    key,
                    Ghost(h),
                    Ghost(None),
                    Ghost(None),
                    Ghost(true),
                    Ghost(None),
                );
                proof {
                    self.root_reference.lemma_height_unique(
                        store,
                        h,
                        None,
                        None,
                        true,
                        None,
                        self.height(store),
                        None,
                        None,
                        true,
                        None,
                    );
                }
                r
            },
        }
    }

    /// Stores `value` under `key`, in place of the value stored there
    /// before, if any. Nodes on the way to `key` are read from `backend` as
    /// needed and marked as changed. The leaf replaces the value or gains
    /// the pair at the key's rank; a node left with more links than the
    /// split threshold of the tree's order is cut at its middle key, and a
    /// root that is cut gets a new root above its halves, which makes the
    /// tree one level higher. Nothing is written to the store, and no node
    /// off the way is read or marked; the new nodes of a split are marked
    /// as changed. Where a node on the way cannot be read, the failure is
    /// the one that reading the first such node gave, every node has the
    /// role, keys and links it had, and only the nodes above that one have
    /// been read and marked; with every node on the way in memory the
    /// insertion succeeds. In a tree whose nodes are all within the split
    /// threshold, which then stays so, a value put in place of another
    /// changes no node's size.
    pub fn insert<B: StorageBackend<K>>(&mut self, backend: &B, key: &K, value: u64) -> (r: Result<
        (),
        DecodingError,
    >)
        requires
            key_laws::<K>(),
            old(self).wf(backend.records()),
            threshold_of(old(self).order()) >= 4,
        ensures
            ({
                let store = backend.records();
                let was = *old(self);
                let now = *final(self);
                &&& now.wf(store)
                &&& now.order() == was.order()
                &&& was.within_threshold(store) ==> now.within_threshold(store)
                &&& was.resident(store, *key) ==> r is Ok
                &&& r is Ok && was.within_threshold(store) && was.entries(store).contains_key(*key)
                    ==> {
                    &&& now.height(store) == was.height(store)
                    &&& now.outline(store) == was.outline(store).replaced(
                        *key,
                        value,
                        was.height(store),
                    )
                }
                &&& r is Ok ==> {
                    &&& now.outline(store) == was.outline(store).inserted(
                        *key,
                        value,
                        threshold_of(was.order()),
                        was.height(store),
                    )
                    &&& now.height(store) == was.height(store) + (if was.outline(store).splits(
                        *key,
                        value,
                        threshold_of(was.order()),
                        was.height(store),
                    ) {
                        1int
                    } else {
                        0int
                    })
                    &&& now.entries(store) == was.entries(store).insert(*key, value)
                    &&& now.resident(store, *key)
                    &&& now.marked(store, *key)
                    &&& now.marks(store) == was.marks(store).inserted(
                        was.outline(store),
                        *key,
                        value,
                        threshold_of(was.order()),
                        was.height(store),
                    )
                }
                &&& r matches Err(e) ==> {
                    &&& read_failed::<K, B>(backend, e)
                    &&& was.root().stopped(
                        backend,
                        *key,
                        was.height(store),
                        e,
                        now.marks(store),
                        true,
                    )
                    &&& now.outline(store) == was.outline(store)
                    &&& now.entries(store) == was.entries(store)
                    &&& now.height(store) == was.height(store)
                }
                &&& forall|k: K| was.resident(store, k) ==> #[trigger] now.resident(store, k)
                &&& forall|k: K| was.marked(store, k) ==> #[trigger] now.marked(store, k)
            }),
    {
        let ghost store = backend.records();
        let ghost h = self.height(store);
        let ghost before = self.root_reference;
        let ghost cap = if self.within_threshold(store) {
            Some(threshold_of(self.order))
        } else {
            None
        };
        proof {
            if self.within_threshold(store) {
                let h2 = choose|h2: nat| before.wf_at(store, h2, None, None, true, cap);
                before.lemma_height_unique(
                    store,
                    h,
                    None,
                    None,
                    true,
                    None,
                    h2,
                    None,
                    None,
                    true,
                    cap,
                );
                if self.entries(store).contains_key(*key) {
                    before.lemma_overwrite_outline(
                        store,
                        h,
                        None,
                        None,
                        true,
                        threshold_of(self.order),
                        *key,
                        value,
                    );
                }
            }
        }
        let order = self.order;
        let needs_split = match self.root_reference.get_mut(backend) {
            Err(e) => {
                proof {
                    assert(before.stopped_at(
                        backend,
                        *key,
                        h,
                        e,
                        before.marks(store, h),
                        true,
                        0,
                    ));
                }
                return Err(e);
            },
            Ok(root) => {
                proof {
                    root.link().lemma_same_shape(before, store, h, None, None, true, cap);
                    root.link().lemma_same_shape_paths(before, store, h);
                    root.link().lemma_same_shape_outline(before, store, h);
                    root.link().lemma_read_then_visited(
                        before,
                        backend,
                        *key,
                        value,
                        threshold_of(order),
                        h,
                        true,
                    );
                }
                root.insert(backend, key, value, order, Ghost(h), Ghost(cap))
            },
        };
        match needs_split {
            Err(e) => {
                proof {
                    self.lemma_settle(store, h, cap);
                }
                Err(e)
            },
            Ok(None) => {
                proof {
                    self.lemma_settle(store, h, cap);
                    self.root_reference.lemma_marked_is_resident(store, h, *key);
                }
                Ok(())
            },
            Ok(Some((k, right))) => {
                let mut r = NodeRef::from_offset(0);
                std::mem::swap(&mut self.root_reference, &mut r);
                let ghost lower = r;
                let left = match r.into_box(backend) {
                    Ok(node) => node,
                    Err(_) => vstd::pervasive::unreached(),
                };
                proof {
                    left.link().lemma_same_shape(lower, store, h, None, Some(k), false, cap);
                    left.link().lemma_same_shape_outline(lower, store, h);
                    left.link().lemma_same_shape_marks(lower, store, h);
                    assert(left.link().marks(store, h) == lower.marks(store, h));
                }
                let new_node = Node {
                    node_type: NodeType::Root,
                    modified: true,
                    keys: vec![k],
                    children: vec![NodeRef::from_boxed_node(left), NodeRef::from_boxed_node(right)],
                };
                self.root_reference = NodeRef::from_boxed_node(Box::new(new_node));
                proof {
                    let top = self.root_reference;
                    assert(top.keys(store) =~= seq![k]);
                    top.lemma_grow_root(left.link(), right.link(), k, store, h, cap);
                    top.lemma_outline_root(left.link(), right.link(), k, store, h);
                    top.lemma_marks_root(left.link(), right.link(), store, h);
                    left.link().lemma_same_shape_paths(lower, store, h);
                    top.lemma_grow_kept_paths(
                        before,
                        lower,
                        left.link(),
                        right.link(),
                        k,
                        store,
                        h,
                    );
                    crate::key_order::lemma_trichotomy(*key, k);
                    if key_le(*key, k) {
                        lemma_rank_is(top.keys(store), *key, 0);
                    } else {
                        lemma_rank_is(top.keys(store), *key, 1);
                    }
                    lemma_joined_same(
                        top.entries(store, h + 1),
                        before.entries(store, h).insert(*key, value),
                        left.link().entries(store, h),
                        right.link().entries(store, h),
                        k,
                    );
                    self.lemma_settle(store, h + 1, cap);
                    top.lemma_marked_is_resident(store, h + 1, *key);
                }
                Ok(())
            },
        }
    }

    /// A tree whose root is well formed at height `h`, under a limit or
    /// none, is well formed, has that height, and where the limit is the
    /// split threshold is within it.
    proof fn lemma_settle(&self, store: Store<K>, h: nat, cap: Option<nat>)
        requires
            self.root().wf_at(store, h, None, None, true, cap),
            cap matches Some(c) ==> c == threshold_of(self.order()),
        ensures
            self.wf(store),
            self.height(store) == h,
            cap is Some ==> self.within_threshold(store),
    {
        self.root().lemma_cap_weaken(store, h, None, None, true, cap, None);
        self.root().lemma_height_unique(
            store,
            h,
            None,
            None,
            true,
            None,
            self.height(store),
            None,
            None,
            true,
            None,
        );
    }

    /// Whether the tree holds a value under `key`.
    pub fn contains<B: StorageBackend<K>>(&mut self, backend: &B, key: &K) -> (r: Result<
        bool,
        DecodingError,
    >)
        requires
            key_laws::<K>(),
            old(self).wf(backend.records()),
        ensures
            ({
                let store = backend.records();
                let was = *old(self);
                let now = *final(self);
                &&& now.wf(store)
                &&& now.order() == was.order()
                &&& now.height(store) == was.height(store)
                &&& now.outline(store) == was.outline(store)
                &&& now.entries(store) == was.entries(store)
                &&& r matches Ok(found) ==> found == was.entries(store).contains_key(*key)
                &&& was.resident(store, *key) ==> r is Ok
                &&& r matches Err(e) ==> {
                    &&& read_failed::<K, B>(backend, e)
                    &&& was.root().stopped(
                        backend,
                        *key,
                        was.height(store),
                        e,
                        now.marks(store),
                        false,
                    )
                }
                &&& r is Ok ==> now.marks(store) == was.marks(store).visited(
                    was.outline(store),
                    *key,
                    was.height(store),
                    was.height(store) + 1,
                    false,
                )
                &&& r is Ok ==> now.resident(store, *key)
                &&& forall|k: K| was.resident(store, k) ==> #[trigger] now.resident(store, k)
                &&& forall|k: K| was.marked(store, k) == #[trigger] now.marked(store, k)
            }),
    {
        match self.offset_for(backend, key) {
            Ok(found) => Ok(found.is_some()),
            Err(e) => Err(e),
        }
    }
}

} // verus!
