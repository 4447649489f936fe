//! Which nodes of a tree are in memory and which are marked as changed, node
//! by node, and what a lookup and an insertion make of that: only nodes on
//! the way to the key are read or marked, and the new nodes of a split.

use crate::offset_tree::NodeRef;
use crate::outline::Outline;
use crate::storage_backend::{DecodingError, NodeType, StorageBackend};
use crate::tree_model::{failed_at, rank, Store};
use vstd::prelude::*;

verus! {

/// For a node and, below it, for each of its children: whether the node is
/// in memory, and whether it is marked as changed.
pub struct Marks {
    pub held: bool,
    pub changed: bool,
    pub parts: Seq<Marks>,
}

impl<K> NodeRef<K> {
    /// The marks of the subtree of height `h` under this link. A node that
    /// has not been read is neither in memory nor marked, and nor is any
    /// node below it.
    pub open spec fn marks(self, store: Store<K>, h: nat) -> Marks
        decreases h,
    {
        let links = self.links(store);
        Marks {
            held: self is Loaded,
            changed: self.dirty(),
            parts: if h == 0 {
                Seq::empty()
            } else {
                Seq::new(links.len(), |i: int| links[i].marks(store, (h - 1) as nat))
            },
        }
    }

    /// Links that stand for the same node have the same marks below them.
    pub proof fn lemma_same_shape_marks(self, other: NodeRef<K>, store: Store<K>, h: nat)
        requires
            self.same_shape(other, store),
        ensures
            self.marks(store, h).parts == other.marks(store, h).parts,
    {
        assert(self.marks(store, h).parts =~= other.marks(store, h).parts);
    }

    /// An inner node with one child replaced has the old marks below it but
    /// for that child's.
    pub proof fn lemma_marks_child(self, before: NodeRef<K>, store: Store<K>, h: nat, j: int)
        requires
            h > 0,
            0 <= j < before.links(store).len(),
            self.links(store) == before.links(store).update(j, self.links(store)[j]),
        ensures
            self.marks(store, h).parts == before.marks(store, h).parts.update(
                j,
                self.links(store)[j].marks(store, (h - 1) as nat),
            ),
    {
        assert(self.marks(store, h).parts =~= before.marks(store, h).parts.update(
            j,
            self.links(store)[j].marks(store, (h - 1) as nat),
        ));
    }

    /// An inner node that has taken a new child after the child at `j`,
    /// itself replaced, has their marks so below it.
    pub proof fn lemma_marks_absorb(
        self,
        before: NodeRef<K>,
        left: NodeRef<K>,
        right: NodeRef<K>,
        store: Store<K>,
        h: nat,
        j: int,
    )
        requires
            h > 0,
            0 <= j < before.links(store).len(),
            self.links(store) == before.links(store).update(j, left).insert(j + 1, right),
        ensures
            self.marks(store, h).parts == before.marks(store, h).parts.update(
                j,
                left.marks(store, (h - 1) as nat),
            ).insert(j + 1, right.marks(store, (h - 1) as nat)),
    {
        assert(self.marks(store, h).parts =~= before.marks(store, h).parts.update(
            j,
            left.marks(store, (h - 1) as nat),
        ).insert(j + 1, right.marks(store, (h - 1) as nat)));
    }

    /// The two nodes that a split leaves have below them the marks of the
    /// children before the middle and of those from the middle on.
    pub proof fn lemma_marks_cut(
        self,
        left: NodeRef<K>,
        right: NodeRef<K>,
        store: Store<K>,
        h: nat,
        half: int,
    )
        requires
            0 <= half <= self.links(store).len(),
            left.links(store) == self.links(store).subrange(0, half),
            right.links(store) == self.links(store).subrange(
                half,
                self.links(store).len() as int,
            ),
        ensures
            h > 0 ==> left.marks(store, h).parts == self.marks(store, h).parts.subrange(0, half),
            h > 0 ==> right.marks(store, h).parts == self.marks(store, h).parts.subrange(
                half,
                self.links(store).len() as int,
            ),
            h == 0 ==> left.marks(store, h).parts == self.marks(store, h).parts,
            h == 0 ==> right.marks(store, h).parts == self.marks(store, h).parts,
    {
        if h > 0 {
            assert(left.marks(store, h).parts =~= self.marks(store, h).parts.subrange(0, half));
            assert(right.marks(store, h).parts =~= self.marks(store, h).parts.subrange(
                half,
                self.links(store).len() as int,
            ));
        }
    }

    /// A root over two children has their marks below it.
    pub proof fn lemma_marks_root(
        self,
        left: NodeRef<K>,
        right: NodeRef<K>,
        store: Store<K>,
        h: nat,
    )
        requires
            self.links(store) == seq![left, right],
        ensures
            self.marks(store, h + 1).parts == seq![left.marks(store, h), right.marks(store, h)],
    {
        assert(self.marks(store, h + 1).parts =~= seq![
            left.marks(store, h),
            right.marks(store, h),
        ]);
    }
}

impl<K: Ord> NodeRef<K> {
    /// The link `depth` levels down on the way to `key`.
    pub open spec fn on_way(self, store: Store<K>, key: K, depth: nat) -> NodeRef<K>
        decreases depth,
    {
        if depth == 0 {
            self
        } else {
            self.links(store)[rank(self.keys(store), key)].on_way(
                store,
                key,
                (depth - 1) as nat,
            )
        }
    }
}

impl<K: Ord> NodeRef<K> {
    /// A visit of the way to `key` through this subtree stopped `depth`
    /// levels down, at a link whose node could not be read, with the failure
    /// `e`; the nodes above that link have been visited, and the marks are
    /// now `now`.
    pub open spec fn stopped_at<B: StorageBackend<K>>(
        self,
        backend: &B,
        key: K,
        h: nat,
        e: DecodingError,
        now: Marks,
        to_change: bool,
        depth: nat,
    ) -> bool {
        let store = backend.records();
        &&& depth <= h
        &&& self.on_way(store, key, depth) is Unloaded
        &&& failed_at::<K, B>(backend, self.on_way(store, key, depth).target(), e)
        &&& now == self.marks(store, h).visited(
            self.outline(store, h),
            key,
            h,
            depth,
            to_change,
        )
    }

    /// A visit of the way to `key` through this subtree stopped at the first
    /// link on the way whose node could not be read, with the failure `e`.
    pub open spec fn stopped<B: StorageBackend<K>>(
        self,
        backend: &B,
        key: K,
        h: nat,
        e: DecodingError,
        now: Marks,
        to_change: bool,
    ) -> bool {
        exists|depth: nat| #[trigger] self.stopped_at(backend, key, h, e, now, to_change, depth)
    }

    /// A node that is in memory, and whose child on the way to `key` has
    /// been visited `depth` levels down, has itself been visited one level
    /// further.
    pub proof fn lemma_visited_below(
        self,
        before: NodeRef<K>,
        store: Store<K>,
        key: K,
        h: nat,
        depth: nat,
        to_change: bool,
    )
        requires
            h > 0,
            0 <= rank(before.keys(store), key) < before.links(store).len(),
            self is Loaded,
            self.dirty() == (before.dirty() || to_change),
            self.links(store) == before.links(store).update(
                rank(before.keys(store), key),
                self.links(store)[rank(before.keys(store), key)],
            ),
            self.links(store)[rank(before.keys(store), key)].marks(store, (h - 1) as nat)
                == before.links(store)[rank(before.keys(store), key)].marks(
                store,
                (h - 1) as nat,
            ).visited(
                before.links(store)[rank(before.keys(store), key)].outline(store, (h - 1) as nat),
                key,
                (h - 1) as nat,
                depth,
                to_change,
            ),
        ensures
            self.marks(store, h) == before.marks(store, h).visited(
                before.outline(store, h),
                key,
                h,
                depth + 1,
                to_change,
            ),
    {
        let j = rank(before.keys(store), key);
        self.lemma_marks_child(before, store, h, j);
        assert(before.outline(store, h).parts[j] == before.links(store)[j].outline(
            store,
            (h - 1) as nat,
        ));
        assert(before.marks(store, h).parts[j] == before.links(store)[j].marks(
            store,
            (h - 1) as nat,
        ));
    }
}

impl<K: Ord> NodeRef<K> {
    /// A node in memory whose child on the way to `key`, read in where
    /// needed, has been visited `depth` levels down has itself been visited
    /// one level further; and the links further down its way are those on
    /// the child's.
    pub proof fn lemma_visit_step(
        self,
        before: NodeRef<K>,
        child_read: NodeRef<K>,
        store: Store<K>,
        key: K,
        h: nat,
        depth: nat,
        to_change: bool,
    )
        requires
            h > 0,
            depth > 0,
            0 <= rank(before.keys(store), key) < before.links(store).len(),
            child_read.same_shape(before.links(store)[rank(before.keys(store), key)], store),
            child_read.dirty() == (before.links(store)[rank(before.keys(store), key)].dirty()
                || to_change),
            self is Loaded,
            self.dirty() == (before.dirty() || to_change),
            self.links(store) == before.links(store).update(
                rank(before.keys(store), key),
                self.links(store)[rank(before.keys(store), key)],
            ),
            self.links(store)[rank(before.keys(store), key)].marks(store, (h - 1) as nat)
                == child_read.marks(store, (h - 1) as nat).visited(
                child_read.outline(store, (h - 1) as nat),
                key,
                (h - 1) as nat,
                depth,
                to_change,
            ),
        ensures
            self.marks(store, h) == before.marks(store, h).visited(
                before.outline(store, h),
                key,
                h,
                depth + 1,
                to_change,
            ),
            before.on_way(store, key, depth + 1) == child_read.on_way(store, key, depth),
    {
        let j = rank(before.keys(store), key);
        let child = before.links(store)[j];
        let below = (h - 1) as nat;
        child_read.lemma_same_shape_outline(child, store, below);
        child_read.lemma_same_shape_marks(child, store, below);
        child_read.marks(store, below).lemma_visited_alike(
            child.marks(store, below),
            child.outline(store, below),
            key,
            below,
            depth,
            to_change,
        );
        self.lemma_visited_below(before, store, key, h, depth, to_change);
        assert(before.on_way(store, key, depth + 1) == child.on_way(store, key, depth));
    }

    /// Where the visit of a child stopped, the visit of the node above it
    /// stopped one level further down.
    pub proof fn lemma_stop_step<B: StorageBackend<K>>(
        self,
        before: NodeRef<K>,
        child_read: NodeRef<K>,
        backend: &B,
        key: K,
        h: nat,
        e: DecodingError,
        to_change: bool,
    )
        requires
            h > 0,
            0 <= rank(before.keys(backend.records()), key) < before.links(backend.records()).len(),
            child_read is Loaded,
            child_read.same_shape(
                before.links(backend.records())[rank(before.keys(backend.records()), key)],
                backend.records(),
            ),
            child_read.dirty() == (before.links(backend.records())[rank(
                before.keys(backend.records()),
                key,
            )].dirty() || to_change),
            self is Loaded,
            self.dirty() == (before.dirty() || to_change),
            self.links(backend.records()) == before.links(backend.records()).update(
                rank(before.keys(backend.records()), key),
                self.links(backend.records())[rank(before.keys(backend.records()), key)],
            ),
            child_read.stopped(
                backend,
                key,
                (h - 1) as nat,
                e,
                self.links(backend.records())[rank(before.keys(backend.records()), key)].marks(
                    backend.records(),
                    (h - 1) as nat,
                ),
                to_change,
            ),
        ensures
            before.stopped(backend, key, h, e, self.marks(backend.records(), h), to_change),
    {
        let store = backend.records();
        let j = rank(before.keys(store), key);
        let now_below = self.links(store)[j].marks(store, (h - 1) as nat);
        let depth = choose|depth: nat| #[trigger]
            child_read.stopped_at(backend, key, (h - 1) as nat, e, now_below, to_change, depth);
        assert(depth > 0);
        self.lemma_visit_step(before, child_read, store, key, h, depth, to_change);
        assert(before.stopped_at(
            backend,
            key,
            h,
            e,
            self.marks(store, h),
            to_change,
            depth + 1,
        ));
    }

    /// A link whose node has been read in stands, for a visit that went on
    /// from the node, where the node stands: what the node's marks became
    /// are what the link's became, and where the visit of the node stopped
    /// the visit of the link stopped.
    pub proof fn lemma_read_then_visited<B: StorageBackend<K>>(
        self,
        before: NodeRef<K>,
        backend: &B,
        key: K,
        value: u64,
        limit: nat,
        h: nat,
        to_change: bool,
    )
        requires
            self is Loaded,
            self.same_shape(before, backend.records()),
            self.dirty() == (before.dirty() || to_change),
        ensures
            self.marks(backend.records(), h).visited(
                self.outline(backend.records(), h),
                key,
                h,
                h + 1,
                to_change,
            ) == before.marks(backend.records(), h).visited(
                before.outline(backend.records(), h),
                key,
                h,
                h + 1,
                to_change,
            ),
            self.marks(backend.records(), h).taken(
                self.outline(backend.records(), h),
                key,
                value,
                limit,
                h,
            ) == before.marks(backend.records(), h).taken(
                before.outline(backend.records(), h),
                key,
                value,
                limit,
                h,
            ),
            forall|e: DecodingError, now: Marks|
                #[trigger] self.stopped(backend, key, h, e, now, to_change) ==> before.stopped(
                    backend,
                    key,
                    h,
                    e,
                    now,
                    to_change,
                ),
    {
        let store = backend.records();
        self.lemma_same_shape_outline(before, store, h);
        self.lemma_same_shape_marks(before, store, h);
        let mine = self.marks(store, h);
        let theirs = before.marks(store, h);
        let tree = before.outline(store, h);
        mine.lemma_visited_alike(theirs, tree, key, h, h + 1, to_change);
        mine.lemma_taken_alike(theirs, tree, key, value, limit, h);
        assert forall|e: DecodingError, now: Marks| #[trigger]
            self.stopped(backend, key, h, e, now, to_change) implies before.stopped(
            backend,
            key,
            h,
            e,
            now,
            to_change,
        ) by {
            let depth = choose|depth: nat| #[trigger]
                self.stopped_at(backend, key, h, e, now, to_change, depth);
            assert(depth > 0);
            mine.lemma_visited_alike(theirs, tree, key, h, depth, to_change);
            assert(self.on_way(store, key, depth) == before.on_way(store, key, depth));
            assert(before.stopped_at(backend, key, h, e, now, to_change, depth));
        }
    }

    /// A node in memory whose child on the way to `key` is unread, and could
    /// not be read, is where the visit stopped: one level down, with no mark
    /// changed below the node.
    pub proof fn lemma_stop_here<B: StorageBackend<K>>(
        self,
        before: NodeRef<K>,
        backend: &B,
        key: K,
        h: nat,
        e: DecodingError,
        to_change: bool,
    )
        requires
            h > 0,
            0 <= rank(before.keys(backend.records()), key) < before.links(backend.records()).len(),
            before.links(backend.records())[rank(before.keys(backend.records()), key)]
                is Unloaded,
            failed_at::<K, B>(
                backend,
                before.links(backend.records())[rank(
                    before.keys(backend.records()),
                    key,
                )].target(),
                e,
            ),
            self is Loaded,
            self.dirty() == (before.dirty() || to_change),
            self.links(backend.records()) == before.links(backend.records()),
        ensures
            before.stopped(backend, key, h, e, self.marks(backend.records(), h), to_change),
    {
        let store = backend.records();
        let j = rank(before.keys(store), key);
        assert(self.marks(store, h).parts =~= before.marks(store, h).parts);
        assert(before.marks(store, h).parts.update(j, before.marks(store, h).parts[j])
            =~= before.marks(store, h).parts);
        assert(before.on_way(store, key, 1) == before.links(store)[j].on_way(store, key, 0));
        let below = before.marks(store, h).parts[j];
        assert(below.visited(
            before.outline(store, h).parts[j],
            key,
            (h - 1) as nat,
            0,
            to_change,
        ) == below);
        assert(self.marks(store, h) == before.marks(store, h).visited(
            before.outline(store, h),
            key,
            h,
            1,
            to_change,
        ));
        assert(before.stopped_at(backend, key, h, e, self.marks(store, h), to_change, 1));
    }
}

impl Marks {
    /// The marks of a tree that is a single new leaf: in memory, and
    /// marked as changed, as it has never been written.
    pub open spec fn fresh() -> Marks {
        Marks { held: true, changed: true, parts: Seq::empty() }
    }

    /// Marks that agree below the top, and on whether the top is or becomes
    /// marked, are the same after a visit that reaches the top.
    pub proof fn lemma_visited_alike<K: Ord>(
        self,
        other: Marks,
        tree: Outline<K>,
        key: K,
        h: nat,
        depth: nat,
        to_change: bool,
    )
        requires
            depth > 0,
            self.parts == other.parts,
            (self.changed || to_change) == (other.changed || to_change),
        ensures
            self.visited(tree, key, h, depth, to_change) == other.visited(
                tree,
                key,
                h,
                depth,
                to_change,
            ),
    {
    }

    /// Marks that agree below the top are the same after an insertion.
    pub proof fn lemma_taken_alike<K: Ord>(
        self,
        other: Marks,
        tree: Outline<K>,
        key: K,
        value: u64,
        limit: nat,
        h: nat,
    )
        requires
            self.parts == other.parts,
        ensures
            self.taken(tree, key, value, limit, h) == other.taken(tree, key, value, limit, h),
    {
    }

    /// These marks after the nodes on the way to `key` through `tree`, of
    /// height `h`, have been visited `depth` levels down: each of them is in
    /// memory and, where the visit was `to_change`, marked as changed. No
    /// other node differs.
    pub open spec fn visited<K: Ord>(
        self,
        tree: Outline<K>,
        key: K,
        h: nat,
        depth: nat,
        to_change: bool,
    ) -> Marks
        decreases depth,
    {
        if depth == 0 {
            self
        } else {
            let j = rank(tree.keys, key);
            Marks {
                held: true,
                changed: self.changed || to_change,
                parts: if h == 0 {
                    self.parts
                } else {
                    self.parts.update(
                        j,
                        self.parts[j].visited(
                            tree.parts[j],
                            key,
                            (h - 1) as nat,
                            (depth - 1) as nat,
                            to_change,
                        ),
                    )
                },
            }
        }
    }

    /// The marks of the front half of a node that is cut in the middle, where
    /// `whole` is the node before the cut: the node's own, over those of the
    /// children before the middle.
    pub open spec fn front<K>(self, whole: Outline<K>) -> Marks {
        Marks {
            held: self.held,
            changed: self.changed,
            parts: if whole.kind == NodeType::Leaf {
                self.parts
            } else {
                self.parts.subrange(0, whole.keys.len() as int / 2)
            },
        }
    }

    /// The marks of the back half of a node that is cut in the middle: a new
    /// node, in memory and marked as changed, over the marks of the children
    /// from the middle on.
    pub open spec fn back<K>(self, whole: Outline<K>) -> Marks {
        Marks {
            held: true,
            changed: true,
            parts: if whole.kind == NodeType::Leaf {
                self.parts
            } else {
                self.parts.subrange(whole.keys.len() as int / 2, whole.keys.len() as int + 1)
            },
        }
    }

    /// These marks after the subtree `tree`, of height `h`, has taken `key`
    /// with `value`: every node on the way is in memory and marked as
    /// changed, a child that was split has given way to its two halves, and
    /// no other node differs.
    pub open spec fn taken<K: Ord>(
        self,
        tree: Outline<K>,
        key: K,
        value: u64,
        limit: nat,
        h: nat,
    ) -> Marks
        decreases h,
    {
        let j = rank(tree.keys, key);
        if h == 0 {
            Marks { held: true, changed: true, parts: self.parts }
        } else {
            let child = tree.parts[j].taken(key, value, limit, (h - 1) as nat);
            let below = self.parts[j].taken(tree.parts[j], key, value, limit, (h - 1) as nat);
            Marks {
                held: true,
                changed: true,
                parts: if child.width() > limit {
                    self.parts.update(j, below.front(child)).insert(j + 1, below.back(child))
                } else {
                    self.parts.update(j, below)
                },
            }
        }
    }

    /// These marks after the whole tree has taken `key` with `value`: those
    /// of the root, under a new root, in memory and marked as changed, where
    /// the root was split.
    pub open spec fn inserted<K: Ord>(
        self,
        tree: Outline<K>,
        key: K,
        value: u64,
        limit: nat,
        h: nat,
    ) -> Marks {
        let top = tree.taken(key, value, limit, h);
        let below = self.taken(tree, key, value, limit, h);
        if top.width() > limit {
            Marks { held: true, changed: true, parts: seq![below.front(top), below.back(top)] }
        } else {
            below
        }
    }
}

} // verus!
