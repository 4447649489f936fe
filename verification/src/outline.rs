//! The nodes of a tree as they stand, whether read or not, and what an
//! insertion makes of them: where the pair goes, when a node is split, where
//! it is cut and which key divides the halves.

use crate::key_order::key_laws;
use crate::offset_tree::NodeRef;
use crate::storage_backend::NodeType;
use crate::tree_model::{hi_of, lo_of, rank, Store};
use vstd::prelude::*;

verus! {

/// A subtree with every node read: the node's role and keys, and below them
/// the values of a leaf or the children of an inner node.
pub struct Outline<K> {
    pub kind: NodeType,
    pub keys: Seq<K>,
    pub offsets: Seq<u64>,
    pub parts: Seq<Outline<K>>,
}

impl<K> NodeRef<K> {
    /// The subtree of height `h` under this link, with every node taken
    /// from memory where it is held and from `store` where it is not.
    /// Whether a node has been read, or is marked as changed, makes no
    /// difference to it.
    pub open spec fn outline(self, store: Store<K>, h: nat) -> Outline<K>
        decreases h,
    {
        let links = self.links(store);
        if h == 0 {
            Outline {
                kind: self.kind(store),
                keys: self.keys(store),
                offsets: links.map_values(|l: NodeRef<K>| l.target()),
                parts: Seq::empty(),
            }
        } else {
            Outline {
                kind: self.kind(store),
                keys: self.keys(store),
                offsets: Seq::empty(),
                parts: Seq::new(links.len(), |i: int| links[i].outline(store, (h - 1) as nat)),
            }
        }
    }

    /// Links that stand for the same node have the same subtree under them.
    pub proof fn lemma_same_shape_outline(self, other: NodeRef<K>, store: Store<K>, h: nat)
        requires
            self.same_shape(other, store),
        ensures
            self.outline(store, h) == other.outline(store, h),
    {
        if h > 0 {
            assert(self.outline(store, h).parts =~= other.outline(store, h).parts);
        }
    }
}

impl<K> Outline<K> {
    /// The number of links of the top node: values in a leaf, children
    /// elsewhere.
    pub open spec fn width(self) -> nat {
        if self.kind == NodeType::Leaf {
            self.offsets.len()
        } else {
            self.parts.len()
        }
    }

    /// The front half of the top node cut at the middle key: a leaf keeps
    /// the keys and values before the middle; an inner node keeps the
    /// children before the middle, gives up the last key before it, and is
    /// an ordinary inner node from then on.
    pub open spec fn front(self) -> Outline<K> {
        let half = self.keys.len() as int / 2;
        if self.kind == NodeType::Leaf {
            Outline {
                kind: NodeType::Leaf,
                keys: self.keys.subrange(0, half),
                offsets: self.offsets.subrange(0, half),
                parts: Seq::empty(),
            }
        } else {
            Outline {
                kind: NodeType::Internal,
                keys: self.keys.subrange(0, half - 1),
                offsets: Seq::empty(),
                parts: self.parts.subrange(0, half),
            }
        }
    }

    /// The key that divides the halves: the last key before the middle.
    pub open spec fn middle(self) -> K {
        self.keys[self.keys.len() as int / 2 - 1]
    }

    /// The back half of the top node cut at the middle key: the keys from
    /// the middle on, with their values or with the children from the
    /// middle on.
    pub open spec fn back(self) -> Outline<K> {
        let n = self.keys.len() as int;
        let half = n / 2;
        if self.kind == NodeType::Leaf {
            Outline {
                kind: NodeType::Leaf,
                keys: self.keys.subrange(half, n),
                offsets: self.offsets.subrange(half, n),
                parts: Seq::empty(),
            }
        } else {
            Outline {
                kind: NodeType::Internal,
                keys: self.keys.subrange(half, n),
                offsets: Seq::empty(),
                parts: self.parts.subrange(half, n + 1),
            }
        }
    }

    /// A single leaf without entries.
    pub open spec fn bare() -> Outline<K> {
        Outline {
            kind: NodeType::Leaf,
            keys: Seq::empty(),
            offsets: Seq::empty(),
            parts: Seq::empty(),
        }
    }

    /// A new root above `left` and `right`, divided by `sep`.
    pub open spec fn above_halves(left: Outline<K>, sep: K, right: Outline<K>) -> Outline<K> {
        Outline {
            kind: NodeType::Root,
            keys: seq![sep],
            offsets: Seq::empty(),
            parts: seq![left, right],
        }
    }
}

impl<K: Ord> Outline<K> {
    /// This subtree, of height `h`, after it has taken `key` with `value`
    /// and before its top node is looked at for splitting. A leaf replaces
    /// the value beside `key`, or gains the pair at the key's rank. An inner
    /// node hands the pair to the child at the key's rank; where that child
    /// is then left with more than `limit` links it is cut in the middle,
    /// the front half stays in its place, and the dividing key and the back
    /// half go in beside it.
    pub open spec fn taken(self, key: K, value: u64, limit: nat, h: nat) -> Outline<K>
        decreases h,
    {
        let j = rank(self.keys, key);
        if h == 0 {
            if j < self.keys.len() && self.keys[j] == key {
                Outline {
                    kind: self.kind,
                    keys: self.keys,
                    offsets: self.offsets.update(j, value),
                    parts: self.parts,
                }
            } else {
                Outline {
                    kind: self.kind,
                    keys: self.keys.insert(j, key),
                    offsets: self.offsets.insert(j, value),
                    parts: self.parts,
                }
            }
        } else {
            let child = self.parts[j].taken(key, value, limit, (h - 1) as nat);
            if child.width() > limit {
                Outline {
                    kind: self.kind,
                    keys: self.keys.insert(j, child.middle()),
                    offsets: self.offsets,
                    parts: self.parts.update(j, child.front()).insert(j + 1, child.back()),
                }
            } else {
                Outline {
                    kind: self.kind,
                    keys: self.keys,
                    offsets: self.offsets,
                    parts: self.parts.update(j, child),
                }
            }
        }
    }

    /// This subtree, of height `h`, with the value beside `key` replaced by
    /// `value` in the leaf on the way to `key`, and nothing else changed: no
    /// key, no role, no number of links.
    pub open spec fn replaced(self, key: K, value: u64, h: nat) -> Outline<K>
        decreases h,
    {
        let j = rank(self.keys, key);
        if h == 0 {
            Outline {
                kind: self.kind,
                keys: self.keys,
                offsets: self.offsets.update(j, value),
                parts: self.parts,
            }
        } else {
            Outline {
                kind: self.kind,
                keys: self.keys,
                offsets: self.offsets,
                parts: self.parts.update(j, self.parts[j].replaced(key, value, (h - 1) as nat)),
            }
        }
    }

    /// Whether taking `key` with `value` leaves the top node with more than
    /// `limit` links, so that it is split.
    pub open spec fn splits(self, key: K, value: u64, limit: nat, h: nat) -> bool {
        self.taken(key, value, limit, h).width() > limit
    }

    /// The whole tree, of height `h`, after the insertion of `key` with
    /// `value`: what the root has become, under a new root where the root
    /// was split.
    pub open spec fn inserted(self, key: K, value: u64, limit: nat, h: nat) -> Outline<K> {
        let top = self.taken(key, value, limit, h);
        if top.width() > limit {
            Self::above_halves(top.front(), top.middle(), top.back())
        } else {
            top
        }
    }
}

impl<K: Ord + Clone> NodeRef<K> {
    /// The top of the outline of a well-formed subtree is the node itself:
    /// its role, its keys, and as many values or children as it has links.
    pub proof fn lemma_outline_top(
        self,
        store: Store<K>,
        h: nat,
        lo: Option<K>,
        hi: Option<K>,
        root: bool,
        cap: Option<nat>,
    )
        requires
            self.wf_at(store, h, lo, hi, root, cap),
        ensures
            self.outline(store, h).kind == self.kind(store),
            self.outline(store, h).keys == self.keys(store),
            self.outline(store, h).width() == self.links(store).len(),
            (self.kind(store) == NodeType::Leaf) == (h == 0),
    {
    }

    /// The links of a well-formed leaf are unread links to the values in
    /// its outline, one by one.
    pub proof fn lemma_leaf_links(
        self,
        store: Store<K>,
        lo: Option<K>,
        hi: Option<K>,
        root: bool,
        cap: Option<nat>,
    )
        requires
            self.wf_at(store, 0, lo, hi, root, cap),
        ensures
            self.links(store) == self.outline(store, 0).offsets.map_values(
                |o: u64| NodeRef::<K>::Unloaded(o),
            ),
    {
        assert(self.links(store) =~= self.outline(store, 0).offsets.map_values(
            |o: u64| NodeRef::<K>::Unloaded(o),
        ));
    }

    /// A leaf that has had the value beside `key` replaced, or has gained
    /// `key` with `value` at the key's rank, is the leaf that has taken the
    /// pair.
    pub proof fn lemma_outline_leaf(
        self,
        before: NodeRef<K>,
        store: Store<K>,
        key: K,
        value: u64,
        limit: nat,
    )
        requires
            0 <= rank(before.keys(store), key) <= before.keys(store).len(),
            before.links(store).len() == before.keys(store).len(),
            self.kind(store) == before.kind(store),
            if rank(before.keys(store), key) < before.keys(store).len() && before.keys(
                store,
            )[rank(before.keys(store), key)] == key {
                &&& self.keys(store) == before.keys(store)
                &&& self.links(store) == before.links(store).update(
                    rank(before.keys(store), key),
                    NodeRef::Unloaded(value),
                )
            } else {
                &&& self.keys(store) == before.keys(store).insert(
                    rank(before.keys(store), key),
                    key,
                )
                &&& self.links(store) == before.links(store).insert(
                    rank(before.keys(store), key),
                    NodeRef::Unloaded(value),
                )
            },
        ensures
            self.outline(store, 0) == before.outline(store, 0).taken(key, value, limit, 0),
    {
        assert(self.outline(store, 0).offsets =~= before.outline(store, 0).taken(
            key,
            value,
            limit,
            0,
        ).offsets);
    }

    /// An inner node with one child replaced has the old children in its
    /// outline but for that one.
    pub proof fn lemma_outline_child(self, before: NodeRef<K>, store: Store<K>, h: nat, j: int)
        requires
            h > 0,
            0 <= j < before.links(store).len(),
            self.kind(store) == before.kind(store),
            self.keys(store) == before.keys(store),
            self.links(store) == before.links(store).update(j, self.links(store)[j]),
        ensures
            self.outline(store, h) == (Outline {
                kind: before.outline(store, h).kind,
                keys: before.outline(store, h).keys,
                offsets: before.outline(store, h).offsets,
                parts: before.outline(store, h).parts.update(
                    j,
                    self.links(store)[j].outline(store, (h - 1) as nat),
                ),
            }),
    {
        assert(self.outline(store, h).parts =~= before.outline(store, h).parts.update(
            j,
            self.links(store)[j].outline(store, (h - 1) as nat),
        ));
    }

    /// An inner node that has taken a dividing key at `j` and a new child
    /// after the child at `j`, itself replaced, has them so in its outline.
    pub proof fn lemma_outline_absorb(
        self,
        before: NodeRef<K>,
        left: NodeRef<K>,
        right: NodeRef<K>,
        sep: K,
        store: Store<K>,
        h: nat,
        j: int,
    )
        requires
            h > 0,
            0 <= j < before.links(store).len(),
            self.kind(store) == before.kind(store),
            self.keys(store) == before.keys(store).insert(j, sep),
            self.links(store) == before.links(store).update(j, left).insert(j + 1, right),
        ensures
            self.outline(store, h) == (Outline {
                kind: before.outline(store, h).kind,
                keys: before.outline(store, h).keys.insert(j, sep),
                offsets: before.outline(store, h).offsets,
                parts: before.outline(store, h).parts.update(
                    j,
                    left.outline(store, (h - 1) as nat),
                ).insert(j + 1, right.outline(store, (h - 1) as nat)),
            }),
    {
        assert(self.outline(store, h).parts =~= before.outline(store, h).parts.update(
            j,
            left.outline(store, (h - 1) as nat),
        ).insert(j + 1, right.outline(store, (h - 1) as nat)));
    }

    /// Where no node has more links than `limit`, taking a value for a key
    /// that the subtree holds already replaces that value and does nothing
    /// else: no node changes its size, and none is split.
    pub proof fn lemma_overwrite_outline(
        self,
        store: Store<K>,
        h: nat,
        lo: Option<K>,
        hi: Option<K>,
        root: bool,
        limit: nat,
        key: K,
        value: u64,
    )
        requires
            key_laws::<K>(),
            self.wf_at(store, h, lo, hi, root, Some(limit)),
            self.entries(store, h).contains_key(key),
        ensures
            self.outline(store, h).taken(key, value, limit, h) == self.outline(store, h).replaced(
                key,
                value,
                h,
            ),
            self.outline(store, h).replaced(key, value, h).width() == self.links(store).len(),
            !self.outline(store, h).splits(key, value, limit, h),
        decreases h,
    {
        let keys = self.keys(store);
        let j = rank(keys, key);
        self.lemma_outline_top(store, h, lo, hi, root, Some(limit));
        if h == 0 {
            self.lemma_leaf_entry(store, lo, hi, root, Some(limit), key);
        } else {
            self.lemma_route(store, h, lo, hi, root, Some(limit), key);
            let child = self.links(store)[j];
            child.lemma_overwrite_outline(
                store,
                (h - 1) as nat,
                lo_of(lo, keys, j),
                hi_of(hi, keys, j),
                false,
                limit,
                key,
                value,
            );
            assert(self.outline(store, h).parts[j] == child.outline(store, (h - 1) as nat));
        }
    }

    /// The two nodes that a split leaves are the front and the back of the
    /// node that was split.
    pub proof fn lemma_outline_cut(
        self,
        left: NodeRef<K>,
        right: NodeRef<K>,
        store: Store<K>,
        h: nat,
    )
        requires
            (self.kind(store) == NodeType::Leaf) == (h == 0),
            self.keys(store).len() >= 2,
            self.links(store).len() == self.keys(store).len() + (if h == 0 {
                0int
            } else {
                1int
            }),
            left.kind(store) == (if h == 0 {
                NodeType::Leaf
            } else {
                NodeType::Internal
            }),
            right.kind(store) == left.kind(store),
            left.links(store) == self.links(store).subrange(0, self.keys(store).len() as int / 2),
            left.keys(store) == self.keys(store).subrange(
                0,
                if h == 0 {
                    self.keys(store).len() as int / 2
                } else {
                    self.keys(store).len() as int / 2 - 1
                },
            ),
            right.keys(store) == self.keys(store).subrange(
                self.keys(store).len() as int / 2,
                self.keys(store).len() as int,
            ),
            right.links(store) == self.links(store).subrange(
                self.keys(store).len() as int / 2,
                self.links(store).len() as int,
            ),
        ensures
            left.outline(store, h) == self.outline(store, h).front(),
            right.outline(store, h) == self.outline(store, h).back(),
    {
        let whole = self.outline(store, h);
        assert(left.outline(store, h).offsets =~= whole.front().offsets);
        assert(left.outline(store, h).parts =~= whole.front().parts);
        assert(right.outline(store, h).offsets =~= whole.back().offsets);
        assert(right.outline(store, h).parts =~= whole.back().parts);
    }

    /// A root with one key over two children has them so in its outline.
    pub proof fn lemma_outline_root(
        self,
        left: NodeRef<K>,
        right: NodeRef<K>,
        sep: K,
        store: Store<K>,
        h: nat,
    )
        requires
            self.kind(store) == NodeType::Root,
            self.keys(store) == seq![sep],
            self.links(store) == seq![left, right],
        ensures
            self.outline(store, h + 1) == Outline::above_halves(
                left.outline(store, h),
                sep,
                right.outline(store, h),
            ),
    {
        assert(self.outline(store, h + 1).parts =~= seq![
            left.outline(store, h),
            right.outline(store, h),
        ]);
    }
}

} // verus!
