//! What follows for a user of the tree from the contracts of its
//! operations.

use crate::offset_tree::{NodeRef, OffsetTree};
use crate::storage_backend::NodeType;
use crate::key_order::key_laws;
use crate::search_lemmas::lemma_rank;
use crate::tree_model::{fits, hi_of, lo_of, lookup, rank, sorted, threshold_of, Store};
use vstd::prelude::*;

verus! {

/// The entries after `pairs` have been inserted one after the other,
/// starting from nothing.
pub open spec fn inserted<K>(pairs: Seq<(K, u64)>) -> Map<K, u64>
    decreases pairs.len(),
{
    if pairs.len() == 0 {
        Map::empty()
    } else {
        inserted(pairs.drop_last()).insert(pairs.last().0, pairs.last().1)
    }
}

/// After any run of insertions a lookup of a key gives the value that was
/// inserted with it last. Where every key is inserted once, that is the value
/// it was inserted with, in whatever order the insertions came.
pub proof fn lemma_last_insert_wins<K>(pairs: Seq<(K, u64)>, i: int)
    requires
        0 <= i < pairs.len(),
        forall|j: int| i < j < pairs.len() ==> (#[trigger] pairs[j]).0 != pairs[i].0,
    ensures
        lookup(inserted(pairs), pairs[i].0) == Some(pairs[i].1),
    decreases pairs.len(),
{
    if i < pairs.len() - 1 {
        let front = pairs.drop_last();
        assert forall|j: int| i < j < front.len() implies (#[trigger] front[j]).0 != front[i].0 by {
            assert(front[j] == pairs[j]);
        }
        lemma_last_insert_wins(front, i);
    }
}

/// A run of insertions that starts from nothing, each adding its pair to
/// what the one before left, ends with the entries of the whole run.
pub proof fn lemma_run_of_insertions<K>(states: Seq<Map<K, u64>>, pairs: Seq<(K, u64)>)
    requires
        states.len() == pairs.len() + 1,
        states[0] == Map::<K, u64>::empty(),
        forall|i: int|
            0 <= i < pairs.len() ==> #[trigger] states[i + 1] == states[i].insert(
                pairs[i].0,
                pairs[i].1,
            ),
    ensures
        states.last() == inserted(pairs),
    decreases pairs.len(),
{
    if pairs.len() > 0 {
        let n = pairs.len() as int;
        lemma_run_of_insertions(states.drop_last(), pairs.drop_last());
        assert(states.drop_last().last() == states[n - 1]);
        assert(states[n - 1 + 1] == states[n - 1].insert(pairs[n - 1].0, pairs[n - 1].1));
    }
}

/// A key that was never inserted is not found.
pub proof fn lemma_never_inserted<K>(pairs: Seq<(K, u64)>, k: K)
    requires
        forall|j: int| 0 <= j < pairs.len() ==> (#[trigger] pairs[j]).0 != k,
    ensures
        lookup(inserted(pairs), k) is None,
    decreases pairs.len(),
{
    if pairs.len() > 0 {
        let front = pairs.drop_last();
        assert forall|j: int| 0 <= j < front.len() implies (#[trigger] front[j]).0 != k by {
            assert(front[j] == pairs[j]);
        }
        lemma_never_inserted(front, k);
    }
}

/// Inserting a key a second time replaces its value and adds no entry: the
/// second value is the one found, the keys are those after the first
/// insertion, and the outcome is as if the first insertion had not been.
pub proof fn lemma_overwrite<K>(entries: Map<K, u64>, key: K, first: u64, second: u64)
    ensures
        lookup(entries.insert(key, first).insert(key, second), key) == Some(second),
        entries.insert(key, first).insert(key, second).dom() == entries.insert(key, first).dom(),
        entries.insert(key, first).insert(key, second) == entries.insert(key, second),
{
    assert(entries.insert(key, first).insert(key, second).dom() =~= entries.insert(
        key,
        first,
    ).dom());
}

/// In a tree without entries no key is found.
pub proof fn lemma_nothing_in_empty<K>(k: K)
    ensures
        lookup(Map::<K, u64>::empty(), k) is None,
{
}

impl<K: Ord + Clone> NodeRef<K> {
    /// `path` names a node of the subtree of height `h` under this link: at
    /// each level it gives the position of a link that exists, and it ends
    /// at the leaves at the latest.
    pub open spec fn has_node(self, store: Store<K>, h: nat, path: Seq<int>) -> bool
        decreases path.len(),
    {
        path.len() == 0 || {
            &&& h > 0
            &&& 0 <= path[0] < self.links(store).len()
            &&& self.links(store)[path[0]].has_node(store, (h - 1) as nat, path.drop_first())
        }
    }

    /// The node that `path` names.
    pub open spec fn node_at(self, store: Store<K>, path: Seq<int>) -> NodeRef<K>
        decreases path.len(),
    {
        if path.len() == 0 {
            self
        } else {
            self.links(store)[path[0]].node_at(store, path.drop_first())
        }
    }

    /// Every node of a well-formed subtree has its keys in strictly
    /// ascending order; it is a leaf with one link per key exactly where it
    /// is at the bottom, and has one link more than keys elsewhere; below
    /// the root it has two links or more; and it has no more links than the
    /// limit the subtree is well formed under.
    pub proof fn lemma_every_node(
        self,
        store: Store<K>,
        h: nat,
        lo: Option<K>,
        hi: Option<K>,
        root: bool,
        cap: Option<nat>,
        path: Seq<int>,
    )
        requires
            self.wf_at(store, h, lo, hi, root, cap),
            self.has_node(store, h, path),
        ensures
            ({
                let node = self.node_at(store, path);
                &&& path.len() <= h
                &&& node.present(store)
                &&& sorted(node.keys(store))
                &&& fits(node.links(store).len(), cap)
                &&& (path.len() > 0 || !root) ==> node.links(store).len() >= 2
                &&& path.len() == h ==> {
                    &&& node.kind(store) == NodeType::Leaf
                    &&& node.links(store).len() == node.keys(store).len()
                }
                &&& path.len() < h ==> {
                    &&& node.kind(store) != NodeType::Leaf
                    &&& node.links(store).len() == node.keys(store).len() + 1
                }
            }),
        decreases path.len(),
    {
        if path.len() > 0 {
            self.links(store)[path[0]].lemma_every_node(
                store,
                (h - 1) as nat,
                lo_of(lo, self.keys(store), path[0]),
                hi_of(hi, self.keys(store), path[0]),
                false,
                cap,
                path.drop_first(),
            );
        }
    }
}

impl<K: Ord + Clone> NodeRef<K> {
    /// A store that gains records changes nothing for a subtree that was
    /// well formed in it: the subtree is well formed in the larger store,
    /// holds the same entries there, and has the same ways in memory.
    pub proof fn lemma_store_extended(
        self,
        store: Store<K>,
        wider: Store<K>,
        h: nat,
        lo: Option<K>,
        hi: Option<K>,
        root: bool,
        cap: Option<nat>,
    )
        requires
            key_laws::<K>(),
            self.wf_at(store, h, lo, hi, root, cap),
            store.submap_of(wider),
        ensures
            self.shape(wider) == self.shape(store),
            self.wf_at(wider, h, lo, hi, root, cap),
            self.entries(wider, h) == self.entries(store, h),
            forall|k: K, c: bool| #[trigger]
                self.reached(wider, h, k, c) == self.reached(store, h, k, c),
        decreases h,
    {
        let keys = self.keys(store);
        let links = self.links(store);
        assert(self.shape(wider) == self.shape(store)) by {
            if self is Unloaded {
                let off = self.target();
                assert(store.dom().contains(off) ==> wider.dom().contains(off) && store[off]
                    == wider[off]);
            }
        }
        if h == 0 {
            assert(self.entries(wider, h) =~= self.entries(store, h));
        } else {
            let below_h = (h - 1) as nat;
            assert forall|i: int| 0 <= i < links.len() implies {
                &&& (#[trigger] links[i]).wf_at(
                    wider,
                    below_h,
                    lo_of(lo, keys, i),
                    hi_of(hi, keys, i),
                    false,
                    cap,
                )
                &&& links[i].entries(wider, below_h) == links[i].entries(store, below_h)
                &&& forall|k: K, c: bool| #[trigger]
                    links[i].reached(wider, below_h, k, c) == links[i].reached(store, below_h, k, c)
            } by {
                links[i].lemma_store_extended(
                    store,
                    wider,
                    below_h,
                    lo_of(lo, keys, i),
                    hi_of(hi, keys, i),
                    false,
                    cap,
                );
            }
            let mine = self.entries(wider, h);
            let theirs = self.entries(store, h);
            assert forall|k: K|
                #[trigger] mine.dom().contains(k) == theirs.dom().contains(k) && (
                mine.dom().contains(k) ==> mine[k] == theirs[k]) by {
                self.lemma_route(wider, h, lo, hi, root, cap, k);
                self.lemma_route(store, h, lo, hi, root, cap, k);
            }
            assert forall|k: K, c: bool| #[trigger]
                self.reached(wider, h, k, c) == self.reached(store, h, k, c) by {
                lemma_rank(keys, k);
                let r = rank(keys, k);
                assert(links[r].reached(wider, below_h, k, c) == links[r].reached(
                    store,
                    below_h,
                    k,
                    c,
                ));
            }
        }
    }
}

impl<K: Ord + Clone> OffsetTree<K> {
    /// Through a run of trees that starts within its threshold, where each
    /// tree that is within its threshold is followed by one that is, as
    /// after an insertion, every tree is within its threshold: so it is for
    /// every tree grown from an empty one by insertions alone.
    pub proof fn lemma_run_within_threshold(trees: Seq<OffsetTree<K>>, store: Store<K>, i: int)
        requires
            0 <= i < trees.len(),
            trees[0].within_threshold(store),
            forall|j: int|
                0 <= j < trees.len() - 1 && trees[j].within_threshold(store) ==> (
                #[trigger] trees[j + 1]).within_threshold(store),
        ensures
            trees[i].within_threshold(store),
        decreases i,
    {
        if i > 0 {
            Self::lemma_run_within_threshold(trees, store, i - 1);
            assert(trees[i - 1 + 1].within_threshold(store));
        }
    }

    /// A store that gains records changes nothing for a tree that was well
    /// formed in it: new records can be appended, and other versions of the
    /// tree built beside this one, without this one being disturbed.
    pub proof fn lemma_store_extended(&self, store: Store<K>, wider: Store<K>)
        requires
            key_laws::<K>(),
            self.wf(store),
            store.submap_of(wider),
        ensures
            self.wf(wider),
            self.height(wider) == self.height(store),
            self.entries(wider) == self.entries(store),
            self.within_threshold(store) ==> self.within_threshold(wider),
            forall|k: K| #[trigger] self.resident(wider, k) == self.resident(store, k),
            forall|k: K| #[trigger] self.marked(wider, k) == self.marked(store, k),
    {
        let h = self.height(store);
        self.root().lemma_store_extended(store, wider, h, None, None, true, None);
        self.root().lemma_height_unique(
            wider,
            h,
            None,
            None,
            true,
            None,
            self.height(wider),
            None,
            None,
            true,
            None,
        );
        if self.within_threshold(store) {
            let cap = Some(threshold_of(self.order()));
            let h2 = choose|h2: nat| self.root().wf_at(store, h2, None, None, true, cap);
            self.root().lemma_store_extended(store, wider, h2, None, None, true, cap);
        }
    }


    /// In a well-formed tree every node has its keys in strictly ascending
    /// order, a leaf has one link per key and any other node one more, and
    /// every node below the root has two links or more.
    pub proof fn lemma_node_shapes(&self, store: Store<K>, path: Seq<int>)
        requires
            self.wf(store),
            self.root().has_node(store, self.height(store), path),
        ensures
            ({
                let node = self.root().node_at(store, path);
                &&& sorted(node.keys(store))
                &&& path.len() > 0 ==> node.links(store).len() >= 2
                &&& node.kind(store) == NodeType::Leaf ==> node.links(store).len()
                    == node.keys(store).len()
                &&& node.kind(store) != NodeType::Leaf ==> node.links(store).len()
                    == node.keys(store).len() + 1
            }),
    {
        self.root().lemma_every_node(store, self.height(store), None, None, true, None, path);
    }

    /// In a tree within its threshold no node has more links than the
    /// split threshold, so none has more than one past it.
    pub proof fn lemma_node_sizes(&self, store: Store<K>, path: Seq<int>)
        requires
            self.within_threshold(store),
            self.root().has_node(store, self.height(store), path),
        ensures
            self.root().node_at(store, path).links(store).len() <= threshold_of(self.order()),
            self.root().node_at(store, path).links(store).len() <= threshold_of(self.order()) + 1,
    {
        let cap = Some(threshold_of(self.order()));
        let h = choose|h: nat| self.root().wf_at(store, h, None, None, true, cap);
        self.root().lemma_cap_weaken(store, h, None, None, true, cap, None);
        self.root().lemma_height_unique(
            store,
            h,
            None,
            None,
            true,
            None,
            self.height(store),
            None,
            None,
            true,
            None,
        );
        self.root().lemma_every_node(store, h, None, None, true, cap, path);
    }
}

} // verus!
