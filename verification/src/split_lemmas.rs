//! Why the two halves of a split node, and a new root above them, are well
//! formed and hold between them what the node held.

use crate::key_order::{key_laws, key_le, key_lt, lemma_lt_transitive, lemma_trichotomy};
use crate::offset_tree::NodeRef;
use crate::search_lemmas::{lemma_rank, lemma_rank_after_cut, lemma_rank_against, lemma_rank_is};
use crate::storage_backend::NodeType;
use crate::tree_model::{
    above, below, fits, hi_of, joined, lo_of, lookup, rank, sorted, Store,
};
use vstd::prelude::*;

verus! {

impl<K: Ord + Clone> NodeRef<K> {
    /// A leaf cut in the middle: the front half with the last key of the
    /// front as separator, and the back half.
    pub proof fn lemma_split_leaf(
        self,
        left: NodeRef<K>,
        right: NodeRef<K>,
        sep: K,
        store: Store<K>,
        lo: Option<K>,
        hi: Option<K>,
        root: bool,
        cap: Option<nat>,
    )
        requires
            key_laws::<K>(),
            self.wf_at(store, 0, lo, hi, root, None),
            self.keys(store).len() >= 4,
            left.present(store),
            left.kind(store) == NodeType::Leaf,
            left.keys(store) == self.keys(store).subrange(0, self.keys(store).len() as int / 2),
            left.links(store) == self.links(store).subrange(0, self.keys(store).len() as int / 2),
            right.present(store),
            right.kind(store) == NodeType::Leaf,
            right.keys(store) == self.keys(store).subrange(
                self.keys(store).len() as int / 2,
                self.keys(store).len() as int,
            ),
            right.links(store) == self.links(store).subrange(
                self.keys(store).len() as int / 2,
                self.keys(store).len() as int,
            ),
            sep == self.keys(store)[self.keys(store).len() as int / 2 - 1],
            fits((self.keys(store).len() - self.keys(store).len() / 2) as nat, cap),
        ensures
            left.wf_at(store, 0, lo, Some(sep), false, cap),
            right.wf_at(store, 0, Some(sep), hi, false, cap),
            above(lo, sep),
            below(hi, sep),
            joined(self.entries(store, 0), left.entries(store, 0), right.entries(store, 0), sep),
    {
        let keys = self.keys(store);
        let links = self.links(store);
        let n = keys.len() as int;
        let half = n / 2;
        lemma_rank_after_cut(keys, half, sep);
        assert(below(hi, sep)) by {
            if hi is Some && keys[half] != hi->0 {
                lemma_lt_transitive(sep, keys[half], hi->0);
            }
        }
        assert forall|i: int| 0 <= i < left.keys(store).len() implies above(
            lo,
            #[trigger] left.keys(store)[i],
        ) && key_le(left.keys(store)[i], sep) by {
            assert(left.keys(store)[i] == keys[i]);
        }
        assert forall|i: int| 0 <= i < right.keys(store).len() implies key_lt(
            sep,
            #[trigger] right.keys(store)[i],
        ) by {
            assert(right.keys(store)[i] == keys[i + half]);
        }
        assert forall|i: int| 0 <= i < right.keys(store).len() implies above(
            Some(sep),
            #[trigger] right.keys(store)[i],
        ) && crate::tree_model::at_most(hi, right.keys(store)[i]) by {
            assert(right.keys(store)[i] == keys[i + half]);
        }
        assert forall|i: int| 0 <= i < left.links(store).len() implies #[trigger] left.links(
            store,
        )[i] is Unloaded by {
            assert(left.links(store)[i] == links[i]);
        }
        assert forall|i: int| 0 <= i < right.links(store).len() implies #[trigger] right.links(
            store,
        )[i] is Unloaded by {
            assert(right.links(store)[i] == links[i + half]);
        }
        let whole = self.entries(store, 0);
        assert forall|k: K| #![trigger lookup(whole, k)] lookup(whole, k) == if key_le(k, sep) {
            lookup(left.entries(store, 0), k)
        } else {
            lookup(right.entries(store, 0), k)
        } by {
            self.lemma_leaf_entry(store, lo, hi, root, None, k);
            left.lemma_leaf_entry(store, lo, Some(sep), false, cap, k);
            right.lemma_leaf_entry(store, Some(sep), hi, false, cap, k);
            lemma_rank_after_cut(keys, half, k);
            lemma_rank(keys, k);
            lemma_rank_against(keys, half - 1, k);
            let r = rank(keys, k);
            if key_le(k, sep) {
                assert(left.keys(store)[r] == keys[r]);
            }
        }
    }

    /// An inner node cut in the middle: the front half without its last
    /// key, that key as separator, and the back half.
    pub proof fn lemma_split_inner(
        self,
        left: NodeRef<K>,
        right: NodeRef<K>,
        sep: K,
        store: Store<K>,
        h: nat,
        lo: Option<K>,
        hi: Option<K>,
        root: bool,
        cap: Option<nat>,
    )
        requires
            key_laws::<K>(),
            h > 0,
            self.wf_loose(store, h, lo, hi, root, cap),
            self.keys(store).len() >= 4,
            left.present(store),
            left.kind(store) == NodeType::Internal,
            left.dirty(),
            left.keys(store) == self.keys(store).subrange(0, self.keys(store).len() as int / 2 - 1),
            left.links(store) == self.links(store).subrange(0, self.keys(store).len() as int / 2),
            right.present(store),
            right.kind(store) == NodeType::Internal,
            right.dirty(),
            right.keys(store) == self.keys(store).subrange(
                self.keys(store).len() as int / 2,
                self.keys(store).len() as int,
            ),
            right.links(store) == self.links(store).subrange(
                self.keys(store).len() as int / 2,
                self.keys(store).len() as int + 1,
            ),
            sep == self.keys(store)[self.keys(store).len() as int / 2 - 1],
            fits((self.keys(store).len() + 1 - self.keys(store).len() / 2) as nat, cap),
        ensures
            left.wf_at(store, h, lo, Some(sep), false, cap),
            right.wf_at(store, h, Some(sep), hi, false, cap),
            above(lo, sep),
            below(hi, sep),
            joined(self.entries(store, h), left.entries(store, h), right.entries(store, h), sep),
    {
        let keys = self.keys(store);
        let links = self.links(store);
        let n = keys.len() as int;
        let half = n / 2;
        let below_h = (h - 1) as nat;
        lemma_rank_after_cut(keys, half - 1, sep);
        lemma_rank_after_cut(keys, half, sep);
        let lkeys = left.keys(store);
        let rkeys = right.keys(store);
        assert forall|i: int| 0 <= i < lkeys.len() implies above(lo, #[trigger] lkeys[i]) && below(
            Some(sep),
            lkeys[i],
        ) by {
            assert(lkeys[i] == keys[i]);
        }
        assert forall|i: int| 0 <= i < rkeys.len() implies above(Some(sep), #[trigger] rkeys[i])
            && below(hi, rkeys[i]) by {
            assert(rkeys[i] == keys[i + half]);
        }
        assert forall|i: int| 0 <= i < left.links(store).len() implies (#[trigger] left.links(
            store,
        )[i]).wf_at(
            store,
            below_h,
            lo_of(lo, lkeys, i),
            hi_of(Some(sep), lkeys, i),
            false,
            cap,
        ) by {
            assert(left.links(store)[i] == links[i]);
        }
        assert forall|i: int| 0 <= i < right.links(store).len() implies (#[trigger] right.links(
            store,
        )[i]).wf_at(
            store,
            below_h,
            lo_of(Some(sep), rkeys, i),
            hi_of(hi, rkeys, i),
            false,
            cap,
        ) by {
            assert(right.links(store)[i] == links[i + half]);
        }
        let whole = self.entries(store, h);
        assert forall|k: K| #![trigger lookup(whole, k)] lookup(whole, k) == if key_le(k, sep) {
            lookup(left.entries(store, h), k)
        } else {
            lookup(right.entries(store, h), k)
        } by {
            self.lemma_route(store, h, lo, hi, root, None, k);
            left.lemma_route(store, h, lo, Some(sep), false, cap, k);
            right.lemma_route(store, h, Some(sep), hi, false, cap, k);
            lemma_rank_after_cut(keys, half - 1, k);
            lemma_rank_after_cut(keys, half, k);
            lemma_rank(keys, k);
            lemma_rank_against(keys, half - 1, k);
            let r = rank(keys, k);
            if key_le(k, sep) {
                assert(left.links(store)[r] == links[r]);
            } else {
                assert(right.links(store)[r - half] == links[r]);
            }
        }
    }

    /// A root put above the two halves of a split node, with the separator
    /// as its one key.
    pub proof fn lemma_grow_root(
        self,
        left: NodeRef<K>,
        right: NodeRef<K>,
        sep: K,
        store: Store<K>,
        h: nat,
        cap: Option<nat>,
    )
        requires
            key_laws::<K>(),
            self.present(store),
            self.kind(store) == NodeType::Root,
            self.dirty(),
            self.keys(store) == seq![sep],
            self.links(store) == seq![left, right],
            left.wf_at(store, h, None, Some(sep), false, cap),
            right.wf_at(store, h, Some(sep), None, false, cap),
            fits(2, cap),
        ensures
            self.wf_at(store, h + 1, None, None, true, cap),
            joined(
                self.entries(store, h + 1),
                left.entries(store, h),
                right.entries(store, h),
                sep,
            ),
    {
        let keys = self.keys(store);
        let links = self.links(store);
        assert forall|i: int| 0 <= i < links.len() implies (#[trigger] links[i]).wf_at(
            store,
            h,
            lo_of(None, keys, i),
            hi_of(None, keys, i),
            false,
            cap,
        ) by {}
        let whole = self.entries(store, h + 1);
        assert forall|k: K| #![trigger lookup(whole, k)] lookup(whole, k) == if key_le(k, sep) {
            lookup(left.entries(store, h), k)
        } else {
            lookup(right.entries(store, h), k)
        } by {
            self.lemma_route(store, h + 1, None, None, true, cap, k);
            lemma_trichotomy(k, sep);
            if key_le(k, sep) {
                lemma_rank_is(keys, k, 0);
            } else {
                lemma_rank_is(keys, k, 1);
            }
        }
    }

    /// The halves of a split node, both in memory and marked as changed,
    /// keep the node's ways between them.
    pub proof fn lemma_split_kept_paths(
        self,
        left: NodeRef<K>,
        right: NodeRef<K>,
        sep: K,
        store: Store<K>,
        h: nat,
    )
        requires
            key_laws::<K>(),
            sorted(self.keys(store)),
            self.keys(store).len() >= 2,
            left is Loaded,
            right is Loaded,
            left.dirty(),
            right.dirty(),
            h > 0 ==> {
                &&& self.links(store).len() == self.keys(store).len() + 1
                &&& left.keys(store) == self.keys(store).subrange(
                    0,
                    self.keys(store).len() as int / 2 - 1,
                )
                &&& left.links(store) == self.links(store).subrange(
                    0,
                    self.keys(store).len() as int / 2,
                )
                &&& right.keys(store) == self.keys(store).subrange(
                    self.keys(store).len() as int / 2,
                    self.keys(store).len() as int,
                )
                &&& right.links(store) == self.links(store).subrange(
                    self.keys(store).len() as int / 2,
                    self.keys(store).len() as int + 1,
                )
            },
            sep == self.keys(store)[self.keys(store).len() as int / 2 - 1],
        ensures
            self.halves_keep_paths(left, right, sep, store, h),
    {
        let keys = self.keys(store);
        let links = self.links(store);
        let half = keys.len() as int / 2;
        assert forall|k: K, c: bool| #[trigger]
            self.reached(store, h, k, c) implies if key_le(k, sep) {
            left.reached(store, h, k, c)
        } else {
            right.reached(store, h, k, c)
        } by {
            if h > 0 {
                lemma_rank_after_cut(keys, half - 1, k);
                lemma_rank_after_cut(keys, half, k);
                lemma_rank(keys, k);
                lemma_rank_against(keys, half - 1, k);
                let r = rank(keys, k);
                if key_le(k, sep) {
                    assert(left.links(store)[r] == links[r]);
                } else {
                    assert(right.links(store)[r - half] == links[r]);
                }
            }
        }
    }

    /// Where this node kept the ways of `before`, and was then split or left
    /// alone, the outcome keeps the ways of `before`.
    pub proof fn lemma_halves_after(
        self,
        before: NodeRef<K>,
        after: NodeRef<K>,
        split: Option<(K, Box<crate::offset_tree::Node<K>>)>,
        store: Store<K>,
        h: nat,
    )
        requires
            self.keeps_paths(before, store, h),
            match split {
                None => after == self,
                Some((sep, right)) => self.halves_keep_paths(after, right.link(), sep, store, h),
            },
        ensures
            match split {
                None => after.keeps_paths(before, store, h),
                Some((sep, right)) => before.halves_keep_paths(after, right.link(), sep, store, h),
            },
    {
        match split {
            None => {},
            Some((sep, right)) => {
                assert forall|k: K, c: bool| #[trigger]
                    before.reached(store, h, k, c) implies if key_le(k, sep) {
                    after.reached(store, h, k, c)
                } else {
                    right.link().reached(store, h, k, c)
                } by {
                    assert(self.reached(store, h, k, c));
                }
            },
        }
    }

    /// A new root, in memory and marked as changed, above the halves of the
    /// old one keeps the ways the tree had before the insertion.
    pub proof fn lemma_grow_kept_paths(
        self,
        before: NodeRef<K>,
        lower: NodeRef<K>,
        left: NodeRef<K>,
        right: NodeRef<K>,
        sep: K,
        store: Store<K>,
        h: nat,
    )
        requires
            key_laws::<K>(),
            self is Loaded,
            self.dirty(),
            self.keys(store) == seq![sep],
            self.links(store) == seq![left, right],
            before.halves_keep_paths(lower, right, sep, store, h),
            left.keeps_paths(lower, store, h),
        ensures
            forall|k: K, c: bool| #[trigger]
                before.reached(store, h, k, c) ==> self.reached(store, h + 1, k, c),
    {
        let keys = self.keys(store);
        assert forall|k: K, c: bool| #[trigger]
            before.reached(store, h, k, c) implies self.reached(store, h + 1, k, c) by {
            lemma_trichotomy(k, sep);
            if key_le(k, sep) {
                lemma_rank_is(keys, k, 0);
            } else {
                lemma_rank_is(keys, k, 1);
            }
        }
    }
}

} // verus!
