//! How well-formedness and entries carry over when a node is read in, marked,
//! extended or split.

use crate::key_order::{key_laws, key_le, key_lt, lemma_lt_transitive, lemma_trichotomy};
use crate::offset_tree::NodeRef;
use crate::search_lemmas::{lemma_rank, lemma_rank_after_insert, lemma_rank_finds};
use crate::tree_model::{
    above, at_most, below, fits, hi_of, joined, lo_of, lookup, rank, sorted, Store,
};
use vstd::prelude::*;

verus! {

/// Two maps that are joined from the same two parts at the same key are the
/// same map.
pub proof fn lemma_joined_same<K: Ord>(
    first: Map<K, u64>,
    second: Map<K, u64>,
    left: Map<K, u64>,
    right: Map<K, u64>,
    sep: K,
)
    requires
        joined(first, left, right, sep),
        joined(second, left, right, sep),
    ensures
        first == second,
{
    assert forall|k: K| #[trigger] first.dom().contains(k) == second.dom().contains(k) by {
        assert(lookup(first, k) == lookup(second, k));
    }
    assert forall|k: K| #[trigger] first.dom().contains(k) implies first[k] == second[k] by {
        assert(lookup(first, k) == lookup(second, k));
    }
}

impl<K: Ord + Clone> NodeRef<K> {
    /// A link that stands for the same node as a well-formed one, and is
    /// marked as changed if that one is, is well formed too and holds the
    /// same entries.
    pub proof fn lemma_same_shape(
        self,
        other: NodeRef<K>,
        store: Store<K>,
        h: nat,
        lo: Option<K>,
        hi: Option<K>,
        root: bool,
        cap: Option<nat>,
    )
        requires
            other.wf_at(store, h, lo, hi, root, cap),
            self.same_shape(other, store),
            other.dirty() ==> self.dirty(),
        ensures
            self.wf_at(store, h, lo, hi, root, cap),
            self.entries(store, h) == other.entries(store, h),
    {
        assert(self.entries(store, h) =~= other.entries(store, h));
    }

    /// A link that stands for the same node as another, holds it in memory
    /// if the other does and is marked as changed if the other is, keeps
    /// the other's ways.
    pub proof fn lemma_same_shape_paths(self, other: NodeRef<K>, store: Store<K>, h: nat)
        requires
            self.same_shape(other, store),
            other is Loaded ==> self is Loaded,
            other.dirty() ==> self.dirty(),
        ensures
            self.keeps_paths(other, store, h),
    {
    }

    /// A link that stands for the same node as another, and is marked as
    /// changed only if the other is, adds no marks.
    pub proof fn lemma_same_shape_no_marks(self, other: NodeRef<K>, store: Store<K>, h: nat)
        requires
            self.same_shape(other, store),
            self.dirty() ==> other.dirty(),
        ensures
            self.adds_no_marks(other, store, h),
    {
    }

    /// An inner node, one of whose children has been replaced by one that
    /// added no marks, and which is marked as changed only if it was, adds
    /// no marks.
    pub proof fn lemma_child_added_no_marks(
        self,
        before: NodeRef<K>,
        store: Store<K>,
        h: nat,
        j: int,
    )
        requires
            key_laws::<K>(),
            h > 0,
            self.dirty() ==> before.dirty(),
            sorted(before.keys(store)),
            before.links(store).len() == before.keys(store).len() + 1,
            0 <= j < before.links(store).len(),
            self.keys(store) == before.keys(store),
            self.links(store) == before.links(store).update(j, self.links(store)[j]),
            self.links(store)[j].adds_no_marks(before.links(store)[j], store, (h - 1) as nat),
        ensures
            self.adds_no_marks(before, store, h),
    {
        assert forall|k: K| #[trigger] self.marked(store, h, k) implies before.marked(
            store,
            h,
            k,
        ) by {
            lemma_rank(before.keys(store), k);
            let r = rank(before.keys(store), k);
            let below_h = (h - 1) as nat;
            assert(self.links(store)[r].marked(store, below_h, k));
            if r != j {
                assert(self.links(store)[r] == before.links(store)[r]);
            } else {
                assert(before.links(store)[j].marked(store, below_h, k));
            }
        }
    }

    /// A way that is marked as changed is in memory.
    pub proof fn lemma_marked_is_resident(self, store: Store<K>, h: nat, k: K)
        requires
            self.marked(store, h, k),
        ensures
            self.resident(store, h, k),
        decreases h,
    {
        if h > 0 {
            self.links(store)[rank(self.keys(store), k)].lemma_marked_is_resident(
                store,
                (h - 1) as nat,
                k,
            );
        }
    }

    /// Two well-formed inner nodes with the same keys, whose children hold
    /// the same entries one by one, hold the same entries.
    pub proof fn lemma_entries_same_children(
        self,
        other: NodeRef<K>,
        store: Store<K>,
        h: nat,
        lo: Option<K>,
        hi: Option<K>,
        root: bool,
        cap: Option<nat>,
        other_root: bool,
        other_cap: Option<nat>,
    )
        requires
            key_laws::<K>(),
            h > 0,
            self.wf_at(store, h, lo, hi, root, cap),
            other.wf_at(store, h, lo, hi, other_root, other_cap),
            self.keys(store) == other.keys(store),
            forall|i: int|
                0 <= i < self.links(store).len() ==> (#[trigger] self.links(store)[i]).entries(
                    store,
                    (h - 1) as nat,
                ) == other.links(store)[i].entries(store, (h - 1) as nat),
        ensures
            self.entries(store, h) == other.entries(store, h),
    {
        let mine = self.entries(store, h);
        let theirs = other.entries(store, h);
        assert forall|k: K| #[trigger] mine.dom().contains(k) == theirs.dom().contains(k) by {
            self.lemma_route(store, h, lo, hi, root, cap, k);
            other.lemma_route(store, h, lo, hi, other_root, other_cap, k);
        }
        assert forall|k: K| #[trigger] mine.dom().contains(k) implies mine[k] == theirs[k] by {
            self.lemma_route(store, h, lo, hi, root, cap, k);
            other.lemma_route(store, h, lo, hi, other_root, other_cap, k);
        }
    }

    /// A subtree is well formed at one height only.
    pub proof fn lemma_height_unique(
        self,
        store: Store<K>,
        h1: nat,
        lo1: Option<K>,
        hi1: Option<K>,
        root1: bool,
        cap1: Option<nat>,
        h2: nat,
        lo2: Option<K>,
        hi2: Option<K>,
        root2: bool,
        cap2: Option<nat>,
    )
        requires
            self.wf_at(store, h1, lo1, hi1, root1, cap1),
            self.wf_at(store, h2, lo2, hi2, root2, cap2),
        ensures
            h1 == h2,
        decreases h1,
    {
        if h1 > 0 && h2 > 0 {
            let keys = self.keys(store);
            let first = self.links(store)[0];
            first.lemma_height_unique(
                store,
                (h1 - 1) as nat,
                lo_of(lo1, keys, 0),
                hi_of(hi1, keys, 0),
                false,
                cap1,
                (h2 - 1) as nat,
                lo_of(lo2, keys, 0),
                hi_of(hi2, keys, 0),
                false,
                cap2,
            );
        }
    }

    /// A subtree that is well formed under a limit on the number of links is
    /// well formed under any larger limit, and under none.
    pub proof fn lemma_cap_weaken(
        self,
        store: Store<K>,
        h: nat,
        lo: Option<K>,
        hi: Option<K>,
        root: bool,
        cap: Option<nat>,
        wider: Option<nat>,
    )
        requires
            self.wf_at(store, h, lo, hi, root, cap),
            wider matches Some(w) ==> cap matches Some(c) && c <= w,
        ensures
            self.wf_at(store, h, lo, hi, root, wider),
        decreases h,
    {
        if h > 0 {
            let keys = self.keys(store);
            let links = self.links(store);
            assert forall|i: int| 0 <= i < links.len() implies (#[trigger] links[i]).wf_at(
                store,
                (h - 1) as nat,
                lo_of(lo, keys, i),
                hi_of(hi, keys, i),
                false,
                wider,
            ) by {
                links[i].lemma_cap_weaken(
                    store,
                    (h - 1) as nat,
                    lo_of(lo, keys, i),
                    hi_of(hi, keys, i),
                    false,
                    cap,
                    wider,
                );
            }
        }
    }

    /// A loosely well-formed node whose own number of links is within the
    /// limit is well formed.
    pub proof fn lemma_tighten(
        self,
        store: Store<K>,
        h: nat,
        lo: Option<K>,
        hi: Option<K>,
        root: bool,
        cap: Option<nat>,
    )
        requires
            self.wf_loose(store, h, lo, hi, root, cap),
            fits(self.links(store).len(), cap),
        ensures
            self.wf_at(store, h, lo, hi, root, cap),
    {
    }

    /// A well-formed node is loosely well formed.
    pub proof fn lemma_loosen(
        self,
        store: Store<K>,
        h: nat,
        lo: Option<K>,
        hi: Option<K>,
        root: bool,
        cap: Option<nat>,
    )
        requires
            self.wf_at(store, h, lo, hi, root, cap),
        ensures
            self.wf_loose(store, h, lo, hi, root, cap),
    {
        self.lemma_cap_weaken(store, h, lo, hi, root, cap, None);
    }

    /// Replacing the value beside a key of a leaf gives a well-formed leaf
    /// that holds the new value under that key and is otherwise unchanged.
    pub proof fn lemma_leaf_overwrite(
        self,
        before: NodeRef<K>,
        store: Store<K>,
        lo: Option<K>,
        hi: Option<K>,
        root: bool,
        cap: Option<nat>,
        key: K,
        value: u64,
    )
        requires
            key_laws::<K>(),
            before.wf_at(store, 0, lo, hi, root, cap),
            rank(before.keys(store), key) < before.keys(store).len(),
            before.keys(store)[rank(before.keys(store), key)] == key,
            self.present(store),
            self.kind(store) == before.kind(store),
            self.keys(store) == before.keys(store),
            self.links(store) == before.links(store).update(
                rank(before.keys(store), key),
                NodeRef::Unloaded(value),
            ),
        ensures
            self.wf_at(store, 0, lo, hi, root, cap),
            self.entries(store, 0) == before.entries(store, 0).insert(key, value),
    {
        let keys = before.keys(store);
        lemma_rank(keys, key);
        let mine = self.entries(store, 0);
        let theirs = before.entries(store, 0).insert(key, value);
        assert forall|k: K| #[trigger] mine.dom().contains(k) == theirs.dom().contains(k) by {
            self.lemma_leaf_entry(store, lo, hi, root, cap, k);
            before.lemma_leaf_entry(store, lo, hi, root, cap, k);
        }
        assert forall|k: K| #[trigger] mine.dom().contains(k) implies mine[k] == theirs[k] by {
            self.lemma_leaf_entry(store, lo, hi, root, cap, k);
            before.lemma_leaf_entry(store, lo, hi, root, cap, k);
        }
    }

    /// Putting a new key with its value at the key's rank in a leaf gives a
    /// leaf, well formed but perhaps for its size, that holds the value
    /// under the key and is otherwise unchanged.
    pub proof fn lemma_leaf_insert(
        self,
        before: NodeRef<K>,
        store: Store<K>,
        lo: Option<K>,
        hi: Option<K>,
        root: bool,
        cap: Option<nat>,
        key: K,
        value: u64,
    )
        requires
            key_laws::<K>(),
            before.wf_at(store, 0, lo, hi, root, cap),
            above(lo, key),
            at_most(hi, key),
            !before.keys(store).contains(key),
            self.present(store),
            self.kind(store) == before.kind(store),
            self.keys(store) == before.keys(store).insert(rank(before.keys(store), key), key),
            self.links(store) == before.links(store).insert(
                rank(before.keys(store), key),
                NodeRef::Unloaded(value),
            ),
        ensures
            self.wf_loose(store, 0, lo, hi, root, cap),
            self.entries(store, 0) == before.entries(store, 0).insert(key, value),
    {
        let keys = before.keys(store);
        let links = before.links(store);
        let j = rank(keys, key);
        lemma_rank(keys, key);
        lemma_rank_finds(keys, key);
        if j < keys.len() {
            lemma_trichotomy(keys[j], key);
        }
        lemma_rank_after_insert(keys, j, key, key);
        let wider = self.keys(store);
        assert forall|i: int| 0 <= i < wider.len() implies above(lo, #[trigger] wider[i])
            && at_most(hi, wider[i]) by {
            if i < j {
                assert(wider[i] == keys[i]);
            } else if i > j {
                assert(wider[i] == keys[i - 1]);
            }
        }
        assert forall|i: int| 0 <= i < self.links(store).len() implies #[trigger] self.links(
            store,
        )[i] is Unloaded by {
            if i < j {
                assert(self.links(store)[i] == links[i]);
            } else if i > j {
                assert(self.links(store)[i] == links[i - 1]);
            }
        }
        let mine = self.entries(store, 0);
        let theirs = before.entries(store, 0).insert(key, value);
        assert forall|k: K|
            #[trigger] mine.dom().contains(k) == theirs.dom().contains(k) && (mine.dom().contains(
                k,
            ) ==> mine[k] == theirs[k]) by {
            self.lemma_leaf_entry(store, lo, hi, root, None, k);
            before.lemma_leaf_entry(store, lo, hi, root, cap, k);
            lemma_rank_after_insert(keys, j, key, k);
            lemma_rank(keys, k);
            let r = rank(keys, k);
            if key_le(k, key) {
                if r < j {
                    assert(wider[r] == keys[r]);
                } else {
                    if k != key && r < keys.len() && keys[r] == k {
                        lemma_trichotomy(k, key);
                    }
                }
            }
        }
    }

    /// An inner node in which one child has been replaced by a child that is
    /// well formed within the same bounds is well formed.
    pub proof fn lemma_child_replaced(
        self,
        before: NodeRef<K>,
        store: Store<K>,
        h: nat,
        lo: Option<K>,
        hi: Option<K>,
        root: bool,
        cap: Option<nat>,
        j: int,
    )
        requires
            h > 0,
            before.wf_at(store, h, lo, hi, root, cap),
            0 <= j < before.links(store).len(),
            self.present(store),
            self.kind(store) == before.kind(store),
            self.keys(store) == before.keys(store),
            self.links(store) == before.links(store).update(j, self.links(store)[j]),
            self.dirty() || (before.links(store)[j].dirty() == self.links(store)[j].dirty()
                && self.dirty() == before.dirty()),
            self.links(store)[j].wf_at(
                store,
                (h - 1) as nat,
                lo_of(lo, before.keys(store), j),
                hi_of(hi, before.keys(store), j),
                false,
                cap,
            ),
        ensures
            self.wf_at(store, h, lo, hi, root, cap),
    {
    }

    /// An inner node whose child at the rank of `key` has taken `key` with
    /// `value`, and is otherwise as before, holds `value` under `key` and is
    /// otherwise unchanged.
    pub proof fn lemma_child_took(
        self,
        before: NodeRef<K>,
        store: Store<K>,
        h: nat,
        lo: Option<K>,
        hi: Option<K>,
        root: bool,
        cap: Option<nat>,
        key: K,
        value: u64,
    )
        requires
            key_laws::<K>(),
            h > 0,
            before.wf_at(store, h, lo, hi, root, cap),
            self.wf_at(store, h, lo, hi, root, cap),
            self.keys(store) == before.keys(store),
            self.links(store) == before.links(store).update(
                rank(before.keys(store), key),
                self.links(store)[rank(before.keys(store), key)],
            ),
            self.links(store)[rank(before.keys(store), key)].entries(store, (h - 1) as nat)
                == before.links(store)[rank(before.keys(store), key)].entries(
                store,
                (h - 1) as nat,
            ).insert(key, value),
        ensures
            self.entries(store, h) == before.entries(store, h).insert(key, value),
    {
        let keys = before.keys(store);
        lemma_rank(keys, key);
        let mine = self.entries(store, h);
        let theirs = before.entries(store, h).insert(key, value);
        assert forall|k: K|
            #[trigger] mine.dom().contains(k) == theirs.dom().contains(k) && (mine.dom().contains(
                k,
            ) ==> mine[k] == theirs[k]) by {
            self.lemma_route(store, h, lo, hi, root, cap, k);
            before.lemma_route(store, h, lo, hi, root, cap, k);
        }
    }

    /// An inner node whose child at the rank of `key` has taken `key` with
    /// `value` and has then been split, the separator and the new sibling
    /// put beside it, is well formed but perhaps for its size, holds `value`
    /// under `key` and is otherwise unchanged.
    pub proof fn lemma_absorb_split(
        self,
        before: NodeRef<K>,
        left: NodeRef<K>,
        right: NodeRef<K>,
        sep: K,
        store: Store<K>,
        h: nat,
        lo: Option<K>,
        hi: Option<K>,
        root: bool,
        cap: Option<nat>,
        key: K,
        value: u64,
    )
        requires
            key_laws::<K>(),
            h > 0,
            before.wf_at(store, h, lo, hi, root, cap),
            self.present(store),
            self.kind(store) == before.kind(store),
            self.dirty(),
            self.keys(store) == before.keys(store).insert(rank(before.keys(store), key), sep),
            self.links(store) == before.links(store).update(
                rank(before.keys(store), key),
                left,
            ).insert(rank(before.keys(store), key) + 1, right),
            left.wf_at(
                store,
                (h - 1) as nat,
                lo_of(lo, before.keys(store), rank(before.keys(store), key)),
                Some(sep),
                false,
                cap,
            ),
            right.wf_at(
                store,
                (h - 1) as nat,
                Some(sep),
                hi_of(hi, before.keys(store), rank(before.keys(store), key)),
                false,
                cap,
            ),
            above(lo_of(lo, before.keys(store), rank(before.keys(store), key)), sep),
            below(hi_of(hi, before.keys(store), rank(before.keys(store), key)), sep),
            joined(
                before.links(store)[rank(before.keys(store), key)].entries(
                    store,
                    (h - 1) as nat,
                ).insert(key, value),
                left.entries(store, (h - 1) as nat),
                right.entries(store, (h - 1) as nat),
                sep,
            ),
        ensures
            self.wf_loose(store, h, lo, hi, root, cap),
            self.entries(store, h) == before.entries(store, h).insert(key, value),
    {
        let keys = before.keys(store);
        let links = before.links(store);
        let j = rank(keys, key);
        let below_h = (h - 1) as nat;
        lemma_rank(keys, key);
        lemma_rank_after_insert(keys, j, sep, key);
        let wider = self.keys(store);
        let more = self.links(store);
        assert forall|i: int| 0 <= i < wider.len() implies above(lo, #[trigger] wider[i]) && below(
            hi,
            wider[i],
        ) by {
            if i < j {
                assert(wider[i] == keys[i]);
            } else if i > j {
                assert(wider[i] == keys[i - 1]);
            } else {
                if j > 0 && lo is Some {
                    lemma_lt_transitive(lo->0, keys[j - 1], sep);
                }
                if j < keys.len() && hi is Some {
                    lemma_lt_transitive(sep, keys[j], hi->0);
                }
            }
        }
        assert forall|i: int| 0 <= i < more.len() implies (#[trigger] more[i]).wf_at(
            store,
            below_h,
            lo_of(lo, wider, i),
            hi_of(hi, wider, i),
            false,
            cap,
        ) by {
            if i < j {
                assert(more[i] == links[i]);
            } else if i == j {
                assert(more[i] == left);
            } else if i == j + 1 {
                assert(more[i] == right);
            } else {
                assert(more[i] == links[i - 1]);
            }
        }
        assert(self.wf_at(store, h, lo, hi, root, None)) by {
            assert forall|i: int| 0 <= i < more.len() implies (#[trigger] more[i]).wf_at(
                store,
                below_h,
                lo_of(lo, wider, i),
                hi_of(hi, wider, i),
                false,
                None,
            ) by {
                more[i].lemma_cap_weaken(
                    store,
                    below_h,
                    lo_of(lo, wider, i),
                    hi_of(hi, wider, i),
                    false,
                    cap,
                    None,
                );
            }
        }
        let mine = self.entries(store, h);
        let theirs = before.entries(store, h).insert(key, value);
        let grown = links[j].entries(store, below_h).insert(key, value);
        assert forall|k: K|
            #[trigger] mine.dom().contains(k) == theirs.dom().contains(k) && (mine.dom().contains(
                k,
            ) ==> mine[k] == theirs[k]) by {
            self.lemma_route(store, h, lo, hi, root, None, k);
            before.lemma_route(store, h, lo, hi, root, cap, k);
            lemma_rank_after_insert(keys, j, sep, k);
            let r = rank(keys, k);
            if r == j {
                assert(lookup(grown, k) == if key_le(k, sep) {
                    lookup(left.entries(store, below_h), k)
                } else {
                    lookup(right.entries(store, below_h), k)
                });
                if key_le(k, sep) {
                    assert(more[j] == left);
                } else {
                    assert(more[j + 1] == right);
                }
            } else if r < j {
                assert(more[r] == links[r]);
            } else {
                assert(more[r + 1] == links[r]);
            }
        }
    }

    /// An inner node in memory, one of whose children has been replaced by
    /// one that kept its ways, has kept its ways.
    pub proof fn lemma_child_kept_paths(self, before: NodeRef<K>, store: Store<K>, h: nat, j: int)
        requires
            key_laws::<K>(),
            h > 0,
            self is Loaded,
            before.dirty() ==> self.dirty(),
            sorted(before.keys(store)),
            before.links(store).len() == before.keys(store).len() + 1,
            0 <= j < before.links(store).len(),
            self.keys(store) == before.keys(store),
            self.links(store) == before.links(store).update(j, self.links(store)[j]),
            self.links(store)[j].keeps_paths(before.links(store)[j], store, (h - 1) as nat),
        ensures
            self.keeps_paths(before, store, h),
    {
        assert forall|k: K, c: bool| #[trigger]
            before.reached(store, h, k, c) implies self.reached(store, h, k, c) by {
            lemma_rank(before.keys(store), k);
            let r = rank(before.keys(store), k);
            let below_h = (h - 1) as nat;
            assert(before.links(store)[r].reached(store, below_h, k, c));
            if r != j {
                assert(self.links(store)[r] == before.links(store)[r]);
            } else {
                assert(self.links(store)[j].reached(store, below_h, k, c));
            }
        }
    }

    /// An inner node in memory and marked as changed that has taken the two
    /// halves of a split child, which keep the child's ways between them,
    /// has kept its ways.
    pub proof fn lemma_absorb_kept_paths(
        self,
        before: NodeRef<K>,
        left: NodeRef<K>,
        right: NodeRef<K>,
        sep: K,
        store: Store<K>,
        h: nat,
        j: int,
    )
        requires
            key_laws::<K>(),
            h > 0,
            self is Loaded,
            self.dirty(),
            sorted(before.keys(store)),
            before.links(store).len() == before.keys(store).len() + 1,
            0 <= j <= before.keys(store).len(),
            j > 0 ==> key_lt(before.keys(store)[j - 1], sep),
            j < before.keys(store).len() ==> key_lt(sep, before.keys(store)[j]),
            self.keys(store) == before.keys(store).insert(j, sep),
            self.links(store) == before.links(store).update(j, left).insert(j + 1, right),
            before.links(store)[j].halves_keep_paths(left, right, sep, store, (h - 1) as nat),
        ensures
            self.keeps_paths(before, store, h),
    {
        let keys = before.keys(store);
        let links = before.links(store);
        let more = self.links(store);
        assert forall|k: K, c: bool| #[trigger]
            before.reached(store, h, k, c) implies self.reached(store, h, k, c) by {
            lemma_rank(keys, k);
            lemma_rank_after_insert(keys, j, sep, k);
            let r = rank(keys, k);
            let below_h = (h - 1) as nat;
            assert(links[r].reached(store, below_h, k, c));
            if key_le(k, sep) {
                if r < j {
                    assert(more[r] == links[r]);
                } else {
                    assert(more[j] == left);
                }
            } else {
                if r == j {
                    assert(more[j + 1] == right);
                } else {
                    assert(more[r + 1] == links[r]);
                }
            }
        }
    }
}

} // verus!
