//! Why a search ends where it does: the position of a key among sorted keys,
//! and the one child that can hold it.

use crate::key_order::{key_laws, key_le, key_lt, lemma_lt_transitive, lemma_trichotomy};
use crate::offset_tree::NodeRef;
use crate::tree_model::{above, at_most, hi_of, lo_of, rank, sorted, Store};
use vstd::prelude::*;

verus! {

/// Among sorted keys, exactly the keys before position `rank` sort strictly
/// before `k`.
pub proof fn lemma_rank<K: Ord + Clone>(keys: Seq<K>, k: K)
    requires
        key_laws::<K>(),
        sorted(keys),
    ensures
        0 <= rank(keys, k) <= keys.len(),
        forall|j: int| 0 <= j < rank(keys, k) ==> key_lt(#[trigger] keys[j], k),
        forall|j: int| rank(keys, k) <= j < keys.len() ==> !key_lt(#[trigger] keys[j], k),
    decreases keys.len(),
{
    if keys.len() == 0 {
    } else if key_lt(keys.last(), k) {
        assert forall|j: int| 0 <= j < keys.len() implies key_lt(#[trigger] keys[j], k) by {
            if j < keys.len() - 1 {
                lemma_lt_transitive(keys[j], keys.last(), k);
            }
        }
    } else {
        let front = keys.drop_last();
        assert forall|i: int, j: int| 0 <= i < j < front.len() implies key_lt(
            #[trigger] front[i],
            #[trigger] front[j],
        ) by {
            assert(front[i] == keys[i] && front[j] == keys[j]);
        }
        lemma_rank(front, k);
        assert forall|j: int| 0 <= j < rank(keys, k) implies key_lt(#[trigger] keys[j], k) by {
            assert(keys[j] == front[j]);
        }
        assert forall|j: int| rank(keys, k) <= j < keys.len() implies !key_lt(
            #[trigger] keys[j],
            k,
        ) by {
            if j < keys.len() - 1 {
                assert(keys[j] == front[j]);
            }
        }
    }
}

/// A position with a smaller key just before it and no smaller key at it is
/// the rank.
pub proof fn lemma_rank_is<K: Ord + Clone>(keys: Seq<K>, k: K, i: int)
    requires
        key_laws::<K>(),
        sorted(keys),
        0 <= i <= keys.len(),
        i > 0 ==> key_lt(keys[i - 1], k),
        i < keys.len() ==> !key_lt(keys[i], k),
    ensures
        rank(keys, k) == i,
{
    lemma_rank(keys, k);
    let r = rank(keys, k);
    if r < i {
        assert(!key_lt(keys[i - 1], k));
    } else if r > i {
        assert(key_lt(keys[i], k));
    }
}

/// Where `k` is among sorted keys, it is at its rank; where it is not, the
/// key at its rank, if any, is another.
pub proof fn lemma_rank_finds<K: Ord + Clone>(keys: Seq<K>, k: K)
    requires
        key_laws::<K>(),
        sorted(keys),
    ensures
        keys.contains(k) <==> (rank(keys, k) < keys.len() && keys[rank(keys, k)] == k),
        keys.contains(k) ==> keys.index_of(k) == rank(keys, k),
{
    lemma_rank(keys, k);
    if keys.contains(k) {
        let i = keys.index_of(k);
        lemma_key_at_rank(keys, i);
    }
}

/// A key of a sorted sequence has its own position as rank.
pub proof fn lemma_key_at_rank<K: Ord + Clone>(keys: Seq<K>, i: int)
    requires
        key_laws::<K>(),
        sorted(keys),
        0 <= i < keys.len(),
    ensures
        rank(keys, keys[i]) == i,
{
    lemma_trichotomy(keys[i], keys[i]);
    lemma_rank_is(keys, keys[i], i);
}

/// A key sorts at or before the key at position `i` exactly when its rank is
/// at most `i`.
pub proof fn lemma_rank_against<K: Ord + Clone>(keys: Seq<K>, i: int, k: K)
    requires
        key_laws::<K>(),
        sorted(keys),
        0 <= i < keys.len(),
    ensures
        key_le(k, keys[i]) <==> rank(keys, k) <= i,
{
    lemma_rank(keys, k);
    lemma_trichotomy(k, keys[i]);
    let r = rank(keys, k);
    if r < i {
        lemma_trichotomy(k, keys[r]);
        if k != keys[r] {
            lemma_lt_transitive(k, keys[r], keys[i]);
        }
    }
}

/// A key put between its neighbours keeps the keys sorted, and moves the
/// rank of every larger key up by one.
pub proof fn lemma_rank_after_insert<K: Ord + Clone>(keys: Seq<K>, j: int, s: K, k: K)
    requires
        key_laws::<K>(),
        sorted(keys),
        0 <= j <= keys.len(),
        j > 0 ==> key_lt(keys[j - 1], s),
        j < keys.len() ==> key_lt(s, keys[j]),
    ensures
        sorted(keys.insert(j, s)),
        rank(keys, s) == j,
        key_le(k, s) ==> rank(keys, k) <= j && rank(keys.insert(j, s), k) == rank(keys, k),
        !key_le(k, s) ==> rank(keys, k) >= j && rank(keys.insert(j, s), k) == rank(keys, k) + 1,
{
    let wider = keys.insert(j, s);
    assert forall|a: int, b: int| 0 <= a < b < wider.len() implies key_lt(
        #[trigger] wider[a],
        #[trigger] wider[b],
    ) by {
        if b == j {
            if a < j - 1 {
                lemma_lt_transitive(keys[a], keys[j - 1], s);
            }
        } else if b < j {
        } else if a < j {
            assert(wider[b] == keys[b - 1]);
        } else if a == j {
            if b - 1 > j {
                lemma_lt_transitive(s, keys[j], keys[b - 1]);
            }
        } else {
            assert(wider[a] == keys[a - 1] && wider[b] == keys[b - 1]);
        }
    }
    if j < keys.len() {
        lemma_trichotomy(s, keys[j]);
    }
    lemma_rank_is(keys, s, j);
    lemma_rank(keys, k);
    lemma_trichotomy(k, s);
    let r = rank(keys, k);
    if key_le(k, s) {
        if r > j {
            if k != s {
                lemma_lt_transitive(keys[j], k, s);
            }
            lemma_trichotomy(keys[j], s);
        }
        if r < j {
            assert(wider[r] == keys[r]);
        } else {
            assert(wider[r] == s);
        }
        lemma_rank_is(wider, k, r);
    } else {
        if r < j {
            lemma_lt_transitive(keys[j - 1], s, k);
            if r < j - 1 {
                lemma_trichotomy(keys[r], k);
                if keys[r] == k {
                    lemma_trichotomy(keys[r], keys[j - 1]);
                } else {
                    lemma_lt_transitive(k, keys[r], keys[j - 1]);
                    lemma_trichotomy(k, keys[j - 1]);
                }
            }
        }
        if r == j {
            assert(wider[r] == s);
        } else {
            assert(wider[r] == keys[r - 1]);
        }
        lemma_rank_is(wider, k, r + 1);
    }
}

/// Cutting sorted keys in two leaves both parts sorted; a key keeps its
/// rank in the front part, up to the cut, and past the cut its rank in the
/// back part is as much lower.
pub proof fn lemma_rank_after_cut<K: Ord + Clone>(keys: Seq<K>, cut: int, k: K)
    requires
        key_laws::<K>(),
        sorted(keys),
        0 <= cut <= keys.len(),
    ensures
        sorted(keys.subrange(0, cut)),
        sorted(keys.subrange(cut, keys.len() as int)),
        rank(keys, k) <= cut ==> rank(keys.subrange(0, cut), k) == rank(keys, k),
        rank(keys, k) >= cut ==> rank(keys.subrange(0, cut), k) == cut,
        rank(keys, k) >= cut ==> rank(keys.subrange(cut, keys.len() as int), k) == rank(keys, k)
            - cut,
        rank(keys, k) <= cut ==> rank(keys.subrange(cut, keys.len() as int), k) == 0,
{
    let front = keys.subrange(0, cut);
    let back = keys.subrange(cut, keys.len() as int);
    assert forall|a: int, b: int| 0 <= a < b < front.len() implies key_lt(
        #[trigger] front[a],
        #[trigger] front[b],
    ) by {
        assert(front[a] == keys[a] && front[b] == keys[b]);
    }
    assert forall|a: int, b: int| 0 <= a < b < back.len() implies key_lt(
        #[trigger] back[a],
        #[trigger] back[b],
    ) by {
        assert(back[a] == keys[a + cut] && back[b] == keys[b + cut]);
    }
    lemma_rank(keys, k);
    let r = rank(keys, k);
    if r <= cut {
        lemma_rank_is(front, k, r);
        lemma_rank_is(back, k, 0);
    }
    if r >= cut {
        lemma_rank_is(front, k, cut);
        lemma_rank_is(back, k, r - cut);
    }
}

impl<K: Ord + Clone> NodeRef<K> {
    /// In a well-formed leaf, `k` has an entry exactly where the key at its
    /// rank is `k`, and the entry's value is the offset beside that key.
    pub proof fn lemma_leaf_entry(
        self,
        store: Store<K>,
        lo: Option<K>,
        hi: Option<K>,
        root: bool,
        cap: Option<nat>,
        k: K,
    )
        requires
            key_laws::<K>(),
            self.wf_at(store, 0, lo, hi, root, cap),
        ensures
            ({
                let keys = self.keys(store);
                let j = rank(keys, k);
                &&& 0 <= j <= keys.len()
                &&& self.entries(store, 0).contains_key(k) <==> (j < keys.len() && keys[j] == k)
                &&& self.entries(store, 0).contains_key(k) ==> self.entries(store, 0)[k]
                    == self.links(store)[j].target()
            }),
    {
        lemma_rank(self.keys(store), k);
        lemma_rank_finds(self.keys(store), k);
    }

    /// Every key of a well-formed subtree lies within the subtree's bounds.
    pub proof fn lemma_entries_bounded(
        self,
        store: Store<K>,
        h: nat,
        lo: Option<K>,
        hi: Option<K>,
        root: bool,
        cap: Option<nat>,
        k: K,
    )
        requires
            key_laws::<K>(),
            self.wf_at(store, h, lo, hi, root, cap),
            self.entries(store, h).contains_key(k),
        ensures
            above(lo, k),
            at_most(hi, k),
        decreases h,
    {
        let keys = self.keys(store);
        let links = self.links(store);
        if h == 0 {
            let i = keys.index_of(k);
        } else {
            let i = Self::holder(links, store, (h - 1) as nat, k);
            assert(Self::held(links, store, (h - 1) as nat, k));
            links[i].lemma_entries_bounded(
                store,
                (h - 1) as nat,
                lo_of(lo, keys, i),
                hi_of(hi, keys, i),
                false,
                cap,
                k,
            );
            if i > 0 {
                if lo is Some {
                    lemma_lt_transitive(lo->0, keys[i - 1], k);
                }
            }
            if i < keys.len() {
                if hi is Some && k != keys[i] {
                    lemma_lt_transitive(k, keys[i], hi->0);
                }
            }
        }
    }

    /// In a well-formed inner node, only the child at the rank of `k` can
    /// hold `k`.
    pub proof fn lemma_holder_is_rank(
        self,
        store: Store<K>,
        h: nat,
        lo: Option<K>,
        hi: Option<K>,
        root: bool,
        cap: Option<nat>,
        k: K,
        i: int,
    )
        requires
            key_laws::<K>(),
            h > 0,
            self.wf_at(store, h, lo, hi, root, cap),
            0 <= i < self.links(store).len(),
            self.links(store)[i].entries(store, (h - 1) as nat).contains_key(k),
        ensures
            i == rank(self.keys(store), k),
    {
        let keys = self.keys(store);
        let links = self.links(store);
        links[i].lemma_entries_bounded(
            store,
            (h - 1) as nat,
            lo_of(lo, keys, i),
            hi_of(hi, keys, i),
            false,
            cap,
            k,
        );
        if i < keys.len() {
            lemma_trichotomy(keys[i], k);
        }
        lemma_rank_is(keys, k, i);
    }

    /// The entries of a well-formed inner node are, key by key, those of the
    /// child at the key's rank.
    pub proof fn lemma_route(
        self,
        store: Store<K>,
        h: nat,
        lo: Option<K>,
        hi: Option<K>,
        root: bool,
        cap: Option<nat>,
        k: K,
    )
        requires
            key_laws::<K>(),
            h > 0,
            self.wf_at(store, h, lo, hi, root, cap),
        ensures
            ({
                let j = rank(self.keys(store), k);
                let child = self.links(store)[j];
                &&& 0 <= j < self.links(store).len()
                &&& self.entries(store, h).contains_key(k) <==> child.entries(
                    store,
                    (h - 1) as nat,
                ).contains_key(k)
                &&& self.entries(store, h).contains_key(k) ==> self.entries(store, h)[k]
                    == child.entries(store, (h - 1) as nat)[k]
            }),
    {
        let keys = self.keys(store);
        let links = self.links(store);
        lemma_rank(keys, k);
        let j = rank(keys, k);
        let below_h = (h - 1) as nat;
        if links[j].entries(store, below_h).contains_key(k) {
            assert(Self::held(links, store, below_h, k));
        }
        if self.entries(store, h).contains_key(k) {
            let i = Self::holder(links, store, below_h, k);
            assert(Self::held(links, store, below_h, k));
            self.lemma_holder_is_rank(store, h, lo, hi, root, cap, k, i);
        }
    }
}

} // verus!
