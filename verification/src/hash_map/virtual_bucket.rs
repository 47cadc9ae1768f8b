//! Virtual buckets: fixed-width open-addressed slot groups with linked
//! overflow. A chain stores (hash, key, value) triples; a slot whose
//! value is gone is a tombstone, so removal never shrinks a chain.

use vstd::prelude::*;

use super::MapKey;
use crate::spec_adjust_hash;

verus! {

/// Slots per group: seven hash words, seven entries and one link fit a
/// 64-byte cache line in the packed layout this models.
pub const N: usize = 7;

/// One stored pair. A `None` value is a tombstone: the key keeps its
/// slot, the mapping is gone.
pub struct Entry<K, V> {
    pub key: K,
    pub value: Option<V>,
}

/// One open-addressed slot group: `hashes[j]` is the stored hash of the
/// entry in `entries[j]`, and zero means empty.
pub struct SlotGroup<K, V> {
    pub hashes: Vec<u64>,
    pub entries: Vec<Option<Entry<K, V>>>,
}

/// A full chain: the head slot group and its overflow groups, in order.
pub struct VirtualBucket<K, V> {
    pub groups: Vec<SlotGroup<K, V>>,
}

/// Asks the caller to install a resizer: the probed chain is full and
/// the load factor has passed the growth threshold. The rejected pair
/// rides along, so that the caller can replay it on the new table.
pub struct ResizeNeeded<K, V> {
    pub key: K,
    pub value: V,
}

/// What a probe of one slot group finds.
pub enum GroupScan {
    /// The key sits in this slot.
    Matched(usize),
    /// The first empty slot; the key is in no earlier slot.
    Empty(usize),
    /// Every slot is occupied and none holds the key.
    Full,
}

impl<K, V> SlotGroup<K, V> {
    /// Slot `j` holds an entry.
    pub open spec fn occupied(self, j: int) -> bool {
        self.entries@[j] is Some
    }

    /// Every slot holds an entry.
    pub open spec fn full(self) -> bool {
        forall|j: int| 0 <= j < N ==> self.occupied(j)
    }

    /// Shape of a well-formed group: both arrays are `N` wide, a slot is
    /// occupied exactly when its hash word is non-zero, and occupied
    /// slots form a prefix.
    pub open spec fn base_wf(self) -> bool {
        &&& self.hashes@.len() == N
        &&& self.entries@.len() == N
        &&& forall|j: int| 0 <= j < N ==> (self.occupied(j) <==> self.hashes@[j] != 0)
        &&& forall|j1: int, j2: int|
            0 <= j1 < j2 < N && self.occupied(j2) ==> self.occupied(j1)
    }

    /// An empty group.
    pub fn new() -> (g: Self)
        ensures
            g.base_wf(),
            forall|j: int| 0 <= j < N ==> !g.occupied(j),
    {
        let mut hashes: Vec<u64> = Vec::new();
        let mut entries: Vec<Option<Entry<K, V>>> = Vec::new();
        let mut i: usize = 0;
        while i < N
            invariant
                hashes@.len() == i,
                entries@.len() == i,
                i <= N,
                forall|j: int| 0 <= j < i ==> hashes@[j] == 0,
                forall|j: int| 0 <= j < i ==> entries@[j] is None,
            decreases N - i,
        {
            hashes.push(0);
            entries.push(None);
            i = i + 1;
        }
        SlotGroup { hashes, entries }
    }
}

impl<K: MapKey, V> SlotGroup<K, V> {
    /// Occupied slots store the adjusted hash of their own key.
    pub open spec fn hashes_wf(self) -> bool {
        forall|j: int|
            0 <= j < N && self.occupied(j) ==> self.hashes@[j] == spec_adjust_hash(
                (#[trigger] self.entries@[j]).unwrap().key.hash_spec(),
            )
    }

    /// Probe the group for `hash`/`key`: find the key's slot, or the
    /// first empty slot, or report the group full.
    pub fn scan(&self, hash: u64, key: &K) -> (r: GroupScan)
        requires
            self.base_wf(),
            self.hashes_wf(),
            hash == spec_adjust_hash(key.hash_spec()),
        ensures
            match r {
                GroupScan::Matched(j) => {
                    &&& 0 <= j < N
                    &&& self.occupied(j as int)
                    &&& self.entries@[j as int].unwrap().key == *key
                },
                GroupScan::Empty(j) => {
                    &&& 0 <= j < N
                    &&& !self.occupied(j as int)
                    &&& forall|j2: int| 0 <= j2 < j ==> self.occupied(j2)
                    &&& forall|j2: int|
                        0 <= j2 < N && self.occupied(j2) ==> self.entries@[j2].unwrap().key
                            != *key
                },
                GroupScan::Full => {
                    &&& self.full()
                    &&& forall|j2: int|
                        0 <= j2 < N ==> (#[trigger] self.entries@[j2]).unwrap().key != *key
                },
            },
    {
        let mut j: usize = 0;
        while j < N
            invariant
                self.base_wf(),
                self.hashes_wf(),
                hash == spec_adjust_hash(key.hash_spec()),
                j <= N,
                forall|j2: int|
                    0 <= j2 < j ==> self.occupied(j2) && (#[trigger] self.entries@[j2]).unwrap().key
                        != *key,
            decreases N - j,
        {
            match &self.entries[j] {
                None => {
                    return GroupScan::Empty(j);
                },
                Some(e) => {
                    if self.hashes[j] == hash && e.key.eq_key(key) {
                        return GroupScan::Matched(j);
                    }
                    proof {
                        if self.entries@[j as int].unwrap().key == *key {
                            assert(self.hashes@[j as int] == hash);
                            assert(false);
                        }
                    }
                },
            }
            j = j + 1;
        }
        GroupScan::Full
    }

    /// Claim the empty slot `j` for a fresh entry.
    pub fn put(&mut self, j: usize, hash: u64, key: K, value: V)
        requires
            old(self).base_wf(),
            0 <= j < N,
            !old(self).occupied(j as int),
            hash != 0,
        ensures
            final(self).hashes@ == old(self).hashes@.update(j as int, hash),
            final(self).entries@ == old(self).entries@.update(
                j as int,
                Some((Entry { key, value: Some(value) })),
            ),
    {
        self.hashes.set(j, hash);
        self.entries.set(j, Some(Entry { key, value: Some(value) }));
    }

    /// Overwrite the value of the occupied slot `j`, keeping its key.
    pub fn set_value(&mut self, j: usize, value: Option<V>)
        requires
            old(self).base_wf(),
            0 <= j < N,
            old(self).occupied(j as int),
        ensures
            final(self).hashes@ == old(self).hashes@,
            final(self).entries@ == old(self).entries@.update(
                j as int,
                Some((Entry { key: old(self).entries@[j as int].unwrap().key, value })),
            ),
    {
        match &mut self.entries[j] {
            Some(e) => e.value = value,
            None => {
                proof {
                    assert(false);
                }
            },
        }
        proof {
            assert(self.entries@ =~= old(self).entries@.update(
                j as int,
                Some((Entry { key: old(self).entries@[j as int].unwrap().key, value })),
            ));
        }
    }

    /// Scan the hash words from `start` on for the first slot storing
    /// `hash`.
    pub fn find_hash(&self, hash: u64, start: usize) -> (r: Option<usize>)
        requires
            self.base_wf(),
        ensures
            match r {
                Some(pos) => {
                    &&& start <= pos < N
                    &&& self.hashes@[pos as int] == hash
                    &&& forall|i: int| start <= i < pos ==> self.hashes@[i] != hash
                },
                None => forall|i: int| start <= i < N ==> self.hashes@[i] != hash,
            },
    {
        let mut j: usize = start;
        while j < N
            invariant
                self.base_wf(),
                start <= j,
                forall|i: int| start <= i < j ==> self.hashes@[i] != hash,
            decreases N - j,
        {
            if self.hashes[j] == hash {
                return Some(j);
            }
            j = j + 1;
        }
        None
    }

    /// Walk the slots whose stored hash matches, as the traversals do,
    /// until the one holding `key` is found.
    pub fn find_key(&self, hash: u64, key: &K) -> (r: Option<usize>)
        requires
            self.base_wf(),
            self.hashes_wf(),
            hash == spec_adjust_hash(key.hash_spec()),
        ensures
            match r {
                Some(j) => {
                    &&& 0 <= j < N
                    &&& self.occupied(j as int)
                    &&& self.entries@[j as int].unwrap().key == *key
                },
                None => forall|j2: int|
                    0 <= j2 < N && self.occupied(j2) ==> (#[trigger] self.entries@[j2]).unwrap().key
                        != *key,
            },
    {
        let mut start: usize = 0;
        loop
            invariant
                self.base_wf(),
                self.hashes_wf(),
                hash == spec_adjust_hash(key.hash_spec()),
                start <= N,
                forall|j2: int|
                    0 <= j2 < start && self.occupied(j2) ==> (#[trigger] self.entries@[j2]).unwrap().key != *key,
            decreases N - start,
        {
            match self.find_hash(hash, start) {
                Some(pos) => {
                    let matched = match &self.entries[pos] {
                        Some(e) => e.key.eq_key(key),
                        None => vstd::pervasive::unreached(),
                    };
                    if matched {
                        return Some(pos);
                    }
                    proof {
                        assert forall|j2: int|
                            0 <= j2 < pos + 1 && self.occupied(j2) implies (#[trigger] self.entries@[j2]).unwrap().key != *key by {
                            if start <= j2 < pos && self.entries@[j2].unwrap().key == *key {
                                assert(self.hashes@[j2] == hash);
                            }
                        }
                    }
                    start = pos + 1;
                },
                None => {
                    proof {
                        assert forall|j2: int|
                            0 <= j2 < N && self.occupied(j2) implies (#[trigger] self.entries@[j2]).unwrap().key != *key by {
                            if start <= j2 < N && self.entries@[j2].unwrap().key == *key {
                                assert(self.hashes@[j2] == hash);
                            }
                        }
                    }
                    return None;
                },
            }
        }
    }
}

impl<K, V> VirtualBucket<K, V> {
    /// The slot coordinates `(g, j)` lie within the chain.
    pub open spec fn valid_slot(self, g: int, j: int) -> bool {
        0 <= g < self.groups@.len() && 0 <= j < N
    }

    /// The entry stored at `(g, j)`.
    pub open spec fn slot(self, g: int, j: int) -> Option<Entry<K, V>> {
        self.groups@[g].entries@[j]
    }

    /// Slot `(g, j)` holds an entry for `k` (live or tombstoned).
    pub open spec fn slot_has_key(self, g: int, j: int, k: K) -> bool {
        self.valid_slot(g, j) && self.slot(g, j) is Some && self.slot(g, j).unwrap().key == k
    }

    /// Some slot of the chain holds an entry for `k`.
    pub open spec fn has_key(self, k: K) -> bool {
        exists|g: int, j: int| self.slot_has_key(g, j, k)
    }

    /// The stored value of `k`'s slot: `None` is a tombstone.
    pub open spec fn key_value(self, k: K) -> Option<V>
        recommends
            self.has_key(k),
    {
        let (g, j) = choose|g: int, j: int| self.slot_has_key(g, j, k);
        self.slot(g, j).unwrap().value
    }

    /// What a lookup of `k` in this chain yields: absent and tombstoned
    /// keys are indistinguishable.
    pub open spec fn chain_get(self, k: K) -> Option<V> {
        if self.has_key(k) {
            self.key_value(k)
        } else {
            None
        }
    }
}

impl<K: MapKey, V> VirtualBucket<K, V> {
    /// A well-formed chain: every group is well formed, groups before
    /// the last are full, and no key owns two slots.
    pub open spec fn wf(self) -> bool {
        &&& self.groups@.len() >= 1
        &&& forall|g: int|
            0 <= g < self.groups@.len() ==> (#[trigger] self.groups@[g]).base_wf()
                && self.groups@[g].hashes_wf()
        &&& forall|g: int|
            0 <= g < self.groups@.len() - 1 ==> (#[trigger] self.groups@[g]).full()
        &&& forall|g1: int, j1: int, g2: int, j2: int|
            {
                &&& self.valid_slot(g1, j1)
                &&& self.valid_slot(g2, j2)
                &&& #[trigger] self.slot(g1, j1) is Some
                &&& #[trigger] self.slot(g2, j2) is Some
                &&& self.slot(g1, j1).unwrap().key == self.slot(g2, j2).unwrap().key
            } ==> g1 == g2 && j1 == j2
    }

    /// A chain of one empty group.
    pub fn new() -> (b: Self)
        ensures
            b.wf(),
            forall|k: K| !b.has_key(k),
            forall|k: K| b.chain_get(k) is None,
            b.groups@.len() == 1,
    {
        let mut groups: Vec<SlotGroup<K, V>> = Vec::new();
        groups.push(SlotGroup::new());
        let b = VirtualBucket { groups };
        proof {
            assert forall|k: K| !b.has_key(k) by {
                if b.has_key(k) {
                    let (g, j) = choose|g: int, j: int| b.slot_has_key(g, j, k);
                    assert(b.groups@[g].occupied(j));
                }
            }
            assert forall|g: int|
                0 <= g < b.groups@.len() implies (#[trigger] b.groups@[g]).base_wf()
                && b.groups@[g].hashes_wf() by {
                assert(g == 0);
                assert(b.groups@[0].base_wf());
                assert forall|j: int|
                    0 <= j < N && b.groups@[0].occupied(j) implies b.groups@[0].hashes@[j]
                    == spec_adjust_hash(
                    (#[trigger] b.groups@[0].entries@[j]).unwrap().key.hash_spec(),
                ) by {
                    assert(!b.groups@[0].occupied(j));
                }
            }
            assert forall|g1: int, j1: int, g2: int, j2: int|
                {
                    &&& b.valid_slot(g1, j1)
                    &&& b.valid_slot(g2, j2)
                    &&& #[trigger] b.slot(g1, j1) is Some
                    &&& #[trigger] b.slot(g2, j2) is Some
                    &&& b.slot(g1, j1).unwrap().key == b.slot(g2, j2).unwrap().key
                } implies g1 == g2 && j1 == j2 by {
                assert(b.groups@[g1].occupied(j1));
            }
            assert(b.wf());
        }
        b
    }

    /// A fresh table: `size` chains of one empty group each.
    pub fn allocate(size: usize) -> (v: Vec<VirtualBucket<K, V>>)
        requires
            size >= 1,
        ensures
            v@.len() == size,
            forall|i: int| 0 <= i < size ==> (#[trigger] v@[i]).wf(),
            forall|i: int, k: K| 0 <= i < size ==> !(#[trigger] v@[i].has_key(k)),
            forall|i: int, k: K|
                0 <= i < size ==> (#[trigger] v@[i].chain_get(k)) is None,
    {
        let mut v: Vec<VirtualBucket<K, V>> = Vec::new();
        let mut i: usize = 0;
        while i < size
            invariant
                v@.len() == i,
                i <= size,
                forall|i2: int| 0 <= i2 < i ==> (#[trigger] v@[i2]).wf(),
                forall|i2: int, k: K| 0 <= i2 < i ==> !(#[trigger] v@[i2].has_key(k)),
                forall|i2: int, k: K|
                    0 <= i2 < i ==> (#[trigger] v@[i2].chain_get(k)) is None,
            decreases size - i,
        {
            v.push(VirtualBucket::new());
            i = i + 1;
        }
        v
    }

    /// A slot's value changed, its key kept: every key keeps its slot,
    /// and only `k`'s lookup changes.
    proof fn lemma_set_value(pre: Self, post: Self, g: int, j: int, k: K, v: Option<V>)
        requires
            pre.wf(),
            pre.valid_slot(g, j),
            pre.slot(g, j) is Some,
            pre.slot(g, j).unwrap().key == k,
            post.groups@.len() == pre.groups@.len(),
            forall|g2: int| 0 <= g2 < pre.groups@.len() && g2 != g ==> post.groups@[g2] == pre.groups@[g2],
            post.groups@[g].hashes@ == pre.groups@[g].hashes@,
            post.groups@[g].entries@ == pre.groups@[g].entries@.update(
                j,
                Some((Entry { key: k, value: v })),
            ),
        ensures
            post.wf(),
            post.has_key(k),
            post.chain_get(k) == v,
            forall|k2: K| post.has_key(k2) == pre.has_key(k2),
            forall|k2: K| k2 != k ==> post.chain_get(k2) == pre.chain_get(k2),
    {
        assert(forall|g2: int, j2: int|
            pre.valid_slot(g2, j2) && !(g2 == g && j2 == j) ==> post.slot(g2, j2) == pre.slot(
                g2,
                j2,
            ));
        assert(post.slot(g, j) == Some((Entry { key: k, value: v })));
        assert forall|g2: int| 0 <= g2 < post.groups@.len() implies (#[trigger] post.groups@[g2]).base_wf()
            && post.groups@[g2].hashes_wf() && (g2 < post.groups@.len() - 1
            ==> post.groups@[g2].full()) by {
            assert(pre.groups@[g2].base_wf());
            if g2 == g {
                assert forall|j2: int| 0 <= j2 < N implies (post.groups@[g2].occupied(j2)
                    <==> pre.groups@[g2].occupied(j2)) by {
                }
            }
        }
        assert(post.wf()) by {
            assert forall|g1: int, j1: int, g2: int, j2: int|
                {
                    &&& post.valid_slot(g1, j1)
                    &&& post.valid_slot(g2, j2)
                    &&& #[trigger] post.slot(g1, j1) is Some
                    &&& #[trigger] post.slot(g2, j2) is Some
                    &&& post.slot(g1, j1).unwrap().key == post.slot(g2, j2).unwrap().key
                } implies g1 == g2 && j1 == j2 by {
                assert(pre.slot(g1, j1) is Some && pre.slot(g1, j1).unwrap().key == post.slot(
                    g1,
                    j1,
                ).unwrap().key);
                assert(pre.slot(g2, j2) is Some && pre.slot(g2, j2).unwrap().key == post.slot(
                    g2,
                    j2,
                ).unwrap().key);
            }
        }
        assert(post.slot_has_key(g, j, k));
        assert forall|k2: K| post.has_key(k2) == pre.has_key(k2) by {
            if pre.has_key(k2) {
                let (a, b) = choose|a: int, b: int| pre.slot_has_key(a, b, k2);
                if a == g && b == j {
                    assert(post.slot_has_key(g, j, k2));
                } else {
                    assert(post.slot_has_key(a, b, k2));
                }
            }
            if post.has_key(k2) {
                let (a, b) = choose|a: int, b: int| post.slot_has_key(a, b, k2);
                if a == g && b == j {
                    assert(pre.slot_has_key(g, j, k2));
                } else {
                    assert(pre.slot_has_key(a, b, k2));
                }
            }
        }
        assert(post.key_value(k) == v) by {
            let (a, b) = choose|a: int, b: int| post.slot_has_key(a, b, k);
            assert(a == g && b == j);
        }
        assert forall|k2: K| k2 != k implies post.chain_get(k2) == pre.chain_get(k2) by {
            if post.has_key(k2) {
                let (a, b) = choose|a: int, b: int| post.slot_has_key(a, b, k2);
                assert(!(a == g && b == j));
                assert(pre.slot_has_key(a, b, k2));
                let (c, d) = choose|c: int, d: int| pre.slot_has_key(c, d, k2);
                assert(c == a && d == b);
            }
        }
    }

    /// A fresh key claimed a previously empty slot: every other key
    /// keeps its slot and its lookup.
    proof fn lemma_put(pre: Self, post: Self, g: int, j: int, k: K, v: V)
        requires
            pre.wf(),
            pre.valid_slot(g, j),
            pre.slot(g, j) is None,
            !pre.has_key(k),
            forall|j2: int| 0 <= j2 < j ==> pre.groups@[g].occupied(j2),
            post.groups@.len() == pre.groups@.len(),
            forall|g2: int| 0 <= g2 < pre.groups@.len() && g2 != g ==> post.groups@[g2] == pre.groups@[g2],
            post.groups@[g].hashes@ == pre.groups@[g].hashes@.update(
                j,
                spec_adjust_hash(k.hash_spec()),
            ),
            post.groups@[g].entries@ == pre.groups@[g].entries@.update(
                j,
                Some((Entry { key: k, value: Some(v) })),
            ),
        ensures
            post.wf(),
            post.has_key(k),
            post.chain_get(k) == Some(v),
            forall|k2: K|
                k2 != k ==> post.has_key(k2) == pre.has_key(k2) && post.chain_get(k2)
                    == pre.chain_get(k2),
    {
        assert(forall|g2: int, j2: int|
            pre.valid_slot(g2, j2) && !(g2 == g && j2 == j) ==> post.slot(g2, j2) == pre.slot(
                g2,
                j2,
            ));
        assert(post.slot(g, j) == Some((Entry { key: k, value: Some(v) })));
        assert(spec_adjust_hash(k.hash_spec()) != 0);
        // the claimed group was the last one: it had an empty slot
        assert(g == pre.groups@.len() - 1) by {
            if g < pre.groups@.len() - 1 {
                assert(pre.groups@[g].full());
                assert(pre.groups@[g].occupied(j));
            }
        }
        assert forall|g2: int| 0 <= g2 < post.groups@.len() implies (#[trigger] post.groups@[g2]).base_wf()
            && post.groups@[g2].hashes_wf() && (g2 < post.groups@.len() - 1
            ==> post.groups@[g2].full()) by {
            assert(pre.groups@[g2].base_wf());
            if g2 == g {
                assert forall|j1: int, j2: int|
                    0 <= j1 < j2 < N && post.groups@[g2].occupied(j2) implies post.groups@[g2].occupied(
                    j1,
                ) by {
                    if j2 != j {
                        assert(pre.groups@[g2].occupied(j2));
                    }
                }
            }
        }
        assert(post.wf()) by {
            assert forall|g1: int, j1: int, g2: int, j2: int|
                {
                    &&& post.valid_slot(g1, j1)
                    &&& post.valid_slot(g2, j2)
                    &&& #[trigger] post.slot(g1, j1) is Some
                    &&& #[trigger] post.slot(g2, j2) is Some
                    &&& post.slot(g1, j1).unwrap().key == post.slot(g2, j2).unwrap().key
                } implies g1 == g2 && j1 == j2 by {
                if (g1 == g && j1 == j) && !(g2 == g && j2 == j) {
                    assert(pre.slot_has_key(g2, j2, k));
                } else if !(g1 == g && j1 == j) && (g2 == g && j2 == j) {
                    assert(pre.slot_has_key(g1, j1, k));
                } else if !(g1 == g && j1 == j) && !(g2 == g && j2 == j) {
                    assert(pre.slot(g1, j1) == post.slot(g1, j1));
                    assert(pre.slot(g2, j2) == post.slot(g2, j2));
                }
            }
        }
        assert(post.slot_has_key(g, j, k));
        assert(post.key_value(k) == Some(v)) by {
            let (a, b) = choose|a: int, b: int| post.slot_has_key(a, b, k);
            assert(a == g && b == j);
        }
        assert forall|k2: K|
            k2 != k implies post.has_key(k2) == pre.has_key(k2) && post.chain_get(k2)
            == pre.chain_get(k2) by {
            if pre.has_key(k2) {
                let (a, b) = choose|a: int, b: int| pre.slot_has_key(a, b, k2);
                assert(!(a == g && b == j));
                assert(post.slot_has_key(a, b, k2));
            }
            if post.has_key(k2) {
                let (a, b) = choose|a: int, b: int| post.slot_has_key(a, b, k2);
                assert(!(a == g && b == j));
                assert(pre.slot_has_key(a, b, k2));
                let (c, d) = choose|c: int, d: int| pre.slot_has_key(c, d, k2);
                assert(c == a && d == b);
            }
        }
    }

    /// An empty overflow group was appended to a full chain: nothing a
    /// lookup can see changes.
    proof fn lemma_push_empty(pre: Self, post: Self)
        requires
            pre.wf(),
            pre.groups@[pre.groups@.len() - 1].full(),
            post.groups@.len() == pre.groups@.len() + 1,
            forall|g: int| 0 <= g < pre.groups@.len() ==> post.groups@[g] == pre.groups@[g],
            post.groups@[post.groups@.len() - 1].base_wf(),
            forall|j: int|
                0 <= j < N ==> !(#[trigger] post.groups@[post.groups@.len() - 1].occupied(j)),
        ensures
            post.wf(),
            forall|k2: K|
                post.has_key(k2) == pre.has_key(k2) && post.chain_get(k2) == pre.chain_get(k2),
    {
        let last = post.groups@.len() - 1;
        assert forall|g2: int| 0 <= g2 < post.groups@.len() implies (#[trigger] post.groups@[g2]).base_wf()
            && post.groups@[g2].hashes_wf() by {
            if g2 < last {
                assert(pre.groups@[g2].base_wf() && pre.groups@[g2].hashes_wf());
            }
        }
        assert(post.wf()) by {
            assert forall|g1: int, j1: int, g2: int, j2: int|
                {
                    &&& post.valid_slot(g1, j1)
                    &&& post.valid_slot(g2, j2)
                    &&& #[trigger] post.slot(g1, j1) is Some
                    &&& #[trigger] post.slot(g2, j2) is Some
                    &&& post.slot(g1, j1).unwrap().key == post.slot(g2, j2).unwrap().key
                } implies g1 == g2 && j1 == j2 by {
                assert(g1 < last && g2 < last);
                assert(pre.slot(g1, j1) == post.slot(g1, j1));
                assert(pre.slot(g2, j2) == post.slot(g2, j2));
            }
        }
        assert forall|k2: K|
            post.has_key(k2) == pre.has_key(k2) && post.chain_get(k2) == pre.chain_get(k2) by {
            if pre.has_key(k2) {
                let (a, b) = choose|a: int, b: int| pre.slot_has_key(a, b, k2);
                assert(post.slot_has_key(a, b, k2));
            }
            if post.has_key(k2) {
                let (a, b) = choose|a: int, b: int| post.slot_has_key(a, b, k2);
                assert(a < last);
                assert(pre.slot_has_key(a, b, k2));
                let (c, d) = choose|c: int, d: int| pre.slot_has_key(c, d, k2);
                assert(c == a && d == b);
            }
        }
    }

    /// Look `key` up in the chain: the value of its slot, with absent
    /// and tombstoned keys both yielding nothing.
    pub fn get(&self, hash: u64, key: &K) -> (r: Option<&V>)
        requires
            self.wf(),
            hash == spec_adjust_hash(key.hash_spec()),
        ensures
            match r {
                Some(v) => self.chain_get(*key) == Some(*v),
                None => self.chain_get(*key) is None,
            },
    {
        let mut g: usize = 0;
        while g < self.groups.len()
            invariant
                self.wf(),
                hash == spec_adjust_hash(key.hash_spec()),
                g <= self.groups@.len(),
                forall|g2: int, j2: int| 0 <= g2 < g ==> !self.slot_has_key(g2, j2, *key),
            decreases self.groups@.len() - g,
        {
            let grp = &self.groups[g];
            match grp.find_key(hash, key) {
                Some(j) => {
                    proof {
                        assert(self.slot_has_key(g as int, j as int, *key));
                        let (a, b) = choose|a: int, b: int| self.slot_has_key(a, b, *key);
                        assert(a == g as int && b == j as int);
                    }
                    let e = match &grp.entries[j] {
                        Some(e) => e,
                        None => vstd::pervasive::unreached(),
                    };
                    return match &e.value {
                        Some(v) => Some(v),
                        None => None,
                    };
                },
                None => {
                    proof {
                        assert forall|g2: int, j2: int| 0 <= g2 < g + 1 implies !self.slot_has_key(
                            g2,
                            j2,
                            *key,
                        ) by {
                            if g2 == g as int && self.slot_has_key(g2, j2, *key) {
                                assert(self.groups@[g2].occupied(j2));
                            }
                        }
                    }
                    g = g + 1;
                },
            }
        }
        proof {
            if self.has_key(*key) {
                let (a, b) = choose|a: int, b: int| self.slot_has_key(a, b, *key);
                assert(!self.slot_has_key(a, b, *key));
            }
        }
        None
    }

    /// Write a tombstone into `key`'s slot, if the chain has one: the
    /// key keeps the slot, the mapping is gone.
    pub fn remove(&mut self, hash: u64, key: &K)
        requires
            old(self).wf(),
            hash == spec_adjust_hash(key.hash_spec()),
        ensures
            final(self).wf(),
            final(self).groups@.len() == old(self).groups@.len(),
            final(self).chain_get(*key) is None,
            forall|k2: K| final(self).has_key(k2) == old(self).has_key(k2),
            forall|k2: K| k2 != *key ==> final(self).chain_get(k2) == old(self).chain_get(k2),
    {
        let ghost pre = *self;
        let mut g: usize = 0;
        while g < self.groups.len()
            invariant
                *self == pre,
                pre == *old(self),
                pre.wf(),
                hash == spec_adjust_hash(key.hash_spec()),
                g <= self.groups@.len(),
                forall|g2: int, j2: int| 0 <= g2 < g ==> !self.slot_has_key(g2, j2, *key),
            decreases self.groups@.len() - g,
        {
            let found = {
                let grp = &self.groups[g];
                grp.find_key(hash, key)
            };
            match found {
                Some(j) => {
                    proof {
                        assert(self.slot_has_key(g as int, j as int, *key));
                    }
                    let grp = &mut self.groups[g];
                    grp.set_value(j, None);
                    proof {
                        assert(self.groups@.len() == pre.groups@.len());
                        assert(self.groups@[g as int].entries@ == pre.groups@[g as int].entries@.update(
                            j as int,
                            Some(
                                (Entry {
                                    key: pre.slot(g as int, j as int).unwrap().key,
                                    value: None,
                                }),
                            ),
                        ));
                        Self::lemma_set_value(pre, *self, g as int, j as int, *key, None);
                        assert(forall|k2: K| self.has_key(k2) == pre.has_key(k2));
                        assert(self.chain_get(*key) is None);
                    }
                    return ;
                },
                None => {
                    proof {
                        assert forall|g2: int, j2: int| 0 <= g2 < g + 1 implies !self.slot_has_key(
                            g2,
                            j2,
                            *key,
                        ) by {
                            if g2 == g as int && self.slot_has_key(g2, j2, *key) {
                                assert(self.groups@[g2].occupied(j2));
                            }
                        }
                    }
                    g = g + 1;
                },
            }
        }
        proof {
            if self.has_key(*key) {
                let (a, b) = choose|a: int, b: int| self.slot_has_key(a, b, *key);
                assert(!self.slot_has_key(a, b, *key));
            }
        }
    }

    /// Put `key -> value` into the chain. A fresh key claims the first
    /// empty slot, extending the chain if every group is full — unless
    /// `resize_allowed` reports that the table should grow instead. A
    /// key that already owns a slot keeps it: with `is_new_item` its
    /// value is overwritten, without (the resize copy) it is left as it
    /// is. The outcome says whether a fresh slot was claimed.
    pub fn insert(
        &mut self,
        hash: u64,
        key: K,
        value: V,
        is_new_item: bool,
        resize_allowed: bool,
    ) -> (r: Result<bool, ResizeNeeded<K, V>>)
        requires
            old(self).wf(),
            hash == spec_adjust_hash(key.hash_spec()),
        ensures
            match r {
                Ok(inserted) => {
                    &&& final(self).wf()
                    &&& inserted == !old(self).has_key(key)
                    &&& final(self).has_key(key)
                    &&& forall|k2: K|
                        k2 != key ==> final(self).has_key(k2) == old(self).has_key(k2)
                            && final(self).chain_get(k2) == old(self).chain_get(k2)
                    &&& if is_new_item || !old(self).has_key(key) {
                        final(self).chain_get(key) == Some(value)
                    } else {
                        final(self).chain_get(key) == old(self).chain_get(key)
                    }
                },
                Err(rejected) => {
                    &&& *final(self) == *old(self)
                    &&& resize_allowed
                    &&& rejected.key == key
                    &&& rejected.value == value
                },
            },
    {
        let ghost pre = *self;
        let mut g: usize = 0;
        while g < self.groups.len()
            invariant
                *self == pre,
                pre == *old(self),
                pre.wf(),
                hash == spec_adjust_hash(key.hash_spec()),
                g < self.groups@.len(),
                forall|g2: int, j2: int|
                    0 <= g2 < g && 0 <= j2 < N ==> self.slot(g2, j2) is Some && self.slot(
                        g2,
                        j2,
                    ).unwrap().key != key,
            decreases self.groups@.len() - g,
        {
            let sc = {
                let grp = &self.groups[g];
                grp.scan(hash, &key)
            };
            match sc {
                GroupScan::Matched(j) => {
                    proof {
                        assert(self.slot_has_key(g as int, j as int, key));
                    }
                    if !is_new_item {
                        proof {
                            let (a, b) = choose|a: int, b: int| self.slot_has_key(a, b, key);
                        }
                        return Ok(false);
                    }
                    let grp = &mut self.groups[g];
                    grp.set_value(j, Some(value));
                    proof {
                        Self::lemma_set_value(pre, *self, g as int, j as int, key, Some(value));
                    }
                    return Ok(false);
                },
                GroupScan::Empty(j) => {
                    proof {
                        assert(!pre.groups@[g as int].full());
                        assert(g as int == pre.groups@.len() - 1) by {
                            if (g as int) < pre.groups@.len() - 1 {
                                assert(pre.groups@[g as int].full());
                            }
                        }
                        assert(!pre.has_key(key)) by {
                            if pre.has_key(key) {
                                let (a, b) = choose|a: int, b: int| pre.slot_has_key(a, b, key);
                                if a == g as int {
                                    assert(pre.groups@[a].occupied(b));
                                }
                            }
                        }
                    }
                    let grp = &mut self.groups[g];
                    grp.put(j, hash, key, value);
                    proof {
                        Self::lemma_put(pre, *self, g as int, j as int, key, value);
                    }
                    return Ok(true);
                },
                GroupScan::Full => {
                    if resize_allowed {
                        return Err(ResizeNeeded { key, value });
                    }
                    if g + 1 == self.groups.len() {
                        proof {
                            assert(!pre.has_key(key)) by {
                                if pre.has_key(key) {
                                    let (a, b) = choose|a: int, b: int| pre.slot_has_key(
                                        a,
                                        b,
                                        key,
                                    );
                                }
                            }
                        }
                        self.groups.push(SlotGroup::new());
                        let ghost mid = *self;
                        proof {
                            Self::lemma_push_empty(pre, mid);
                        }
                        let last = self.groups.len() - 1;
                        let grp = &mut self.groups[last];
                        grp.put(0, hash, key, value);
                        proof {
                            Self::lemma_put(mid, *self, last as int, 0, key, value);
                        }
                        return Ok(true);
                    }
                    g = g + 1;
                },
            }
        }
        vstd::pervasive::unreached()
    }
}

/// Some slot of `grp` at index `l` or beyond holds a live (not
/// tombstoned) entry for `k`.
pub open spec fn group_live_suffix<K, V>(grp: SlotGroup<K, V>, l: int, k: K) -> bool {
    exists|j: int|
        l <= j < grp.entries@.len() && (#[trigger] grp.entries@[j]) is Some && grp.entries@[j].unwrap().key
            == k && grp.entries@[j].unwrap().value is Some
}

/// No two slots of `grp` hold the same key.
pub open spec fn group_keys_unique<K, V>(grp: SlotGroup<K, V>) -> bool {
    forall|j1: int, j2: int|
        {
            &&& 0 <= j1 < grp.entries@.len()
            &&& 0 <= j2 < grp.entries@.len()
            &&& #[trigger] grp.entries@[j1] is Some
            &&& #[trigger] grp.entries@[j2] is Some
            &&& grp.entries@[j1].unwrap().key == grp.entries@[j2].unwrap().key
        } ==> j1 == j2
}

/// Some slot of chain `c` in group `gl` or beyond holds a live entry
/// for `k`.
pub open spec fn chain_live_suffix<K, V>(c: VirtualBucket<K, V>, gl: int, k: K) -> bool {
    exists|g: int, j: int|
        gl <= g && #[trigger] c.slot_has_key(g, j, k) && c.slot(g, j).unwrap().value is Some
}

impl<K: MapKey, V> VirtualBucket<K, V> {
    /// In a well-formed chain, a live entry exists for `k` exactly when
    /// a lookup of `k` yields a value.
    proof fn lemma_live_is_get(self, k: K)
        requires
            self.wf(),
        ensures
            chain_live_suffix(self, 0, k) == (self.chain_get(k) is Some),
    {
        if chain_live_suffix(self, 0, k) {
            let (g, j) = choose|g: int, j: int|
                0 <= g && #[trigger] self.slot_has_key(g, j, k) && self.slot(g, j).unwrap().value
                    is Some;
            let (a, b) = choose|a: int, b: int| self.slot_has_key(a, b, k);
            assert(a == g && b == j);
        }
        if self.chain_get(k) is Some {
            let (a, b) = choose|a: int, b: int| self.slot_has_key(a, b, k);
            assert(0 <= a && self.slot_has_key(a, b, k) && self.slot(a, b).unwrap().value is Some);
        }
    }

    /// Pour one slot group into the resize destination: every live
    /// entry is inserted into the chain its stored hash selects, unless
    /// the destination already has a slot for that key — the pending
    /// update, written to the destination first, must win. Tombstones
    /// are counted and dropped.
    fn copy_group(grp: SlotGroup<K, V>, dst: &mut super::Resizer<K, V>) -> (removed: u64)
        requires
            grp.entries@.len() == grp.hashes@.len(),
            grp.entries@.len() <= N,
            forall|j: int|
                0 <= j < grp.entries@.len() && (#[trigger] grp.entries@[j]) is Some
                    ==> grp.hashes@[j] == spec_adjust_hash(grp.entries@[j].unwrap().key.hash_spec()),
            group_keys_unique(grp),
            old(dst).wf(),
        ensures
            final(dst).wf(),
            final(dst).buckets@.len() == old(dst).buckets@.len(),
            final(dst).markers@ == old(dst).markers@,
            forall|k: K|
                final(dst).has_of(k) == (old(dst).has_of(k) || group_live_suffix(grp, 0, k)),
            forall|k: K|
                final(dst).get_of(k) == (if old(dst).has_of(k) || !group_live_suffix(grp, 0, k) {
                    old(dst).get_of(k)
                } else {
                    group_value(grp, k)
                }),
            removed <= grp.entries@.len(),
    {
        let ghost grp0 = grp;
        let mut grp = grp;
        let mut removed: u64 = 0;
        while grp.entries.len() > 0
            invariant
                grp0.entries@.len() == grp0.hashes@.len(),
                grp0.entries@.len() <= N,
                forall|j: int|
                    0 <= j < grp0.entries@.len() && (#[trigger] grp0.entries@[j]) is Some
                        ==> grp0.hashes@[j] == spec_adjust_hash(
                        grp0.entries@[j].unwrap().key.hash_spec(),
                    ),
                group_keys_unique(grp0),
                grp.entries@ == grp0.entries@.subrange(0, grp.entries@.len() as int),
                grp.hashes@ == grp0.hashes@.subrange(0, grp.entries@.len() as int),
                grp.entries@.len() <= grp0.entries@.len(),
                removed <= grp0.entries@.len() - grp.entries@.len(),
                dst.wf(),
                dst.buckets@.len() == old(dst).buckets@.len(),
                dst.markers@ == old(dst).markers@,
                forall|k: K|
                    dst.has_of(k) == (old(dst).has_of(k) || group_live_suffix(
                        grp0,
                        grp.entries@.len() as int,
                        k,
                    )),
                forall|k: K|
                    dst.get_of(k) == (if old(dst).has_of(k) || !group_live_suffix(
                        grp0,
                        grp.entries@.len() as int,
                        k,
                    ) {
                        old(dst).get_of(k)
                    } else {
                        group_value(grp0, k)
                    }),
            decreases grp.entries@.len(),
        {
            let ghost dpre = *dst;
            let ghost l_pre = grp.entries@.len() as int;
            let e = match grp.entries.pop() {
                Some(e) => e,
                None => vstd::pervasive::unreached(),
            };
            let h = match grp.hashes.pop() {
                Some(h) => h,
                None => vstd::pervasive::unreached(),
            };
            let ghost jj = grp.entries@.len() as int;
            proof {
                assert(grp.entries@ =~= grp0.entries@.subrange(0, jj));
                assert(grp.hashes@ =~= grp0.hashes@.subrange(0, jj));
                assert(e == grp0.entries@[jj]);
                assert(h == grp0.hashes@[jj]);
            }
            match e {
                None => {
                    proof {
                        assert forall|k: K|
                            group_live_suffix(grp0, jj, k) == group_live_suffix(
                                grp0,
                                jj + 1,
                                k,
                            ) by {
                            if group_live_suffix(grp0, jj, k) {
                                let j2 = choose|j2: int|
                                    jj <= j2 < grp0.entries@.len() && (#[trigger] grp0.entries@[j2]) is Some
                                        && grp0.entries@[j2].unwrap().key == k
                                        && grp0.entries@[j2].unwrap().value is Some;
                                assert(j2 != jj);
                                assert(group_live_suffix(grp0, jj + 1, k));
                            }
                        }
                    }
                },
                Some(entry) => {
                    match entry.value {
                        None => {
                            removed = removed + 1;
                            proof {
                                let ghost k0 = entry.key;
                                assert forall|k: K|
                                    group_live_suffix(grp0, jj, k) == group_live_suffix(
                                        grp0,
                                        jj + 1,
                                        k,
                                    ) by {
                                    if group_live_suffix(grp0, jj, k) {
                                        let j2 = choose|j2: int|
                                            jj <= j2 < grp0.entries@.len() && (
                                            #[trigger] grp0.entries@[j2]) is Some
                                                && grp0.entries@[j2].unwrap().key == k
                                                && grp0.entries@[j2].unwrap().value is Some;
                                        assert(j2 != jj);
                                        assert(group_live_suffix(grp0, jj + 1, k));
                                    }
                                }
                            }
                        },
                        Some(v) => {
                            let ghost k0 = entry.key;
                            let ghost v0 = v;
                            let dlen = dst.buckets.len();
                            let idx = super::bucket_index(h, dlen);
                            let b = &mut dst.buckets[idx];
                            let res = b.insert(h, entry.key, v, false, false);
                            match res {
                                Ok(_) => (),
                                Err(_) => {
                                    proof {
                                        assert(false);
                                    }
                                },
                            }
                            proof {
                                let dl = dpre.buckets@.len() as int;
                                assert(super::Buckets::<K, V>::home_of(k0, dl) == idx as int);
                                // the freshly inserted key lives where its hash points
                                assert(dst.wf()) by {
                                    assert forall|i: int, k: K|
                                        0 <= i < dst.buckets@.len() && #[trigger] dst.buckets@[i].has_key(
                                            k,
                                        ) implies super::Buckets::<K, V>::home_of(k, dl) == i by {
                                        if i == idx {
                                            if k != k0 {
                                                assert(dpre.buckets@[i].has_key(k));
                                            }
                                        } else {
                                            assert(dpre.buckets@[i].has_key(k));
                                        }
                                    }
                                }
                                // this slot is the key's only one in the group
                                assert(group_live_suffix(grp0, jj, k0));
                                assert(!group_live_suffix(grp0, jj + 1, k0)) by {
                                    if group_live_suffix(grp0, jj + 1, k0) {
                                        let j2 = choose|j2: int|
                                            jj + 1 <= j2 < grp0.entries@.len() && (
                                            #[trigger] grp0.entries@[j2]) is Some
                                                && grp0.entries@[j2].unwrap().key == k0
                                                && grp0.entries@[j2].unwrap().value is Some;
                                        assert(j2 == jj);
                                    }
                                }
                                assert(group_value(grp0, k0) == Some(v0)) by {
                                    let j2 = group_slot_of(grp0, k0);
                                    assert(grp0.entries@[jj] is Some && grp0.entries@[jj].unwrap().key
                                        == k0);
                                    assert(j2 == jj);
                                }
                                assert forall|k: K|
                                    dst.has_of(k) == (old(dst).has_of(k) || group_live_suffix(
                                        grp0,
                                        jj,
                                        k,
                                    )) by {
                                    if k == k0 {
                                        assert(dst.buckets@[idx as int].has_key(k0));
                                    } else {
                                        assert(group_live_suffix(grp0, jj, k)
                                            == group_live_suffix(grp0, jj + 1, k)) by {
                                            if group_live_suffix(grp0, jj, k) {
                                                let j2 = choose|j2: int|
                                                    jj <= j2 < grp0.entries@.len() && (
                                                    #[trigger] grp0.entries@[j2]) is Some
                                                        && grp0.entries@[j2].unwrap().key == k
                                                        && grp0.entries@[j2].unwrap().value
                                                        is Some;
                                                assert(j2 != jj);
                                                assert(group_live_suffix(grp0, jj + 1, k));
                                            }
                                        }
                                        assert(0 <= super::Buckets::<K, V>::home_of(k, dl)
                                            < dl) by {
                                            let h2 = spec_adjust_hash(k.hash_spec());
                                            let m = (dl - 1) as u64;
                                            assert((h2 & m) <= m) by (bit_vector);
                                        }
                                        if super::Buckets::<K, V>::home_of(k, dl) == idx as int {
                                            assert(dst.buckets@[idx as int].has_key(k)
                                                == dpre.buckets@[idx as int].has_key(k));
                                        } else {
                                            assert(dst.buckets@[super::Buckets::<K, V>::home_of(
                                                k,
                                                dl,
                                            )] == dpre.buckets@[super::Buckets::<K, V>::home_of(
                                                k,
                                                dl,
                                            )]);
                                        }
                                    }
                                }
                                assert forall|k: K|
                                    dst.get_of(k) == (if old(dst).has_of(k) || !group_live_suffix(
                                        grp0,
                                        jj,
                                        k,
                                    ) {
                                        old(dst).get_of(k)
                                    } else {
                                        group_value(grp0, k)
                                    }) by {
                                    if k == k0 {
                                        if old(dst).has_of(k0) {
                                            assert(dpre.has_of(k0));
                                            assert(dpre.buckets@[idx as int].has_key(k0));
                                            assert(dst.buckets@[idx as int].chain_get(k0)
                                                == dpre.buckets@[idx as int].chain_get(k0));
                                        } else {
                                            assert(!dpre.has_of(k0));
                                            assert(!dpre.buckets@[idx as int].has_key(k0));
                                            assert(dst.buckets@[idx as int].chain_get(k0) == Some(v0));
                                        }
                                    } else {
                                        assert(group_live_suffix(grp0, jj, k)
                                            == group_live_suffix(grp0, jj + 1, k)) by {
                                            if group_live_suffix(grp0, jj, k) {
                                                let j2 = choose|j2: int|
                                                    jj <= j2 < grp0.entries@.len() && (
                                                    #[trigger] grp0.entries@[j2]) is Some
                                                        && grp0.entries@[j2].unwrap().key == k
                                                        && grp0.entries@[j2].unwrap().value
                                                        is Some;
                                                assert(j2 != jj);
                                                assert(group_live_suffix(grp0, jj + 1, k));
                                            }
                                        }
                                        assert(0 <= super::Buckets::<K, V>::home_of(k, dl)
                                            < dl) by {
                                            let h2 = spec_adjust_hash(k.hash_spec());
                                            let m = (dl - 1) as u64;
                                            assert((h2 & m) <= m) by (bit_vector);
                                        }
                                        if super::Buckets::<K, V>::home_of(k, dl) == idx as int {
                                            assert(dst.buckets@[idx as int].chain_get(k)
                                                == dpre.buckets@[idx as int].chain_get(k));
                                        } else {
                                            assert(dst.buckets@[super::Buckets::<K, V>::home_of(
                                                k,
                                                dl,
                                            )] == dpre.buckets@[super::Buckets::<K, V>::home_of(
                                                k,
                                                dl,
                                            )]);
                                        }
                                    }
                                }
                            }
                        },
                    }
                },
            }
        }
        removed
    }
}

impl<K: MapKey, V> VirtualBucket<K, V> {
    /// Pour this whole chain into the resize destination, group by
    /// group: live entries move unless the destination already has a
    /// slot for their key; tombstones are only counted, so the copy is
    /// where removed entries are finally dropped.
    pub fn copy_to(self, dst: &mut super::Resizer<K, V>) -> (removed: u64)
        requires
            self.wf(),
            old(dst).wf(),
        ensures
            final(dst).wf(),
            final(dst).buckets@.len() == old(dst).buckets@.len(),
            final(dst).markers@ == old(dst).markers@,
            forall|k: K|
                final(dst).has_of(k) == (old(dst).has_of(k) || self.chain_get(k) is Some),
            forall|k: K|
                final(dst).get_of(k) == (if old(dst).has_of(k) || self.chain_get(k) is None {
                    old(dst).get_of(k)
                } else {
                    self.chain_get(k)
                }),
    {
        let ghost pre = self;
        let VirtualBucket { groups } = self;
        let mut groups = groups;
        let mut removed: u64 = 0;
        while groups.len() > 0
            invariant
                pre.wf(),
                groups@.len() <= pre.groups@.len(),
                groups@ == pre.groups@.subrange(0, groups@.len() as int),
                dst.wf(),
                dst.buckets@.len() == old(dst).buckets@.len(),
                dst.markers@ == old(dst).markers@,
                forall|k: K|
                    dst.has_of(k) == (old(dst).has_of(k) || chain_live_suffix(
                        pre,
                        groups@.len() as int,
                        k,
                    )),
                forall|k: K|
                    dst.get_of(k) == (if old(dst).has_of(k) || !chain_live_suffix(
                        pre,
                        groups@.len() as int,
                        k,
                    ) {
                        old(dst).get_of(k)
                    } else {
                        pre.chain_get(k)
                    }),
            decreases groups@.len(),
        {
            let ghost dpre = *dst;
            let ghost l_pre = groups@.len() as int;
            let grp = match groups.pop() {
                Some(g) => g,
                None => vstd::pervasive::unreached(),
            };
            let ghost gg = groups@.len() as int;
            proof {
                assert(gg == l_pre - 1);
                assert(grp == pre.groups@.subrange(0, l_pre)[l_pre - 1]);
                assert(groups@ =~= pre.groups@.subrange(0, gg));
                assert(grp == pre.groups@[gg]);
                assert(pre.groups@[gg].base_wf() && pre.groups@[gg].hashes_wf());
                assert(group_keys_unique(grp)) by {
                    assert forall|j1: int, j2: int|
                        {
                            &&& 0 <= j1 < grp.entries@.len()
                            &&& 0 <= j2 < grp.entries@.len()
                            &&& #[trigger] grp.entries@[j1] is Some
                            &&& #[trigger] grp.entries@[j2] is Some
                            &&& grp.entries@[j1].unwrap().key == grp.entries@[j2].unwrap().key
                        } implies j1 == j2 by {
                        assert(pre.slot(gg, j1) is Some);
                        assert(pre.slot(gg, j2) is Some);
                    }
                }
            }
            let rem = Self::copy_group(grp, dst);
            removed = removed.wrapping_add(rem);
            proof {
                assert forall|k: K|
                    chain_live_suffix(pre, gg, k) == (chain_live_suffix(pre, gg + 1, k)
                        || group_live_suffix(grp, 0, k)) by {
                    if chain_live_suffix(pre, gg, k) {
                        let (g, j) = choose|g: int, j: int|
                            gg <= g && #[trigger] pre.slot_has_key(g, j, k) && pre.slot(
                                g,
                                j,
                            ).unwrap().value is Some;
                        if g == gg {
                            assert(grp.entries@[j] is Some && grp.entries@[j].unwrap().key == k
                                && grp.entries@[j].unwrap().value is Some);
                            assert(group_live_suffix(grp, 0, k));
                        } else {
                            assert(chain_live_suffix(pre, gg + 1, k));
                        }
                    }
                    if chain_live_suffix(pre, gg + 1, k) {
                        let (g, j) = choose|g: int, j: int|
                            gg + 1 <= g && #[trigger] pre.slot_has_key(g, j, k) && pre.slot(
                                g,
                                j,
                            ).unwrap().value is Some;
                        assert(gg <= g && pre.slot_has_key(g, j, k));
                    }
                    if group_live_suffix(grp, 0, k) {
                        let j = choose|j: int|
                            0 <= j < grp.entries@.len() && (#[trigger] grp.entries@[j]) is Some
                                && grp.entries@[j].unwrap().key == k && grp.entries@[j].unwrap().value
                                is Some;
                        assert(pre.slot_has_key(gg, j, k) && pre.slot(gg, j).unwrap().value
                            is Some);
                    }
                }
                assert forall|k: K|
                    group_live_suffix(grp, 0, k) implies pre.chain_get(k) == group_value(
                        grp,
                        k,
                    ) by {
                    if group_live_suffix(grp, 0, k) {
                        let j = choose|j: int|
                            0 <= j < grp.entries@.len() && (#[trigger] grp.entries@[j]) is Some
                                && grp.entries@[j].unwrap().key == k && grp.entries@[j].unwrap().value
                                is Some;
                        let js = group_slot_of(grp, k);
                        assert(grp.entries@[js] is Some && grp.entries@[js].unwrap().key == k);
                        assert(pre.slot_has_key(gg, js, k));
                        assert(pre.slot_has_key(gg, j, k));
                        assert(js == j);
                        let (a, b) = choose|a: int, b: int| pre.slot_has_key(a, b, k);
                        assert(a == gg && b == j);
                        assert(pre.has_key(k));
                        assert(pre.key_value(k) == grp.entries@[j].unwrap().value);
                    }
                }
                assert forall|k: K|
                    dst.has_of(k) == (old(dst).has_of(k) || chain_live_suffix(pre, gg, k)) by {
                }
                assert forall|k: K|
                    dst.get_of(k) == (if old(dst).has_of(k) || !chain_live_suffix(pre, gg, k) {
                        old(dst).get_of(k)
                    } else {
                        pre.chain_get(k)
                    }) by {
                    if !old(dst).has_of(k) && chain_live_suffix(pre, gg, k) {
                        if chain_live_suffix(pre, gg + 1, k) {
                            assert(dpre.has_of(k));
                            assert(dst.get_of(k) == dpre.get_of(k));
                        } else {
                            assert(group_live_suffix(grp, 0, k));
                            assert(!dpre.has_of(k));
                            assert(dst.get_of(k) == group_value(grp, k));
                        }
                    }
                }
            }
        }
        proof {
            assert forall|k: K|
                chain_live_suffix(pre, 0, k) == (pre.chain_get(k) is Some) by {
                pre.lemma_live_is_get(k);
            }
        }
        removed
    }
}

/// The slot of `grp` that holds `k`, where one exists.
pub open spec fn group_slot_of<K, V>(grp: SlotGroup<K, V>, k: K) -> int {
    choose|j: int|
        0 <= j < grp.entries@.len() && (#[trigger] grp.entries@[j]) is Some && grp.entries@[j].unwrap().key
            == k
}

/// The stored value of `k`'s slot in `grp`.
pub open spec fn group_value<K, V>(grp: SlotGroup<K, V>, k: K) -> Option<V> {
    grp.entries@[group_slot_of(grp, k)].unwrap().value
}

} // verus!
