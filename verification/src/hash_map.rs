//! A resizable hash map with open-addressed slot groups, linked
//! overflow, tombstone removal and incremental table doubling, modelled
//! and verified against pointwise lookup semantics.

mod virtual_bucket;

use vstd::prelude::*;

use crate::spec_adjust_hash;
use crate::adjust_hash;

pub use self::virtual_bucket::Entry;
pub use self::virtual_bucket::ResizeNeeded;
pub use self::virtual_bucket::SlotGroup;
pub use self::virtual_bucket::VirtualBucket;

verus! {

/// What the map asks of a key type: a hash that is a function of the
/// key alone, and an equality test that agrees with logical equality.
pub trait MapKey: Sized {
    /// The 64-bit hash of this key, before the zero adjustment.
    spec fn hash_spec(&self) -> u64;

    /// Computes the key's hash.
    fn hash_key(&self) -> (h: u64)
        ensures
            h == self.hash_spec(),
    ;

    /// Decides equality.
    fn eq_key(&self, other: &Self) -> (r: bool)
        ensures
            r == (self == other),
    ;
}

/// What `fxhash::hash64` returns for a `u64` key.
pub uninterp spec fn fx_hash_of_u64(k: u64) -> u64;

/// Relies on `fxhash::hash64` (an `FxHasher` with a fixed zero seed):
/// the result is a function of the key's bytes alone.
#[verifier::external_body]
fn fx_hash_u64(k: &u64) -> (h: u64)
    ensures
        h == fx_hash_of_u64(*k),
{
    fxhash::hash64(k)
}

/// What `fxhash::hash64` returns for an `i32` key.
pub uninterp spec fn fx_hash_of_i32(k: i32) -> u64;

/// Relies on `fxhash::hash64` (an `FxHasher` with a fixed zero seed):
/// the result is a function of the key's bytes alone.
#[verifier::external_body]
fn fx_hash_i32(k: &i32) -> (h: u64)
    ensures
        h == fx_hash_of_i32(*k),
{
    fxhash::hash64(k)
}

impl MapKey for u64 {
    open spec fn hash_spec(&self) -> u64 {
        fx_hash_of_u64(*self)
    }

    fn hash_key(&self) -> (h: u64) {
        fx_hash_u64(self)
    }

    fn eq_key(&self, other: &Self) -> (r: bool) {
        *self == *other
    }
}

impl MapKey for i32 {
    open spec fn hash_spec(&self) -> u64 {
        fx_hash_of_i32(*self)
    }

    fn hash_key(&self) -> (h: u64) {
        fx_hash_i32(self)
    }

    fn eq_key(&self, other: &Self) -> (r: bool) {
        *self == *other
    }
}

/// Source buckets per resize chunk: one marker guards the copying of
/// each run of eight source chains.
pub const CHUNK_SIZE: usize = 8;

/// The bucket a hash selects in a table of `len` chains: its low bits.
pub open spec fn spec_bucket_index(hash: u64, len: int) -> int {
    (hash & ((len - 1) as u64)) as int
}

/// Select a bucket by masking the hash with the table size.
pub fn bucket_index(hash: u64, len: usize) -> (i: usize)
    requires
        len >= 1,
    ensures
        i as int == spec_bucket_index(hash, len as int),
        i < len,
{
    let i = (hash as usize) & (len - 1);
    proof {
        let m = (len - 1) as usize;
        assert((((hash as usize) & m) as u64 == hash & (m as u64)) && ((hash as usize) & m)
            <= m) by (bit_vector);
    }
    i
}

/// The table at rest: at least one chain, every chain well formed, and
/// every key sitting in the chain its hash selects.
pub struct Buckets<K, V> {
    pub buckets: Vec<VirtualBucket<K, V>>,
}

impl<K: MapKey, V> Buckets<K, V> {
    /// The chain a key belongs in, for a table of `len` chains.
    pub open spec fn home_of(k: K, len: int) -> int {
        spec_bucket_index(spec_adjust_hash(k.hash_spec()), len)
    }

    pub open spec fn wf(self) -> bool {
        &&& self.buckets@.len() >= 1
        &&& forall|i: int| 0 <= i < self.buckets@.len() ==> (#[trigger] self.buckets@[i]).wf()
        &&& forall|i: int, k: K|
            0 <= i < self.buckets@.len() && #[trigger] self.buckets@[i].has_key(k)
                ==> Self::home_of(k, self.buckets@.len() as int) == i
    }

    /// The key owns a slot somewhere in the table.
    pub open spec fn has_of(self, k: K) -> bool {
        self.buckets@[Self::home_of(k, self.buckets@.len() as int)].has_key(k)
    }

    /// What a lookup of `k` yields.
    pub open spec fn get_of(self, k: K) -> Option<V> {
        self.buckets@[Self::home_of(k, self.buckets@.len() as int)].chain_get(k)
    }

    /// Wrap an existing array of chains; after a resize, the destination
    /// array becomes the table this way.
    pub fn new_with_buckets(buckets: Vec<VirtualBucket<K, V>>) -> (b: Self)
        ensures
            b.buckets == buckets,
    {
        Buckets { buckets }
    }

    /// A fresh table of `size` empty chains.
    pub fn new(size: usize) -> (b: Self)
        requires
            size >= 1,
        ensures
            b.wf(),
            b.buckets@.len() == size,
            forall|k: K| !b.has_of(k),
            forall|k: K| b.get_of(k) is None,
    {
        let b = Self::new_with_buckets(VirtualBucket::allocate(size));
        proof {
            assert forall|k: K| !b.has_of(k) by {
                let home = Self::home_of(k, b.buckets@.len() as int);
                let h = spec_adjust_hash(k.hash_spec());
                let m = (b.buckets@.len() - 1) as u64;
                assert((h & m) <= m) by (bit_vector);
                assert(!b.buckets@[home].has_key(k));
            }
            assert forall|k: K| b.get_of(k) is None by {
                let home = Self::home_of(k, b.buckets@.len() as int);
                let h = spec_adjust_hash(k.hash_spec());
                let m = (b.buckets@.len() - 1) as u64;
                assert((h & m) <= m) by (bit_vector);
                assert(b.buckets@[home].chain_get(k) is None);
            }
        }
        b
    }

    /// Borrow the chain the hash selects.
    pub fn hash_into(&self, hash: u64) -> (b: &VirtualBucket<K, V>)
        requires
            self.buckets@.len() >= 1,
        ensures
            *b == self.buckets@[spec_bucket_index(hash, self.buckets@.len() as int)],
    {
        let i = bucket_index(hash, self.buckets.len());
        &self.buckets[i]
    }
}

/// The destination of a resize in progress: the future bucket array,
/// twice the source size, plus one claim marker per chunk of source
/// chains (0 unclaimed, 1 in progress, 2 done).
pub struct Resizer<K, V> {
    pub buckets: Vec<VirtualBucket<K, V>>,
    pub markers: Vec<u8>,
}

impl<K: MapKey, V> Resizer<K, V> {
    pub open spec fn wf(self) -> bool {
        &&& self.buckets@.len() >= 1
        &&& forall|i: int| 0 <= i < self.buckets@.len() ==> (#[trigger] self.buckets@[i]).wf()
        &&& forall|i: int, k: K|
            0 <= i < self.buckets@.len() && #[trigger] self.buckets@[i].has_key(k)
                ==> Buckets::<K, V>::home_of(k, self.buckets@.len() as int) == i
    }

    /// The key owns a slot somewhere in the destination.
    pub open spec fn has_of(self, k: K) -> bool {
        self.buckets@[Buckets::<K, V>::home_of(k, self.buckets@.len() as int)].has_key(k)
    }

    /// What a lookup of `k` in the destination yields.
    pub open spec fn get_of(self, k: K) -> Option<V> {
        self.buckets@[Buckets::<K, V>::home_of(k, self.buckets@.len() as int)].chain_get(k)
    }

    /// A destination for growing a table of `old_size` chains into
    /// `size`: empty chains, and one unclaimed marker per chunk.
    pub fn new(size: usize, old_size: usize) -> (r: Self)
        requires
            size >= 1,
            old_size <= usize::MAX - CHUNK_SIZE,
        ensures
            r.wf(),
            r.buckets@.len() == size,
            forall|k: K| !r.has_of(k),
            forall|k: K| r.get_of(k) is None,
            r.markers@.len() == (old_size + CHUNK_SIZE - 1) / (CHUNK_SIZE as int),
            forall|c: int| 0 <= c < r.markers@.len() ==> r.markers@[c] == 0,
    {
        let chunks = (old_size + CHUNK_SIZE - 1) / CHUNK_SIZE;
        let mut markers: Vec<u8> = Vec::new();
        let mut i: usize = 0;
        while i < chunks
            invariant
                markers@.len() == i,
                i <= chunks,
                forall|c: int| 0 <= c < i ==> markers@[c] == 0,
            decreases chunks - i,
        {
            markers.push(0);
            i = i + 1;
        }
        let r = Resizer { buckets: VirtualBucket::allocate(size), markers };
        proof {
            assert forall|k: K| !r.has_of(k) by {
                let home = Buckets::<K, V>::home_of(k, r.buckets@.len() as int);
                let h = spec_adjust_hash(k.hash_spec());
                let m = (r.buckets@.len() - 1) as u64;
                assert((h & m) <= m) by (bit_vector);
                assert(!r.buckets@[home].has_key(k));
            }
            assert forall|k: K| r.get_of(k) is None by {
                let home = Buckets::<K, V>::home_of(k, r.buckets@.len() as int);
                let h = spec_adjust_hash(k.hash_spec());
                let m = (r.buckets@.len() - 1) as u64;
                assert((h & m) <= m) by (bit_vector);
                assert(r.buckets@[home].chain_get(k) is None);
            }
        }
        r
    }

    /// Borrow the destination chain the hash selects.
    pub fn hash_into(&self, hash: u64) -> (b: &VirtualBucket<K, V>)
        requires
            self.buckets@.len() >= 1,
        ensures
            *b == self.buckets@[spec_bucket_index(hash, self.buckets@.len() as int)],
    {
        let i = bucket_index(hash, self.buckets.len());
        &self.buckets[i]
    }
}

/// Chunk `c` of a table of `len` chains covers source chain `i`.
pub open spec fn chunk_covers(c: int, len: int, i: int) -> bool {
    c * (CHUNK_SIZE as int) <= i < c * (CHUNK_SIZE as int) + (CHUNK_SIZE as int) && i < len
}

impl<K: MapKey, V> Buckets<K, V> {
    /// Move one chunk of source chains into the resize destination. The
    /// drained chains are left empty; chains outside the chunk are not
    /// touched.
    pub fn copy_chunk_to(&mut self, chunk: usize, dst: &mut Resizer<K, V>) -> (removed: u64)
        requires
            old(self).wf(),
            old(dst).wf(),
            (chunk as int) * (CHUNK_SIZE as int) < old(self).buckets@.len(),
            old(self).buckets@.len() <= usize::MAX - CHUNK_SIZE,
        ensures
            final(self).wf(),
            final(self).buckets@.len() == old(self).buckets@.len(),
            forall|i: int|
                0 <= i < old(self).buckets@.len() && !chunk_covers(
                    chunk as int,
                    old(self).buckets@.len() as int,
                    i,
                ) ==> final(self).buckets@[i] == old(self).buckets@[i],
            final(dst).wf(),
            final(dst).buckets@.len() == old(dst).buckets@.len(),
            final(dst).markers@ == old(dst).markers@,
            forall|k: K|
                final(dst).has_of(k) == (old(dst).has_of(k) || (chunk_covers(
                    chunk as int,
                    old(self).buckets@.len() as int,
                    Self::home_of(k, old(self).buckets@.len() as int),
                ) && old(self).get_of(k) is Some)),
            forall|k: K|
                final(dst).get_of(k) == (if old(dst).has_of(k) || !(chunk_covers(
                    chunk as int,
                    old(self).buckets@.len() as int,
                    Self::home_of(k, old(self).buckets@.len() as int),
                ) && old(self).get_of(k) is Some) {
                    old(dst).get_of(k)
                } else {
                    old(self).get_of(k)
                }),
    {
        let ghost t0 = *self;
        let len = self.buckets.len();
        let ghost ln = len as int;
        let lower = chunk * CHUNK_SIZE;
        let upper = if lower + CHUNK_SIZE <= len {
            lower + CHUNK_SIZE
        } else {
            len
        };
        let mut removed: u64 = 0;
        let mut i = lower;
        while i < upper
            invariant
                t0 == *old(self),
                t0.wf(),
                ln == t0.buckets@.len(),
                lower == (chunk as int) * (CHUNK_SIZE as int),
                lower <= i <= upper <= len,
                (lower + CHUNK_SIZE <= len ==> upper == lower + CHUNK_SIZE),
                (lower + CHUNK_SIZE > len ==> upper == len),
                len == t0.buckets@.len(),
                self.buckets@.len() == len,
                self.wf(),
                forall|i2: int|
                    0 <= i2 < len && !(lower <= i2 < i) ==> self.buckets@[i2] == t0.buckets@[i2],
                dst.wf(),
                dst.buckets@.len() == old(dst).buckets@.len(),
                dst.markers@ == old(dst).markers@,
                forall|k: K|
                    dst.has_of(k) == (old(dst).has_of(k) || ((lower <= Self::home_of(k, ln) < i)
                        && t0.get_of(k) is Some)),
                forall|k: K|
                    dst.get_of(k) == (if old(dst).has_of(k) || !((lower <= Self::home_of(k, ln)
                        < i) && t0.get_of(k) is Some) {
                        old(dst).get_of(k)
                    } else {
                        t0.get_of(k)
                    }),
            decreases upper - i,
        {
            let ghost dpre = *dst;
            let ghost spre = *self;
            let mut taken: VirtualBucket<K, V> = VirtualBucket::new();
            core::mem::swap(&mut taken, &mut self.buckets[i]);
            proof {
                assert(taken == t0.buckets@[i as int]);
                assert(self.wf()) by {
                    assert forall|i2: int, k: K|
                        0 <= i2 < self.buckets@.len() && #[trigger] self.buckets@[i2].has_key(k)
                            implies Self::home_of(k, self.buckets@.len() as int) == i2 by {
                        if i2 == i as int {
                            assert(!self.buckets@[i2].has_key(k));
                        } else {
                            assert(spre.buckets@[i2].has_key(k));
                        }
                    }
                }
            }
            let rem = taken.copy_to(dst);
            removed = removed.wrapping_add(rem);
            proof {
                // the drained chain held exactly the keys whose hash
                // points at it
                assert forall|k: K|
                    Self::home_of(k, ln) != i as int implies taken.chain_get(k) is None by {
                    if taken.has_key(k) {
                        assert(t0.buckets@[i as int].has_key(k));
                    }
                }
                assert forall|k: K|
                    Self::home_of(k, ln) == i as int implies taken.chain_get(k) == t0.get_of(
                    k,
                ) by {
                }
                assert forall|k: K|
                    dst.has_of(k) == (old(dst).has_of(k) || ((lower <= Self::home_of(k, ln) < i
                        + 1) && t0.get_of(k) is Some)) by {
                    if Self::home_of(k, ln) == i as int {
                        assert(taken.chain_get(k) == t0.get_of(k));
                    } else {
                        assert(taken.chain_get(k) is None);
                    }
                }
                assert forall|k: K|
                    dst.get_of(k) == (if old(dst).has_of(k) || !((lower <= Self::home_of(k, ln) < i
                        + 1) && t0.get_of(k) is Some) {
                        old(dst).get_of(k)
                    } else {
                        t0.get_of(k)
                    }) by {
                    if Self::home_of(k, ln) == i as int {
                        assert(taken.chain_get(k) == t0.get_of(k));
                    } else {
                        assert(taken.chain_get(k) is None);
                    }
                }
            }
            i = i + 1;
        }
        removed
    }
}

/// A write replayed on the resize destination, so that the new table
/// observes it even though it raced the copy.
pub enum PendingUpdate<K, V> {
    /// A fresh insert that triggered the resize itself.
    Insert(K, V),
    /// An insert that already landed in the old table.
    Reinsert(K, V),
    /// A removal.
    Remove(K),
}

/// The key a pending update concerns.
pub open spec fn pending_key<K, V>(u: PendingUpdate<K, V>) -> K {
    match u {
        PendingUpdate::Insert(k, _) => k,
        PendingUpdate::Reinsert(k, _) => k,
        PendingUpdate::Remove(k) => k,
    }
}

/// Whether the destination holds a slot for `k` once the pending update
/// has been applied to it.
pub open spec fn applied_has<K: MapKey, V>(d: Resizer<K, V>, u: PendingUpdate<K, V>, k: K) -> bool {
    d.has_of(k) || (k == pending_key(u) && !(u is Remove))
}

/// What a lookup of `k` in the destination yields once the pending
/// update has been applied to it.
pub open spec fn applied_get<K: MapKey, V>(d: Resizer<K, V>, u: PendingUpdate<K, V>, k: K) -> Option<
    V,
> {
    if k == pending_key(u) {
        match u {
            PendingUpdate::Insert(_, v) => Some(v),
            PendingUpdate::Reinsert(_, v) => Some(v),
            PendingUpdate::Remove(_) => None,
        }
    } else {
        d.get_of(k)
    }
}

/// What a lookup of `k` yields in the finished new table: the pending
/// update wins over the copy, and the copy carries every live entry of
/// the old table.
pub open spec fn resize_get<K: MapKey, V>(
    old_t: Buckets<K, V>,
    d: Resizer<K, V>,
    u: PendingUpdate<K, V>,
    k: K,
) -> Option<V> {
    if applied_has(d, u, k) || old_t.get_of(k) is None {
        applied_get(d, u, k)
    } else {
        old_t.get_of(k)
    }
}

impl<K: MapKey, V> Buckets<K, V> {
    /// Finish a resize: apply the pending update to the destination,
    /// claim and copy every chunk of the old table, and — once every
    /// marker reads done — wrap the destination as the new table.
    pub fn resize_with_pending_update(
        old_table: &mut Buckets<K, V>,
        resizer: &mut Resizer<K, V>,
        hash: u64,
        update: PendingUpdate<K, V>,
        items: &mut u64,
    ) -> (r: Option<Buckets<K, V>>)
        requires
            old(old_table).wf(),
            old(resizer).wf(),
            old(old_table).buckets@.len() <= usize::MAX - CHUNK_SIZE,
            old(resizer).markers@.len() == (old(old_table).buckets@.len() + CHUNK_SIZE - 1) / (
            CHUNK_SIZE as int),
            forall|c: int| 0 <= c < old(resizer).markers@.len() ==> old(resizer).markers@[c] == 0,
            hash == spec_adjust_hash(pending_key(update).hash_spec()),
        ensures
            r is Some,
            r.unwrap().wf(),
            r.unwrap().buckets@.len() == old(resizer).buckets@.len(),
            forall|k: K|
                r.unwrap().get_of(k) == resize_get(*old(old_table), *old(resizer), update, k),
    {
        let ghost t0 = *old_table;
        let ghost r0 = *resizer;
        let ghost ln = t0.buckets@.len() as int;
        // apply the pending update to the destination first: it must win
        // over the copy
        let dlen = resizer.buckets.len();
        let idx = bucket_index(hash, dlen);
        match update {
            PendingUpdate::Insert(k, v) => {
                let b = &mut resizer.buckets[idx];
                let res = b.insert(hash, k, v, true, false);
                match res {
                    Ok(inserted) => {
                        if inserted {
                            *items = items.wrapping_add(1);
                        }
                    },
                    Err(_) => {
                        proof {
                            assert(false);
                        }
                    },
                }
            },
            PendingUpdate::Reinsert(k, v) => {
                let b = &mut resizer.buckets[idx];
                let res = b.insert(hash, k, v, true, false);
                match res {
                    Ok(_) => (),
                    Err(_) => {
                        proof {
                            assert(false);
                        }
                    },
                }
            },
            PendingUpdate::Remove(k) => {
                let b = &mut resizer.buckets[idx];
                b.remove(hash, &k);
            },
        }
        proof {
            let ghost k0 = pending_key(update);
            assert(Buckets::<K, V>::home_of(k0, r0.buckets@.len() as int) == idx as int);
            assert(resizer.wf()) by {
                assert forall|i: int, k: K|
                    0 <= i < resizer.buckets@.len() && #[trigger] resizer.buckets@[i].has_key(k)
                        implies Buckets::<K, V>::home_of(k, resizer.buckets@.len() as int)
                    == i by {
                    if i == idx as int {
                        if k != k0 {
                            assert(r0.buckets@[i].has_key(k));
                        }
                    } else {
                        assert(r0.buckets@[i].has_key(k));
                    }
                }
            }
            assert forall|k: K| resizer.has_of(k) == applied_has(r0, update, k) by {
                assert(0 <= Buckets::<K, V>::home_of(k, r0.buckets@.len() as int)
                    < r0.buckets@.len()) by {
                    let h2 = spec_adjust_hash(k.hash_spec());
                    let m = (r0.buckets@.len() - 1) as u64;
                    assert((h2 & m) <= m) by (bit_vector);
                }
            }
            assert forall|k: K| resizer.get_of(k) == applied_get(r0, update, k) by {
                assert(0 <= Buckets::<K, V>::home_of(k, r0.buckets@.len() as int)
                    < r0.buckets@.len()) by {
                    let h2 = spec_adjust_hash(k.hash_spec());
                    let m = (r0.buckets@.len() - 1) as u64;
                    assert((h2 & m) <= m) by (bit_vector);
                }
            }
        }
        // claim every chunk in turn and copy it over
        let chunks = resizer.markers.len();
        let mut c: usize = 0;
        while c < chunks
            invariant
                t0.wf(),
                ln == t0.buckets@.len(),
                ln >= 1,
                t0.buckets@.len() <= usize::MAX - CHUNK_SIZE,
                chunks == resizer.markers@.len(),
                chunks == (ln + CHUNK_SIZE - 1) / (CHUNK_SIZE as int),
                c <= chunks,
                old_table.wf(),
                old_table.buckets@.len() == ln,
                forall|i2: int|
                    (c as int) * (CHUNK_SIZE as int) <= i2 < ln ==> old_table.buckets@[i2]
                        == t0.buckets@[i2],
                resizer.wf(),
                resizer.buckets@.len() == r0.buckets@.len(),
                forall|c2: int|
                    0 <= c2 < chunks ==> resizer.markers@[c2] == (if c2 < c {
                        2u8
                    } else {
                        0u8
                    }),
                forall|k: K|
                    resizer.has_of(k) == (applied_has(r0, update, k) || ((Self::home_of(k, ln) < (
                    c as int) * (CHUNK_SIZE as int)) && t0.get_of(k) is Some)),
                forall|k: K|
                    resizer.get_of(k) == (if Self::home_of(k, ln) < (c as int) * (
                    CHUNK_SIZE as int) {
                        resize_get(t0, r0, update, k)
                    } else {
                        applied_get(r0, update, k)
                    }),
            decreases chunks - c,
        {
            proof {
                assert((c as int) * (CHUNK_SIZE as int) < ln) by (nonlinear_arith)
                    requires
                        0 <= c < chunks,
                        chunks == (ln + CHUNK_SIZE - 1) / (CHUNK_SIZE as int),
                        CHUNK_SIZE == 8,
                        ln >= 1,
                ;
            }
            let ghost dentry = *resizer;
            let ghost tentry = *old_table;
            let marker = resizer.markers[c];
            if marker == 0 {
                resizer.markers.set(c, 1);
                let ghost dpre = *resizer;
                let rem = Buckets::copy_chunk_to(old_table, c, resizer);
                *items = items.wrapping_sub(rem);
                resizer.markers.set(c, 2);
                proof {
                    let cc = c as int;
                    let cs = CHUNK_SIZE as int;
                    assert((cc + 1) * cs == cc * cs + cs) by (nonlinear_arith);
                    assert(dpre.buckets@ == dentry.buckets@);
                    assert forall|k: K|
                        resizer.has_of(k) == (applied_has(r0, update, k) || ((Self::home_of(
                            k,
                            ln,
                        ) < (cc + 1) * cs) && t0.get_of(k) is Some)) by {
                        let home = Self::home_of(k, ln);
                        assert(0 <= home < ln) by {
                            let h2 = spec_adjust_hash(k.hash_spec());
                            let m = (ln - 1) as u64;
                            assert((h2 & m) <= m) by (bit_vector);
                        }
                        assert(dpre.has_of(k) == dentry.has_of(k));
                        if cc * cs <= home {
                            assert(tentry.buckets@[home] == t0.buckets@[home]);
                            assert(tentry.get_of(k) == t0.get_of(k));
                        }
                    }
                    assert forall|k: K|
                        resizer.get_of(k) == (if Self::home_of(k, ln) < (cc + 1) * cs {
                            resize_get(t0, r0, update, k)
                        } else {
                            applied_get(r0, update, k)
                        }) by {
                        let home = Self::home_of(k, ln);
                        assert(0 <= home < ln) by {
                            let h2 = spec_adjust_hash(k.hash_spec());
                            let m = (ln - 1) as u64;
                            assert((h2 & m) <= m) by (bit_vector);
                        }
                        assert(dpre.has_of(k) == dentry.has_of(k));
                        assert(dpre.get_of(k) == dentry.get_of(k));
                        if cc * cs <= home {
                            assert(tentry.buckets@[home] == t0.buckets@[home]);
                            assert(tentry.get_of(k) == t0.get_of(k));
                        }
                        if home < cc * cs {
                            assert(!chunk_covers(cc, ln, home));
                        }
                    }
                }
            } else {
                proof {
                    assert(false);
                }
            }
            c = c + 1;
        }
        // every marker must read done before the destination becomes the
        // table
        let mut c2: usize = 0;
        while c2 < chunks
            invariant
                chunks == resizer.markers@.len(),
                c2 <= chunks,
                forall|c3: int| 0 <= c3 < chunks ==> resizer.markers@[c3] == 2u8,
            decreases chunks - c2,
        {
            if resizer.markers[c2] != 2 {
                proof {
                    assert(false);
                }
                return None;
            }
            c2 = c2 + 1;
        }
        proof {
            assert forall|k: K|
                resizer.get_of(k) == resize_get(t0, r0, update, k) by {
                let home = Self::home_of(k, ln);
                assert(0 <= home < ln) by {
                    let h2 = spec_adjust_hash(k.hash_spec());
                    let m = (ln - 1) as u64;
                    assert((h2 & m) <= m) by (bit_vector);
                }
                assert((chunks as int) * (CHUNK_SIZE as int) >= ln) by (nonlinear_arith)
                    requires
                        chunks == (ln + CHUNK_SIZE - 1) / (CHUNK_SIZE as int),
                        CHUNK_SIZE == 8,
                        ln >= 1,
                ;
            }
        }
        let ghost rend = *resizer;
        let mut taken_buckets: Vec<VirtualBucket<K, V>> = Vec::new();
        core::mem::swap(&mut taken_buckets, &mut resizer.buckets);
        let t = Buckets::new_with_buckets(taken_buckets);
        proof {
            assert(t.buckets@ == rend.buckets@);
            assert(t.wf()) by {
                assert forall|i: int, k: K|
                    0 <= i < t.buckets@.len() && #[trigger] t.buckets@[i].has_key(k)
                        implies Buckets::<K, V>::home_of(k, t.buckets@.len() as int) == i by {
                    assert(rend.buckets@[i].has_key(k));
                }
            }
            assert forall|k: K|
                t.get_of(k) == resize_get(t0, r0, update, k) by {
                assert(t.get_of(k) == rend.get_of(k));
            }
        }
        Some(t)
    }
}



/// The map: the current table plus a live-entry counter. The counter is
/// a load-factor hint only; it never defines what a lookup returns.
pub struct HashMap<K, V> {
    table: Buckets<K, V>,
    items: u64,
}

impl<K: MapKey, V> HashMap<K, V> {
    /// The map's invariant: a well-formed table that is never grown past
    /// the point where doubling it would overflow.
    pub closed spec fn wf(self) -> bool {
        &&& self.table.wf()
        &&& self.table.buckets@.len() <= usize::MAX / 2
    }

    /// What a lookup of `k` yields.
    pub closed spec fn spec_get(self, k: K) -> Option<V> {
        self.table.get_of(k)
    }

    /// The live-entry hint.
    pub closed spec fn spec_items(self) -> u64 {
        self.items
    }

    /// An empty map of one bucket.
    pub fn new() -> (m: Self)
        ensures
            m.wf(),
            forall|k: K| m.spec_get(k) is None,
            m.spec_items() == 0,
    {
        HashMap { table: Buckets::new(1), items: 0 }
    }

    /// The adjusted hash of a key: never the empty sentinel.
    fn hash(&self, key: &K) -> (h: u64)
        ensures
            h == spec_adjust_hash(key.hash_spec()),
            h != 0,
    {
        adjust_hash(key.hash_key())
    }

    /// The live-entry hint: exact while no insert has revived a
    /// tombstone.
    pub fn items(&self) -> (n: u64)
        ensures
            n == self.spec_items(),
    {
        self.items
    }

    /// Map `key` to `value`. When the chosen chain is full and the table
    /// holds more than half its capacity, the table is doubled first:
    /// the write goes to the new table and every old entry is copied
    /// over behind it.
    pub fn insert(&mut self, key: K, value: V)
        requires
            old(self).wf(),
        ensures
            final(self).wf(),
            final(self).spec_get(key) == Some(value),
            forall|k2: K| k2 != key ==> final(self).spec_get(k2) == old(self).spec_get(k2),
    {
        let ghost k0 = key;
        let ghost t0 = self.table;
        let hash = self.hash(&key);
        let len = self.table.buckets.len();
        let ghost ln = len as int;
        let grow = ((self.items as u128) * 2 >= (len as u128) * 7) && (len <= usize::MAX / 4);
        let idx = bucket_index(hash, len);
        let b = &mut self.table.buckets[idx];
        let res = b.insert(hash, key, value, true, grow);
        match res {
            Ok(inserted) => {
                if inserted {
                    self.items = self.items.wrapping_add(1);
                }
                proof {
                    assert(Buckets::<K, V>::home_of(k0, ln) == idx as int);
                    assert(self.table.wf()) by {
                        assert forall|i: int, k: K|
                            0 <= i < self.table.buckets@.len()
                                && #[trigger] self.table.buckets@[i].has_key(k)
                                implies Buckets::<K, V>::home_of(
                                k,
                                self.table.buckets@.len() as int,
                            ) == i by {
                            if i == idx as int {
                                if k != k0 {
                                    assert(t0.buckets@[i].has_key(k));
                                }
                            } else {
                                assert(t0.buckets@[i].has_key(k));
                            }
                        }
                    }
                    assert forall|k2: K|
                        k2 != k0 implies self.table.get_of(k2) == t0.get_of(k2) by {
                        assert(0 <= Buckets::<K, V>::home_of(k2, ln) < ln) by {
                            let h2 = spec_adjust_hash(k2.hash_spec());
                            let m = (ln - 1) as u64;
                            assert((h2 & m) <= m) by (bit_vector);
                        }
                    }
                }
            },
            Err(rejected) => {
                // the chain was full under a high load factor: double the
                // table, write the pair to the new one, and copy the rest
                let old_size = self.table.buckets.len();
                let new_size = 2 * old_size;
                let mut resizer: Resizer<K, V> = Resizer::new(new_size, old_size);
                let ghost r0 = resizer;
                let ghost t1 = self.table;
                proof {
                    assert(t1.buckets@ =~= t0.buckets@);
                }
                let r = Buckets::resize_with_pending_update(
            &mut self.table,
            &mut resizer,
            hash,
            PendingUpdate::Insert(rejected.key, rejected.value),
            &mut self.items,
        );
                let t = match r {
                    Some(t) => t,
                    None => vstd::pervasive::unreached(),
                };
                self.table = t;
                proof {
                    let ghost u = PendingUpdate::Insert(k0, value);
                    assert forall|k2: K|
                        k2 != k0 implies self.table.get_of(k2) == t0.get_of(k2) by {
                        assert(!r0.has_of(k2));
                        assert(r0.get_of(k2) is None);
                        assert(!applied_has(r0, u, k2));
                        assert(applied_get(r0, u, k2) is None);
                        assert(self.table.get_of(k2) == resize_get(t1, r0, u, k2));
                        assert(t1.get_of(k2) == t0.get_of(k2));
                    }
                    assert(applied_has(r0, u, k0));
                    assert(self.table.get_of(k0) == resize_get(t1, r0, u, k0));
                    assert(self.table.get_of(k0) == Some(value));
                }
            },
        }
    }

    /// Unmap `key`: its slot, if it has one, becomes a tombstone.
    pub fn remove(&mut self, key: &K)
        requires
            old(self).wf(),
        ensures
            final(self).wf(),
            final(self).spec_get(*key) is None,
            forall|k2: K| k2 != *key ==> final(self).spec_get(k2) == old(self).spec_get(k2),
    {
        let ghost t0 = self.table;
        let hash = self.hash(key);
        let len = self.table.buckets.len();
        let ghost ln = len as int;
        let idx = bucket_index(hash, len);
        let b = &mut self.table.buckets[idx];
        b.remove(hash, key);
        proof {
            assert(Buckets::<K, V>::home_of(*key, ln) == idx as int);
            assert(self.table.wf()) by {
                assert forall|i: int, k: K|
                    0 <= i < self.table.buckets@.len() && #[trigger] self.table.buckets@[i].has_key(
                        k,
                    ) implies Buckets::<K, V>::home_of(k, self.table.buckets@.len() as int)
                    == i by {
                    assert(t0.buckets@[i].has_key(k));
                }
            }
            assert forall|k2: K|
                k2 != *key implies self.table.get_of(k2) == t0.get_of(k2) by {
                assert(0 <= Buckets::<K, V>::home_of(k2, ln) < ln) by {
                    let h2 = spec_adjust_hash(k2.hash_spec());
                    let m = (ln - 1) as u64;
                    assert((h2 & m) <= m) by (bit_vector);
                }
            }
        }
    }

    /// Look `key` up.
    pub fn get(&self, key: &K) -> (r: Option<&V>)
        requires
            self.wf(),
        ensures
            match r {
                Some(v) => self.spec_get(*key) == Some(*v),
                None => self.spec_get(*key) is None,
            },
    {
        let hash = self.hash(key);
        let b = self.table.hash_into(hash);
        proof {
            let ln = self.table.buckets@.len() as int;
            let m = (ln - 1) as u64;
            assert((hash & m) <= m) by (bit_vector);
        }
        b.get(hash, key)
    }
}

} // verus!
