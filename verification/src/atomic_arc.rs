//! Differential reference counting: an atomic cell packs a compressed
//! pointer and a transient outer count on one 64-bit word, so that a
//! load is a single atomic step that both hands out a usable handle and
//! protects the record from a concurrent store.
//!
//! The cell word layout is
//! `bits: 63-------44|43----------------------0`,
//! `data:    outer   |   pointer shifted by 4`,
//! where the pointer field holds the record's 48-bit, 16-byte-aligned
//! address shifted right by four, and the outer count tallies loads
//! whose basic-count obligation has not yet been transferred to the
//! record. When the cell is reassigned, the accumulated outer count is
//! debited from the record's basic count in one release, together with
//! the strong count the cell held.

mod inner;

use vstd::prelude::*;

pub use self::inner::Arc;
pub use self::inner::Inner;
pub use self::inner::Store;
pub use self::inner::check_ptr;
pub use self::inner::basic_of;
pub use self::inner::strong_of;
pub use self::inner::pack_counts;
pub use self::inner::seq_acquire;
pub use self::inner::seq_dup;
pub use self::inner::seq_release;
pub use self::inner::release_frees;
pub use self::inner::lemma_counts_fields;
pub use self::inner::lemma_pack_counts;
pub use self::inner::SLOT_LIMIT;
pub use self::inner::MAX_STRONG_COUNT;

verus! {

pub const PTR_MASK: u64 = 0xFFF_FFFF_FFFF;
pub const PTR_SHIFT: u64 = 4;
pub const OUTER_COUNT_SHIFT: u64 = 44;
pub const MAX_OUTER_COUNT: u64 = 0xF_FFFF;

/// The outer count held in a cell word.
pub open spec fn outer_of(w: u64) -> int {
    (w >> OUTER_COUNT_SHIFT) as int
}

/// The compressed pointer held in a cell word: the record's address
/// shifted right by four, which is its slot index plus one; zero is the
/// null state.
pub open spec fn cptr_of(w: u64) -> int {
    (w & PTR_MASK) as int
}

/// The slot the cell word points at (meaningful when it is not null).
pub open spec fn cell_id_of(w: u64) -> int {
    cptr_of(w) - 1
}

/// Packs an outer count and a compressed pointer into one cell word.
pub open spec fn pack_cell(outer: int, cptr: int) -> u64
    recommends
        0 <= outer <= MAX_OUTER_COUNT,
        0 <= cptr <= PTR_MASK,
{
    (outer * 0x1000_0000_0000 + cptr) as u64
}

/// Every cell word unpacks to fields in range, and packing those fields
/// gives the word back.
pub proof fn lemma_cell_fields(w: u64)
    ensures
        0 <= outer_of(w) <= MAX_OUTER_COUNT,
        0 <= cptr_of(w) <= PTR_MASK,
        pack_cell(outer_of(w), cptr_of(w)) == w,
{
    let o = (w >> OUTER_COUNT_SHIFT) as u64;
    let p = (w & PTR_MASK) as u64;
    assert(o <= 0xF_FFFFu64 && p <= 0xFFF_FFFF_FFFFu64 && w == o * 0x1000_0000_0000 + p)
        by (bit_vector)
        requires
            o == w >> 44,
            p == w & 0xFFF_FFFF_FFFFu64,
    ;
}

/// Packing then unpacking a cell word gives back both fields.
pub proof fn lemma_pack_cell(outer: int, cptr: int)
    requires
        0 <= outer <= MAX_OUTER_COUNT,
        0 <= cptr <= PTR_MASK,
    ensures
        outer_of(pack_cell(outer, cptr)) == outer,
        cptr_of(pack_cell(outer, cptr)) == cptr,
{
    let o = outer as u64;
    let p = cptr as u64;
    let w = pack_cell(outer, cptr);
    assert((w >> 44) == o && (w & 0xFFF_FFFF_FFFFu64) == p) by (bit_vector)
        requires
            w == o * 0x1000_0000_0000 + p,
            o <= 0xF_FFFFu64,
            p <= 0xFFF_FFFF_FFFFu64,
    ;
}

/// The compressed pointer a nullable handle stands for: the slot index
/// plus one, or zero for the null state.
pub open spec fn opt_cptr<T>(arc: Option<Arc<T>>) -> int {
    match arc {
        Some(a) => a.id() + 1,
        None => 0,
    }
}

/// The heap after the word `w` of a reassigned or destroyed cell is
/// released: the cell's strong count and its accumulated outer count are
/// given back in one release, unless the word was null.
pub open spec fn seq_cell_release<T>(s: Seq<Option<Inner<T>>>, w: u64) -> Seq<Option<Inner<T>>> {
    if cptr_of(w) == 0 {
        s
    } else {
        seq_release(s, cell_id_of(w), -outer_of(w), 1)
    }
}

/// What the store must grant before the word `w` of a cell may be
/// released: the record is live, the cell's strong count is accounted
/// for, and folding the outer count back cannot overflow the basic
/// count (where the process would abort).
pub open spec fn can_release_word<T>(s: Store<T>, w: u64) -> bool {
    cptr_of(w) != 0 ==> {
        &&& s.live(cell_id_of(w))
        &&& s.strong(cell_id_of(w)) >= 1
        &&& s.basic(cell_id_of(w)) + outer_of(w) <= 0x7FFF_FFFF
    }
}

/// What the store must grant before a handle to slot `id` is passed into
/// a cell: the record is live, one more strong count fits, and the basic
/// count the consumed handle gives back stays in range.
pub open spec fn can_pass_handle<T>(s: Store<T>, id: int) -> bool {
    &&& s.live(id)
    &&& id + 1 <= PTR_MASK
    &&& s.strong(id) < MAX_STRONG_COUNT
    &&& s.basic(id) >= 1
}

/// Law: a load that follows a store observes the stored record. The
/// store installs the compressed pointer `id + 1` with a fresh outer
/// count; a load reads that pointer back unchanged while bumping only
/// the outer count.
pub proof fn lemma_store_then_load(id: int)
    requires
        0 <= id,
        id + 1 <= PTR_MASK,
    ensures
        cell_id_of(pack_cell(0, id + 1)) == id,
        cell_id_of(pack_cell(1, id + 1)) == id,
        outer_of(pack_cell(1, id + 1)) == 1,
{
    lemma_pack_cell(0, id + 1);
    lemma_pack_cell(1, id + 1);
}

/// Law: creating a record and dropping its only handle frees the record
/// at once — its value (and so its destructor) leaves the heap exactly
/// once, at that drop.
pub proof fn lemma_create_then_drop<T>(s: Seq<Option<Inner<T>>>, v: T)
    ensures
        ({
            let id = s.len() as int;
            let s1 = s.push(Some((Inner { counts: pack_counts(1, 0), value: v })));
            &&& release_frees(s1, id, 1, 0)
            &&& seq_release(s1, id, 1, 0) == s1.update(id, None)
        }),
{
    lemma_pack_counts(1, 0);
}

/// Law: wrapping a fresh value's handle in a cell leaves the record
/// live with exactly the cell's share — one strong count, no basic
/// count — still holding that value, so a load's handle dereferences to
/// it.
pub proof fn lemma_new_cell_holds_value<T>(s: Seq<Option<Inner<T>>>, v: T)
    ensures
        ({
            let id = s.len() as int;
            let s1 = s.push(Some((Inner { counts: pack_counts(1, 0), value: v })));
            let s2 = seq_release(seq_acquire(s1, id), id, 1, 0);
            &&& s2[id] is Some
            &&& s2[id].unwrap().value == v
            &&& basic_of(s2[id].unwrap().counts) == 0
            &&& strong_of(s2[id].unwrap().counts) == 1
        }),
{
    lemma_pack_counts(1, 0);
    lemma_pack_counts(1, 1);
    lemma_pack_counts(0, 1);
}

/// Law: a swap that hands a handle back, followed by dropping that
/// handle, charges the old record net one strong count and the cell's
/// accumulated outer debt; the returned handle itself nets zero. The
/// side conditions say that some share of the record survives both
/// steps.
pub proof fn lemma_swap_then_drop<T>(s: Seq<Option<Inner<T>>>, w: u64)
    requires
        cptr_of(w) != 0,
        outer_of(w) < MAX_OUTER_COUNT,
        0 <= cell_id_of(w) < s.len(),
        s[cell_id_of(w)] is Some,
        strong_of(s[cell_id_of(w)].unwrap().counts) >= 1,
        basic_of(s[cell_id_of(w)].unwrap().counts) + outer_of(w) < 0x7FFF_FFFF,
        !(basic_of(s[cell_id_of(w)].unwrap().counts) == -(outer_of(w) + 1) && strong_of(
            s[cell_id_of(w)].unwrap().counts,
        ) == 1),
        !(basic_of(s[cell_id_of(w)].unwrap().counts) == -outer_of(w) && strong_of(
            s[cell_id_of(w)].unwrap().counts,
        ) == 1),
    ensures
        ({
            let id = cell_id_of(w);
            let bumped = pack_cell(outer_of(w) + 1, cptr_of(w));
            let e = seq_release(seq_cell_release(s, bumped), id, 1, 0);
            &&& e[id] is Some
            &&& basic_of(e[id].unwrap().counts) == basic_of(s[id].unwrap().counts) + outer_of(w)
            &&& strong_of(e[id].unwrap().counts) == strong_of(s[id].unwrap().counts) - 1
            &&& e[id].unwrap().value == s[id].unwrap().value
        }),
{
    let id = cell_id_of(w);
    let b = basic_of(s[id].unwrap().counts);
    let st = strong_of(s[id].unwrap().counts);
    lemma_cell_fields(w);
    lemma_pack_cell(outer_of(w) + 1, cptr_of(w));
    lemma_counts_fields(s[id].unwrap().counts);
    lemma_pack_counts(b + outer_of(w) + 1, st - 1);
    lemma_pack_counts(b + outer_of(w), st - 1);
}

/// Pointer-kind marker: the cell always holds a record.
pub struct NonNull;

/// Pointer-kind marker: the cell may hold the null state.
pub struct Nullable;

/// Closes the set of pointer-kind markers.
pub trait Sealed {

}

impl Sealed for NonNull {

}

impl Sealed for Nullable {

}

/// The two pointer kinds a cell can be instantiated at.
pub trait NullPolicy: Sealed {

}

impl NullPolicy for NonNull {

}

impl NullPolicy for Nullable {

}

/// A cell from which handles can be atomically loaded and stored. The
/// single word packs the compressed pointer and the transient outer
/// count, so no double-word atomic is ever needed.
pub struct AtomicArc<T, P = NonNull> {
    word: u64,
    _phantom: core::marker::PhantomData<(T, P)>,
}

/// A cell with nullable contents.
pub type NullableAtomicArc<T> = AtomicArc<T, Nullable>;

impl<T, P> AtomicArc<T, P> {
    /// The packed cell word.
    pub closed spec fn word(self) -> u64 {
        self.word
    }

    /// The cell's transient outer count.
    pub open spec fn outer(self) -> int {
        outer_of(self.word())
    }

    /// The compressed pointer the cell holds.
    pub open spec fn cptr(self) -> int {
        cptr_of(self.word())
    }

    /// The slot the cell points at (meaningful when it is not null).
    pub open spec fn ptr_id(self) -> int {
        cell_id_of(self.word())
    }

    /// Release the word `w` a cell no longer holds: fold the outer count
    /// back into the record's basic count and give up the strong count,
    /// in a single release. A null word releases nothing.
    fn release_word(store: &mut Store<T>, w: u64)
        requires
            can_release_word(*old(store), w),
        ensures
            final(store).slots@ == seq_cell_release(old(store).slots@, w),
    {
        let cptr = w & PTR_MASK;
        proof {
            lemma_cell_fields(w);
        }
        if cptr != 0 {
            proof {
                vstd::std_specs::vec::axiom_spec_len(&store.slots);
                assert(cell_id_of(w) < store.slots.len());
            }
            let id = (cptr - 1) as usize;
            let outer = w >> OUTER_COUNT_SHIFT;
            proof {
                lemma_counts_fields(store.counts(id as int));
            }
            let _ = store.release(id, -(outer as i32), 1);
        }
    }

    /// Destroy the cell: release the word it last held. Mirrors what the
    /// cell does when it is dropped.
    pub fn release(self, store: &mut Store<T>)
        requires
            can_release_word(*old(store), self.word()),
        ensures
            final(store).slots@ == seq_cell_release(old(store).slots@, self.word()),
    {
        let w = self.take_word();
        Self::release_word(store, w);
    }

    /// Read the word out of the cell as it goes away.
    fn take_word(self) -> (w: u64)
        ensures
            w == self.word(),
    {
        self.word
    }

    /// Build a cell around a packed word.
    fn from_word(w: u64) -> (c: Self)
        ensures
            c.word() == w,
    {
        AtomicArc { word: w, _phantom: core::marker::PhantomData }
    }

    /// Replace the cell's word, handing back the previous one. Mirrors
    /// the atomic swap on the packed word.
    fn swap_word(&mut self, w: u64) -> (prev: u64)
        ensures
            prev == old(self).word(),
            final(self).word() == w,
    {
        let prev = self.word;
        self.word = w;
        prev
    }

    /// Bump the outer count: the single fetch-add a load performs. The
    /// caller keeps the outer count below its limit, where the process
    /// would abort.
    fn fetch_add_outer(&mut self) -> (prev: u64)
        requires
            old(self).outer() < MAX_OUTER_COUNT,
        ensures
            prev == old(self).word(),
            final(self).word() == pack_cell(old(self).outer() + 1, old(self).cptr()),
    {
        let w = self.word;
        proof {
            lemma_cell_fields(w);
            let o = (w >> 44) as u64;
            let p = (w & PTR_MASK) as u64;
            assert(o < 0xF_FFFFu64 ==> w + 0x1000_0000_0000 == (o + 1) * 0x1000_0000_0000 + p)
                by (bit_vector)
                requires
                    o == w >> 44,
                    p == w & 0xFFF_FFFF_FFFFu64,
            ;
        }
        self.word = w + 0x1000_0000_0000u64;
        w
    }
}

impl<T> AtomicArc<T, NonNull> {
    /// Make a cell that holds the record of `arc`: one strong count is
    /// acquired for the cell, and the handle itself is consumed.
    pub fn new(store: &mut Store<T>, arc: Arc<T>) -> (c: Self)
        requires
            can_pass_handle(*old(store), arc.id()),
        ensures
            c.word() == pack_cell(0, arc.id() + 1),
            c.ptr_id() == arc.id(),
            c.outer() == 0,
            final(store).slots@ == seq_release(
                seq_acquire(old(store).slots@, arc.id()),
                arc.id(),
                1,
                0,
            ),
            final(store).live(arc.id()),
            final(store).basic(arc.id()) == old(store).basic(arc.id()) - 1,
            final(store).strong(arc.id()) == old(store).strong(arc.id()) + 1,
            final(store).value(arc.id()) == old(store).value(arc.id()),
            final(store).same_but(*old(store), arc.id()),
    {
        let ghost pre = *store;
        let id = arc.slot();
        proof {
            lemma_counts_fields(store.counts(id as int));
        }
        store.strong_acquire(id);
        proof {
            lemma_pack_counts(pre.basic(id as int), pre.strong(id as int) + 1);
            lemma_pack_cell(0, id as int + 1);
        }
        let _ = arc.drop(store);
        proof {
            lemma_pack_counts(pre.basic(id as int) - 1, pre.strong(id as int) + 1);
        }
        Self::from_word((id as u64) + 1)
    }
}

impl<T> AtomicArc<T, NonNull> {
    /// Atomically load a handle: a single fetch-add bumps the outer
    /// count, which both reserves the returned handle's share and keeps
    /// the record alive, without touching the record itself.
    pub fn load(&mut self) -> (arc: Arc<T>)
        requires
            old(self).outer() < MAX_OUTER_COUNT,
            old(self).cptr() != 0,
            old(self).ptr_id() <= usize::MAX,
        ensures
            final(self).word() == pack_cell(old(self).outer() + 1, old(self).cptr()),
            final(self).cptr() == old(self).cptr(),
            arc.id() == old(self).ptr_id(),
    {
        let w = self.fetch_add_outer();
        proof {
            lemma_cell_fields(w);
            lemma_pack_cell(outer_of(w) + 1, cptr_of(w));
        }
        let cptr = w & PTR_MASK;
        Arc::from_inner((cptr - 1) as usize)
    }

    /// Atomically store a handle: swap the cell word for the new record
    /// with a fresh outer count, then release the previous word — its
    /// outer count is folded back into the old record's basic count
    /// together with the cell's strong count.
    pub fn store(&mut self, store: &mut Store<T>, arc: Arc<T>)
        requires
            can_pass_handle(*old(store), arc.id()),
            old(self).cptr() != 0,
            can_release_word(*old(store), old(self).word()),
        ensures
            final(self).word() == pack_cell(0, arc.id() + 1),
            final(self).ptr_id() == arc.id(),
            final(self).outer() == 0,
            final(store).slots@ == seq_release(
                seq_cell_release(seq_acquire(old(store).slots@, arc.id()), old(self).word()),
                arc.id(),
                1,
                0,
            ),
    {
        let ghost pre = *store;
        let id = arc.slot();
        proof {
            lemma_counts_fields(store.counts(id as int));
        }
        store.strong_acquire(id);
        let old_w = self.swap_word((id as u64) + 1);
        proof {
            lemma_cell_fields(old_w);
            lemma_pack_cell(0, id as int + 1);
            lemma_pack_counts(pre.basic(id as int), pre.strong(id as int) + 1);
        }
        Self::release_word(store, old_w);
        proof {
            lemma_counts_fields(pre.counts(id as int));
            if cptr_of(old_w) != 0 && cell_id_of(old_w) == id as int {
                lemma_pack_counts(
                    pre.basic(id as int) + outer_of(old_w),
                    pre.strong(id as int),
                );
            }
        }
        let _ = arc.drop(store);
    }

    /// Atomically swap in a handle and hand the previous one out. The
    /// previous word's outer count is incremented first — materializing
    /// the returned handle — and then released.
    pub fn swap(&mut self, store: &mut Store<T>, arc: Arc<T>) -> (prev: Arc<T>)
        requires
            can_pass_handle(*old(store), arc.id()),
            old(self).cptr() != 0,
            old(self).outer() < MAX_OUTER_COUNT,
            old(self).ptr_id() <= usize::MAX,
            can_release_word(*old(store), pack_cell(old(self).outer() + 1, old(self).cptr())),
        ensures
            final(self).word() == pack_cell(0, arc.id() + 1),
            final(self).ptr_id() == arc.id(),
            final(self).outer() == 0,
            prev.id() == old(self).ptr_id(),
            final(store).slots@ == seq_release(
                seq_cell_release(
                    seq_acquire(old(store).slots@, arc.id()),
                    pack_cell(old(self).outer() + 1, old(self).cptr()),
                ),
                arc.id(),
                1,
                0,
            ),
    {
        let ghost pre = *store;
        let id = arc.slot();
        proof {
            lemma_counts_fields(store.counts(id as int));
        }
        store.strong_acquire(id);
        let old_w = self.swap_word((id as u64) + 1);
        proof {
            lemma_cell_fields(old_w);
            let o = (old_w >> 44) as u64;
            let p = (old_w & PTR_MASK) as u64;
            assert(o < 0xF_FFFFu64 ==> (old_w + 0x1000_0000_0000 == (o + 1) * 0x1000_0000_0000 + p
                && old_w + 0x1000_0000_0000 <= 0xFFFF_FFFF_FFFF_FFFFu64)) by (bit_vector)
                requires
                    o == old_w >> 44,
                    p == old_w & 0xFFF_FFFF_FFFFu64,
            ;
            lemma_pack_cell(outer_of(old_w) + 1, cptr_of(old_w));
            lemma_pack_cell(0, id as int + 1);
            lemma_pack_counts(pre.basic(id as int), pre.strong(id as int) + 1);
        }
        let bumped = match old_w.checked_add(0x1000_0000_0000u64) {
            Some(b) => b,
            None => vstd::pervasive::unreached(),
        };
        Self::release_word(store, bumped);
        proof {
            lemma_counts_fields(pre.counts(id as int));
            if cell_id_of(bumped) == id as int {
                lemma_pack_counts(
                    pre.basic(id as int) + outer_of(bumped),
                    pre.strong(id as int),
                );
            }
        }
        let prev = Arc::from_inner(((old_w & PTR_MASK) - 1) as usize);
        let _ = arc.drop(store);
        prev
    }

    /// Compare the cell's pointer with `current` and, if they are equal,
    /// install `new`. The outcome says whether the pointers were equal
    /// at the comparison; on failure the cell is untouched and the
    /// strong count taken for `new` is given back, so that dropping the
    /// consumed `new` handle restores its record's counts.
    pub fn compare_exchange(&mut self, store: &mut Store<T>, current: &Arc<T>, new: Arc<T>) -> (r:
        bool)
        requires
            can_pass_handle(*old(store), new.id()),
            current.id() + 1 <= PTR_MASK,
            old(self).cptr() == current.id() + 1 ==> can_release_word(
                *old(store),
                old(self).word(),
            ),
        ensures
            r == (old(self).cptr() == current.id() + 1),
            if r {
                &&& final(self).word() == pack_cell(0, new.id() + 1)
                &&& final(store).slots@ == seq_release(
                    seq_cell_release(seq_acquire(old(store).slots@, new.id()), old(self).word()),
                    new.id(),
                    1,
                    0,
                )
            } else {
                &&& final(self).word() == old(self).word()
                &&& final(store).slots@ == seq_release(
                    seq_release(seq_acquire(old(store).slots@, new.id()), new.id(), 0, 1),
                    new.id(),
                    1,
                    0,
                )
            },
    {
        let ghost pre = *store;
        let new_id = new.slot();
        proof {
            lemma_counts_fields(store.counts(new_id as int));
        }
        store.strong_acquire(new_id);
        proof {
            lemma_pack_counts(pre.basic(new_id as int), pre.strong(new_id as int) + 1);
        }
        let w = self.word;
        let cur_cptr = (current.slot() as u64) + 1;
        if (w & PTR_MASK) != cur_cptr {
            let _ = store.release(new_id, 0, 1);
            proof {
                lemma_pack_counts(pre.basic(new_id as int), pre.strong(new_id as int));
            }
            let _ = new.drop(store);
            false
        } else {
            let _ = self.swap_word((new_id as u64) + 1);
            proof {
                lemma_cell_fields(w);
                lemma_pack_cell(0, new_id as int + 1);
            }
            Self::release_word(store, w);
            proof {
                lemma_counts_fields(pre.counts(new_id as int));
                if cptr_of(w) != 0 && cell_id_of(w) == new_id as int {
                    lemma_pack_counts(
                        pre.basic(new_id as int) + outer_of(w),
                        pre.strong(new_id as int),
                    );
                }
            }
            let _ = new.drop(store);
            true
        }
    }
}

impl<T> AtomicArc<T, Nullable> {
    /// Make a cell with nullable contents: as [`AtomicArc::new`], or the
    /// null state when no handle is given.
    pub fn new_nullable(store: &mut Store<T>, arc: Option<Arc<T>>) -> (c: Self)
        requires
            arc is Some ==> can_pass_handle(*old(store), arc.unwrap().id()),
        ensures
            c.word() == pack_cell(0, opt_cptr(arc)),
            c.outer() == 0,
            final(store).slots@ == (match arc {
                Some(a) => seq_release(seq_acquire(old(store).slots@, a.id()), a.id(), 1, 0),
                None => old(store).slots@,
            }),
    {
        match arc {
            Some(a) => {
                let ghost pre = *store;
                let id = a.slot();
                proof {
                    lemma_counts_fields(store.counts(id as int));
                }
                store.strong_acquire(id);
                proof {
                    lemma_pack_counts(pre.basic(id as int), pre.strong(id as int) + 1);
                    lemma_pack_cell(0, id as int + 1);
                }
                let _ = a.drop(store);
                Self::from_word((id as u64) + 1)
            },
            None => {
                proof {
                    lemma_pack_cell(0, 0);
                }
                Self::from_word(0)
            },
        }
    }

    /// Atomically load the nullable contents: the single fetch-add bumps
    /// the outer count whether or not the cell is null, exactly as the
    /// atomic word operation would.
    pub fn load(&mut self) -> (arc: Option<Arc<T>>)
        requires
            old(self).outer() < MAX_OUTER_COUNT,
            old(self).ptr_id() <= usize::MAX,
        ensures
            final(self).word() == pack_cell(old(self).outer() + 1, old(self).cptr()),
            final(self).cptr() == old(self).cptr(),
            opt_cptr(arc) == old(self).cptr(),
    {
        let w = self.fetch_add_outer();
        proof {
            lemma_cell_fields(w);
            lemma_pack_cell(outer_of(w) + 1, cptr_of(w));
        }
        let cptr = w & PTR_MASK;
        if cptr == 0 {
            None
        } else {
            Some(Arc::from_inner((cptr - 1) as usize))
        }
    }

    /// Atomically store nullable contents: as the non-null store, with
    /// the null state acquiring and releasing nothing.
    pub fn store(&mut self, store: &mut Store<T>, arc: Option<Arc<T>>)
        requires
            arc is Some ==> can_pass_handle(*old(store), arc.unwrap().id()),
            can_release_word(*old(store), old(self).word()),
        ensures
            final(self).word() == pack_cell(0, opt_cptr(arc)),
            final(self).cptr() == opt_cptr(arc),
            final(self).outer() == 0,
            final(store).slots@ == (match arc {
                Some(a) => seq_release(
                    seq_cell_release(seq_acquire(old(store).slots@, a.id()), old(self).word()),
                    a.id(),
                    1,
                    0,
                ),
                None => seq_cell_release(old(store).slots@, old(self).word()),
            }),
    {
        match arc {
            Some(a) => {
                let ghost pre = *store;
                let id = a.slot();
                proof {
                    lemma_counts_fields(store.counts(id as int));
                }
                store.strong_acquire(id);
                let old_w = self.swap_word((id as u64) + 1);
                proof {
                    lemma_cell_fields(old_w);
                    lemma_pack_cell(0, id as int + 1);
                    lemma_pack_counts(pre.basic(id as int), pre.strong(id as int) + 1);
                }
                Self::release_word(store, old_w);
                proof {
                    lemma_counts_fields(pre.counts(id as int));
                    if cptr_of(old_w) != 0 && cell_id_of(old_w) == id as int {
                        lemma_pack_counts(
                            pre.basic(id as int) + outer_of(old_w),
                            pre.strong(id as int),
                        );
                    }
                }
                let _ = a.drop(store);
            },
            None => {
                let old_w = self.swap_word(0);
                proof {
                    lemma_cell_fields(old_w);
                    lemma_pack_cell(0, 0);
                }
                Self::release_word(store, old_w);
            },
        }
    }

    /// Atomically swap the nullable contents, handing the previous ones
    /// out: the previous word's outer count is incremented first —
    /// materializing the returned handle, even around the null state —
    /// and then released.
    pub fn swap(&mut self, store: &mut Store<T>, arc: Option<Arc<T>>) -> (prev: Option<Arc<T>>)
        requires
            arc is Some ==> can_pass_handle(*old(store), arc.unwrap().id()),
            old(self).outer() < MAX_OUTER_COUNT,
            old(self).ptr_id() <= usize::MAX,
            can_release_word(*old(store), pack_cell(old(self).outer() + 1, old(self).cptr())),
        ensures
            final(self).word() == pack_cell(0, opt_cptr(arc)),
            final(self).cptr() == opt_cptr(arc),
            final(self).outer() == 0,
            opt_cptr(prev) == old(self).cptr(),
            final(store).slots@ == (match arc {
                Some(a) => seq_release(
                    seq_cell_release(
                        seq_acquire(old(store).slots@, a.id()),
                        pack_cell(old(self).outer() + 1, old(self).cptr()),
                    ),
                    a.id(),
                    1,
                    0,
                ),
                None => seq_cell_release(
                    old(store).slots@,
                    pack_cell(old(self).outer() + 1, old(self).cptr()),
                ),
            }),
    {
        let ghost pre = *store;
        match arc {
            Some(a) => {
                let id = a.slot();
                proof {
                    lemma_counts_fields(store.counts(id as int));
                }
                store.strong_acquire(id);
                let old_w = self.swap_word((id as u64) + 1);
                proof {
                    lemma_cell_fields(old_w);
                    let o = (old_w >> 44) as u64;
                    let p = (old_w & PTR_MASK) as u64;
                    assert(o < 0xF_FFFFu64 ==> (old_w + 0x1000_0000_0000 == (o + 1)
                        * 0x1000_0000_0000 + p && old_w + 0x1000_0000_0000
                        <= 0xFFFF_FFFF_FFFF_FFFFu64)) by (bit_vector)
                        requires
                            o == old_w >> 44,
                            p == old_w & 0xFFF_FFFF_FFFFu64,
                    ;
                    lemma_pack_cell(outer_of(old_w) + 1, cptr_of(old_w));
                    lemma_pack_cell(0, id as int + 1);
                    lemma_pack_counts(pre.basic(id as int), pre.strong(id as int) + 1);
                }
                let bumped = match old_w.checked_add(0x1000_0000_0000u64) {
                    Some(b) => b,
                    None => vstd::pervasive::unreached(),
                };
                Self::release_word(store, bumped);
                proof {
                    lemma_counts_fields(pre.counts(id as int));
                    if cell_id_of(bumped) == id as int {
                        lemma_pack_counts(
                            pre.basic(id as int) + outer_of(bumped),
                            pre.strong(id as int),
                        );
                    }
                }
                let prev_cptr = old_w & PTR_MASK;
                let prev = if prev_cptr == 0 {
                    None
                } else {
                    Some(Arc::from_inner((prev_cptr - 1) as usize))
                };
                let _ = a.drop(store);
                prev
            },
            None => {
                let old_w = self.swap_word(0);
                proof {
                    lemma_cell_fields(old_w);
                    let o = (old_w >> 44) as u64;
                    let p = (old_w & PTR_MASK) as u64;
                    assert(o < 0xF_FFFFu64 ==> (old_w + 0x1000_0000_0000 == (o + 1)
                        * 0x1000_0000_0000 + p && old_w + 0x1000_0000_0000
                        <= 0xFFFF_FFFF_FFFF_FFFFu64)) by (bit_vector)
                        requires
                            o == old_w >> 44,
                            p == old_w & 0xFFF_FFFF_FFFFu64,
                    ;
                    lemma_pack_cell(outer_of(old_w) + 1, cptr_of(old_w));
                    lemma_pack_cell(0, 0);
                }
                let bumped = match old_w.checked_add(0x1000_0000_0000u64) {
                    Some(b) => b,
                    None => vstd::pervasive::unreached(),
                };
                Self::release_word(store, bumped);
                let prev_cptr = old_w & PTR_MASK;
                if prev_cptr == 0 {
                    None
                } else {
                    Some(Arc::from_inner((prev_cptr - 1) as usize))
                }
            },
        }
    }

    /// Compare the nullable contents with `current` and, if the
    /// pointers are equal, install `new`. On failure the cell is
    /// untouched and the strong count taken for `new`, if any, is given
    /// back.
    pub fn compare_exchange(
        &mut self,
        store: &mut Store<T>,
        current: &Option<Arc<T>>,
        new: Option<Arc<T>>,
    ) -> (r: bool)
        requires
            new is Some ==> can_pass_handle(*old(store), new.unwrap().id()),
            opt_cptr(*current) <= PTR_MASK,
            old(self).cptr() == opt_cptr(*current) ==> can_release_word(
                *old(store),
                old(self).word(),
            ),
        ensures
            r == (old(self).cptr() == opt_cptr(*current)),
            if r {
                &&& final(self).word() == pack_cell(0, opt_cptr(new))
                &&& final(store).slots@ == (match new {
                    Some(n) => seq_release(
                        seq_cell_release(
                            seq_acquire(old(store).slots@, n.id()),
                            old(self).word(),
                        ),
                        n.id(),
                        1,
                        0,
                    ),
                    None => seq_cell_release(old(store).slots@, old(self).word()),
                })
            } else {
                &&& final(self).word() == old(self).word()
                &&& final(store).slots@ == (match new {
                    Some(n) => seq_release(
                        seq_release(seq_acquire(old(store).slots@, n.id()), n.id(), 0, 1),
                        n.id(),
                        1,
                        0,
                    ),
                    None => old(store).slots@,
                })
            },
    {
        let ghost pre = *store;
        let cur_cptr: u64 = match current {
            Some(c) => (c.slot() as u64) + 1,
            None => 0,
        };
        let w = self.word;
        match new {
            Some(n) => {
                let new_id = n.slot();
                proof {
                    lemma_counts_fields(store.counts(new_id as int));
                }
                store.strong_acquire(new_id);
                proof {
                    lemma_pack_counts(pre.basic(new_id as int), pre.strong(new_id as int) + 1);
                }
                if (w & PTR_MASK) != cur_cptr {
                    let _ = store.release(new_id, 0, 1);
                    proof {
                        lemma_pack_counts(pre.basic(new_id as int), pre.strong(new_id as int));
                    }
                    let _ = n.drop(store);
                    false
                } else {
                    let _ = self.swap_word((new_id as u64) + 1);
                    proof {
                        lemma_cell_fields(w);
                        lemma_pack_cell(0, new_id as int + 1);
                    }
                    Self::release_word(store, w);
                    proof {
                        lemma_counts_fields(pre.counts(new_id as int));
                        if cptr_of(w) != 0 && cell_id_of(w) == new_id as int {
                            lemma_pack_counts(
                                pre.basic(new_id as int) + outer_of(w),
                                pre.strong(new_id as int),
                            );
                        }
                    }
                    let _ = n.drop(store);
                    true
                }
            },
            None => {
                if (w & PTR_MASK) != cur_cptr {
                    false
                } else {
                    let _ = self.swap_word(0);
                    proof {
                        lemma_cell_fields(w);
                        lemma_pack_cell(0, 0);
                    }
                    Self::release_word(store, w);
                    true
                }
            },
        }
    }
}

} // verus!
