//! The heap record behind every handle: a user value paired with one
//! 64-bit word that packs two reference counts, and the release protocol
//! that frees the record exactly when both counts reach zero.
//!
//! The word layout is
//! `bits: 63------32|31-----0`,
//! `data:   basic   | strong`,
//! where `basic` is a signed 32-bit count of outstanding owned handles
//! (it may transiently go negative while a cell's outer count is being
//! transferred back) and `strong` is an unsigned 32-bit count of the
//! atomic cells currently referencing the record.
//!
//! The release protocol subtracts from both fields with a single wrapping
//! 64-bit subtraction; the borrow out of the strong field is discarded by
//! the wrap-around, so the two subtractions are independent. That trick
//! is what `lemma_counts_sub` proves.
//!
//! Records live in a [`Store`], the model of the shared heap: a handle or
//! a cell names a record by its slot index, and a freed record leaves a
//! permanently empty slot behind, so a stale index can never denote a
//! different record.

use vstd::prelude::*;

verus! {

pub const BASIC_COUNT_SHIFT: u64 = 32;
pub const STRONG_COUNT_MASK: u64 = 0xFFFF_FFFF;
pub const MAX_STRONG_COUNT: u64 = 0xFFFF_FFFF;
/// Greatest number of slots a store may hold: every slot's address
/// `16 * (slot + 1)` must stay within the low 48 bits of a pointer.
pub const SLOT_LIMIT: u64 = 0xFFF_FFFF_FFFE;

/// The strong count held in a packed counts word.
pub open spec fn strong_of(w: u64) -> int {
    (w & STRONG_COUNT_MASK) as int
}

/// The high 32 bits of a packed counts word, still unsigned.
pub open spec fn basic_bits_of(w: u64) -> u64 {
    w >> BASIC_COUNT_SHIFT
}

/// Reads a 32-bit field as a signed (two's-complement) value.
pub open spec fn to_signed(b: u64) -> int
    recommends
        b < 0x1_0000_0000,
{
    if b < 0x8000_0000 {
        b as int
    } else {
        b - 0x1_0000_0000
    }
}

/// The two's-complement bit pattern of a signed 32-bit value.
pub open spec fn bits_of_signed(b: int) -> u64
    recommends
        -0x8000_0000 <= b <= 0x7FFF_FFFF,
{
    if b >= 0 {
        b as u64
    } else {
        (b + 0x1_0000_0000) as u64
    }
}

/// The basic count held in a packed counts word.
pub open spec fn basic_of(w: u64) -> int {
    to_signed(basic_bits_of(w))
}

/// Packs a basic and a strong count into one counts word.
pub open spec fn pack_counts(basic: int, strong: int) -> u64
    recommends
        -0x8000_0000 <= basic <= 0x7FFF_FFFF,
        0 <= strong <= MAX_STRONG_COUNT,
{
    (bits_of_signed(basic) * 0x1_0000_0000 + strong) as u64
}

/// Packing then unpacking a counts word gives back both fields.
pub proof fn lemma_pack_counts(basic: int, strong: int)
    requires
        -0x8000_0000 <= basic <= 0x7FFF_FFFF,
        0 <= strong <= MAX_STRONG_COUNT,
    ensures
        basic_of(pack_counts(basic, strong)) == basic,
        strong_of(pack_counts(basic, strong)) == strong,
{
    let bb = bits_of_signed(basic);
    let s = strong as u64;
    let w = pack_counts(basic, strong);
    assert((w >> 32) == bb && (w & 0xFFFF_FFFFu64) == s) by (bit_vector)
        requires
            w == bb * 0x1_0000_0000 + s,
            bb < 0x1_0000_0000,
            s < 0x1_0000_0000,
    ;
}

/// Every counts word unpacks to fields in range, and packing those
/// fields gives the word back.
pub proof fn lemma_counts_fields(w: u64)
    ensures
        0 <= strong_of(w) <= MAX_STRONG_COUNT,
        basic_bits_of(w) < 0x1_0000_0000,
        -0x8000_0000 <= basic_of(w) <= 0x7FFF_FFFF,
        bits_of_signed(basic_of(w)) == basic_bits_of(w),
        pack_counts(basic_of(w), strong_of(w)) == w,
{
    let bb = basic_bits_of(w);
    let s = (w & STRONG_COUNT_MASK) as u64;
    assert(bb < 0x1_0000_0000 && s < 0x1_0000_0000 && w == bb * 0x1_0000_0000 + s)
        by (bit_vector)
        requires
            bb == w >> 32,
            s == w & 0xFFFF_FFFFu64,
    ;
}

/// The heart of the release protocol: subtracting the packed delta
/// `strong | (basic << 32)` with one wrapping 64-bit subtraction
/// subtracts the two fields independently, provided the strong field
/// does not borrow (a release never takes more strong counts than the
/// word holds).
pub proof fn lemma_counts_sub(w: u64, r: u64, db: u64, ds: u64)
    requires
        db < 0x1_0000_0000,
        ds < 0x1_0000_0000,
        strong_of(w) >= ds,
        r == vstd::wrapping::u64_specs::wrapping_sub(w, (db << 32) | ds),
    ensures
        strong_of(r) == strong_of(w) - ds,
        basic_bits_of(r) == sub_mod32(basic_bits_of(w), db),
{
    let d = (db << 32) | ds;
    assert((r & 0xFFFF_FFFFu64) == (w & 0xFFFF_FFFFu64) - ds && ((w >> 32) >= db ==> (r >> 32)
        == (w >> 32) - db) && ((w >> 32) < db ==> (r >> 32) == (w >> 32) + 0x1_0000_0000 - db))
        by (bit_vector)
        requires
            (w >= d ==> r == w - d),
            (w < d ==> r == w + 0x1_0000_0000_0000_0000 - d),
            d == (db << 32) | ds,
            db < 0x1_0000_0000,
            ds < 0x1_0000_0000,
            (w & 0xFFFF_FFFFu64) >= ds,
    ;
}

/// 32-bit wrapping subtraction of two 32-bit fields.
pub open spec fn sub_mod32(a: u64, b: u64) -> u64
    recommends
        a < 0x1_0000_0000,
        b < 0x1_0000_0000,
{
    if a >= b {
        (a - b) as u64
    } else {
        (a + 0x1_0000_0000 - b) as u64
    }
}

/// A 32-bit wrapping subtraction whose true signed difference stays
/// within the signed 32-bit range yields exactly that difference.
pub proof fn lemma_sub_mod32_signed(a: u64, b: u64)
    requires
        a < 0x1_0000_0000,
        b < 0x1_0000_0000,
        -0x8000_0000 <= to_signed(a) - to_signed(b) <= 0x7FFF_FFFF,
    ensures
        to_signed(sub_mod32(a, b)) == to_signed(a) - to_signed(b),
{
}

/// A heap record: an immutable user value plus the packed counts word.
pub struct Inner<T> {
    pub counts: u64,
    pub value: T,
}

/// The heap after one unit of strong count is acquired on slot `id`.
pub open spec fn seq_acquire<T>(s: Seq<Option<Inner<T>>>, id: int) -> Seq<Option<Inner<T>>>
    recommends
        0 <= id < s.len(),
        s[id] is Some,
{
    let w = s[id].unwrap().counts;
    s.update(
        id,
        Some(Inner { counts: pack_counts(basic_of(w), strong_of(w) + 1), value: s[id].unwrap().value }),
    )
}

/// Whether releasing `(basic, strong)` from slot `id` brings both counts
/// to zero, which frees the record.
pub open spec fn release_frees<T>(s: Seq<Option<Inner<T>>>, id: int, basic: int, strong: int) -> bool
    recommends
        0 <= id < s.len(),
        s[id] is Some,
{
    let w = s[id].unwrap().counts;
    basic_of(w) == basic && strong_of(w) == strong
}

/// The heap after a handle to slot `id` is duplicated: `basic += 1`.
pub open spec fn seq_dup<T>(s: Seq<Option<Inner<T>>>, id: int) -> Seq<Option<Inner<T>>>
    recommends
        0 <= id < s.len(),
        s[id] is Some,
{
    let w = s[id].unwrap().counts;
    s.update(
        id,
        Some(Inner { counts: pack_counts(basic_of(w) + 1, strong_of(w)), value: s[id].unwrap().value }),
    )
}

/// The heap after `(basic, strong)` is released from slot `id`: the
/// counts drop, and the slot empties when both reach zero.
pub open spec fn seq_release<T>(s: Seq<Option<Inner<T>>>, id: int, basic: int, strong: int) -> Seq<
    Option<Inner<T>>,
>
    recommends
        0 <= id < s.len(),
        s[id] is Some,
{
    let w = s[id].unwrap().counts;
    if release_frees(s, id, basic, strong) {
        s.update(id, None)
    } else {
        s.update(
            id,
            Some(
                Inner {
                    counts: pack_counts(basic_of(w) - basic, strong_of(w) - strong),
                    value: s[id].unwrap().value,
                },
            ),
        )
    }
}

/// The model of the shared heap. Each slot holds a live record or stays
/// empty forever once its record has been freed; slot indices are never
/// reused, so a handle's index always denotes the record it was created
/// for.
pub struct Store<T> {
    pub slots: Vec<Option<Inner<T>>>,
}

impl<T> Store<T> {
    /// Slot `id` holds a live record.
    pub open spec fn live(self, id: int) -> bool {
        0 <= id < self.slots@.len() && self.slots@[id] is Some
    }

    /// The packed counts word of the record in slot `id`.
    pub open spec fn counts(self, id: int) -> u64
        recommends
            self.live(id),
    {
        self.slots@[id].unwrap().counts
    }

    /// The basic count of the record in slot `id`.
    pub open spec fn basic(self, id: int) -> int
        recommends
            self.live(id),
    {
        basic_of(self.counts(id))
    }

    /// The strong count of the record in slot `id`.
    pub open spec fn strong(self, id: int) -> int
        recommends
            self.live(id),
    {
        strong_of(self.counts(id))
    }

    /// The user value of the record in slot `id`.
    pub open spec fn value(self, id: int) -> T
        recommends
            self.live(id),
    {
        self.slots@[id].unwrap().value
    }

    /// All slots other than `id` are as they were, and the store has not
    /// grown or shrunk.
    pub open spec fn same_but(self, pre: Self, id: int) -> bool {
        &&& self.slots@.len() == pre.slots@.len()
        &&& forall|j: int| 0 <= j < pre.slots@.len() && j != id ==> self.slots@[j] == pre.slots@[j]
    }

    /// The record in slot `id` holds the counts `(basic, strong)` and the
    /// same value as in `pre`.
    pub open spec fn recounted(self, pre: Self, id: int, basic: int, strong: int) -> bool {
        &&& self.live(id)
        &&& self.counts(id) == pack_counts(basic, strong)
        &&& self.value(id) == pre.value(id)
    }

    /// An empty heap.
    pub fn new() -> (s: Self)
        ensures
            s.slots@.len() == 0,
    {
        Store { slots: Vec::new() }
    }

    /// The number of slots ever allocated.
    pub fn len(&self) -> (n: usize)
        ensures
            n == self.slots@.len(),
    {
        self.slots.len()
    }

    /// Acquire one unit of the strong count: an atomic cell is about to
    /// point at this record. Mirrors a relaxed `fetch_add(1)` on the
    /// counts word; the caller keeps the strong count below its limit,
    /// where the process would abort.
    pub fn strong_acquire(&mut self, id: usize)
        requires
            old(self).live(id as int),
            old(self).strong(id as int) < MAX_STRONG_COUNT,
        ensures
            final(self).same_but(*old(self), id as int),
            final(self).recounted(
                *old(self),
                id as int,
                old(self).basic(id as int),
                old(self).strong(id as int) + 1,
            ),
            final(self).slots@ == seq_acquire(old(self).slots@, id as int),
    {
        let ghost pre = *self;
        let w = self.read_counts(id);
        proof {
            let bb = basic_bits_of(w);
            let s = (w & STRONG_COUNT_MASK) as u64;
            lemma_counts_fields(w);
            assert(s < 0xFFFF_FFFFu64 ==> (w < 0xFFFF_FFFF_FFFF_FFFFu64 && w + 1 == bb
                * 0x1_0000_0000 + (s + 1))) by (bit_vector)
                requires
                    bb == w >> 32,
                    s == w & 0xFFFF_FFFFu64,
            ;
            lemma_pack_counts(pre.basic(id as int), pre.strong(id as int) + 1);
        }
        self.write_counts(id, w + 1);
    }

    /// Subtract `basic` and `strong` from the packed counts word in one
    /// wrapping 64-bit subtraction, and free the record exactly when both
    /// counts thereby reach zero; the freed record's value is returned.
    /// The caller never subtracts more strong counts than are held, and
    /// keeps the basic count within its signed range, where the process
    /// would abort.
    pub fn release(&mut self, id: usize, basic: i32, strong: u32) -> (freed: Option<T>)
        requires
            old(self).live(id as int),
            old(self).strong(id as int) >= strong,
            -0x8000_0000 <= old(self).basic(id as int) - basic <= 0x7FFF_FFFF,
        ensures
            final(self).same_but(*old(self), id as int),
            final(self).slots@ == seq_release(old(self).slots@, id as int, basic as int, strong as int),
            if old(self).basic(id as int) == basic && old(self).strong(id as int) == strong {
                &&& final(self).slots@[id as int] is None
                &&& freed == Some(old(self).value(id as int))
            } else {
                &&& final(self).recounted(
                    *old(self),
                    id as int,
                    old(self).basic(id as int) - basic,
                    old(self).strong(id as int) - strong,
                )
                &&& freed is None
            },
    {
        let ghost pre = *self;
        let w = self.read_counts(id);
        let bb: u64 = if basic >= 0 {
            basic as u64
        } else {
            (basic as i64 + 0x1_0000_0000i64) as u64
        };
        let delta: u64 = (bb << 32) | (strong as u64);
        let r = w.wrapping_sub(delta);
        proof {
            lemma_counts_fields(w);
            lemma_counts_fields(r);
            assert(to_signed(bb) == basic);
            lemma_counts_sub(w, r, bb, strong as u64);
            lemma_sub_mod32_signed(basic_bits_of(w), bb);
            lemma_pack_counts(pre.basic(id as int) - basic, pre.strong(id as int) - strong);
        }
        let old_strong: u64 = w & STRONG_COUNT_MASK;
        let old_bb: u64 = w >> 32;
        if old_bb == bb && old_strong == strong as u64 {
            self.free(id)
        } else {
            self.write_counts(id, r);
            None
        }
    }

    /// Read the counts word of a live record.
    fn read_counts(&self, id: usize) -> (w: u64)
        requires
            self.live(id as int),
        ensures
            w == self.counts(id as int),
    {
        match &self.slots[id] {
            Some(inner) => inner.counts,
            None => vstd::pervasive::unreached(),
        }
    }

    /// Overwrite the counts word of a live record.
    fn write_counts(&mut self, id: usize, w: u64)
        requires
            old(self).live(id as int),
        ensures
            final(self).same_but(*old(self), id as int),
            final(self).live(id as int),
            final(self).counts(id as int) == w,
            final(self).value(id as int) == old(self).value(id as int),
            final(self).slots@ == old(self).slots@.update(
                id as int,
                Some((Inner { counts: w, value: old(self).value(id as int) })),
            ),
    {
        match &mut self.slots[id] {
            Some(inner) => inner.counts = w,
            None => {
                proof {
                    assert(false);
                }
            },
        }
    }

    /// Empty the slot of a live record and hand its value back.
    fn free(&mut self, id: usize) -> (freed: Option<T>)
        requires
            old(self).live(id as int),
        ensures
            final(self).same_but(*old(self), id as int),
            final(self).slots@[id as int] is None,
            freed == Some(old(self).value(id as int)),
            final(self).slots@ == old(self).slots@.update(id as int, None::<Inner<T>>),
    {
        let mut taken: Option<Inner<T>> = None;
        core::mem::swap(&mut taken, &mut self.slots[id]);
        match taken {
            Some(inner) => Some(inner.value),
            None => vstd::pervasive::unreached(),
        }
    }
}

/// One step a program can take with the owned handles of a single
/// record: duplicate one of them, or drop one of them.
pub enum HandleOp {
    Duplicate,
    Drop,
}

/// How many duplications a sequence of handle operations performs.
pub open spec fn count_dups(ops: Seq<HandleOp>) -> int
    decreases ops.len(),
{
    if ops.len() == 0 {
        0
    } else {
        (if ops[0] is Duplicate {
            1int
        } else {
            0int
        }) + count_dups(ops.drop_first())
    }
}

/// How many drops a sequence of handle operations performs.
pub open spec fn count_drops(ops: Seq<HandleOp>) -> int
    decreases ops.len(),
{
    if ops.len() == 0 {
        0
    } else {
        (if ops[0] is Drop {
            1int
        } else {
            0int
        }) + count_drops(ops.drop_first())
    }
}

/// Every step acts on a handle that exists: starting from `basic`
/// outstanding handles, a drop that consumes the last one ends the
/// sequence.
pub open spec fn ops_valid(basic: int, ops: Seq<HandleOp>) -> bool
    decreases ops.len(),
{
    ops.len() > 0 ==> match ops[0] {
        HandleOp::Duplicate => ops_valid(basic + 1, ops.drop_first()),
        HandleOp::Drop => basic >= 1 && (basic == 1 ==> ops.len() == 1) && ops_valid(
            basic - 1,
            ops.drop_first(),
        ),
    }
}

/// The heap after a sequence of duplications and drops of slot `id`'s
/// handles.
pub open spec fn apply_handle_ops<T>(
    s: Seq<Option<Inner<T>>>,
    id: int,
    ops: Seq<HandleOp>,
) -> Seq<Option<Inner<T>>>
    decreases ops.len(),
{
    if ops.len() == 0 {
        s
    } else {
        let s1 = match ops[0] {
            HandleOp::Duplicate => seq_dup(s, id),
            HandleOp::Drop => seq_release(s, id, 1, 0),
        };
        apply_handle_ops(s1, id, ops.drop_first())
    }
}

/// A sequence of handle operations performs a nonnegative number of
/// duplications and of drops.
pub proof fn lemma_ops_counts_nonneg(ops: Seq<HandleOp>)
    ensures
        count_dups(ops) >= 0,
        count_drops(ops) >= 0,
    decreases ops.len(),
{
    if ops.len() > 0 {
        lemma_ops_counts_nonneg(ops.drop_first());
    }
}

/// Law: for every sequence of handle duplications and drops on a single
/// record that no atomic cell points at (its strong count is zero), the
/// record is freed exactly when the last handle is dropped; until then
/// it keeps its value and its counts track the outstanding handles.
pub proof fn lemma_handle_lifecycle<T>(
    s: Seq<Option<Inner<T>>>,
    id: int,
    basic: int,
    ops: Seq<HandleOp>,
)
    requires
        0 <= id < s.len(),
        s[id] is Some,
        s[id].unwrap().counts == pack_counts(basic, 0),
        1 <= basic,
        basic + count_dups(ops) <= 0x7FFF_FFFF,
        ops_valid(basic, ops),
    ensures
        ({
            let e = apply_handle_ops(s, id, ops);
            &&& e.len() == s.len()
            &&& if basic + count_dups(ops) - count_drops(ops) == 0 {
                e[id] is None
            } else {
                &&& e[id] is Some
                &&& e[id].unwrap().counts == pack_counts(
                    basic + count_dups(ops) - count_drops(ops),
                    0,
                )
                &&& e[id].unwrap().value == s[id].unwrap().value
            }
        }),
    decreases ops.len(),
{
    lemma_ops_counts_nonneg(ops);
    lemma_pack_counts(basic, 0);
    if ops.len() > 0 {
        lemma_ops_counts_nonneg(ops.drop_first());
        match ops[0] {
            HandleOp::Duplicate => {
                let s1 = seq_dup(s, id);
                lemma_pack_counts(basic + 1, 0);
                lemma_handle_lifecycle(s1, id, basic + 1, ops.drop_first());
            },
            HandleOp::Drop => {
                let s1 = seq_release(s, id, 1, 0);
                if basic == 1 {
                    assert(release_frees(s, id, 1, 0));
                    assert(ops.len() == 1);
                    assert(apply_handle_ops(s1, id, ops.drop_first()) == s1);
                } else {
                    lemma_pack_counts(basic - 1, 0);
                    lemma_handle_lifecycle(s1, id, basic - 1, ops.drop_first());
                }
            },
        }
    }
}

/// A pointer survives compression: its address fits in the low 48 bits
/// and its low four bits are zero, so shifting right by four loses
/// nothing.
pub fn check_ptr(ptr: u64) -> (ok: bool)
    ensures
        ok == (ptr >> 48 == 0 && ptr % 16 == 0),
{
    ptr >> 48 == 0 && ptr % 16 == 0
}

/// A thread-safe reference-counting pointer that can be stored in an
/// atomic cell. A handle names its record by slot index; duplicating or
/// dropping it adjusts the record's basic count through the store.
pub struct Arc<T> {
    id: usize,
    _phantom: core::marker::PhantomData<T>,
}

impl<T> Arc<T> {
    /// The slot of the record this handle owns a share of.
    pub closed spec fn id(self) -> int {
        self.id as int
    }

    /// The slot index, as the cells store it.
    pub fn slot(&self) -> (i: usize)
        ensures
            i == self.id(),
    {
        self.id
    }

    /// Rebuild a handle from a slot index. The cells use this to
    /// materialize the handle a load or a swap hands out; the count that
    /// backs it is accounted for by the cell's outer count.
    pub(crate) fn from_inner(id: usize) -> (arc: Self)
        ensures
            arc.id() == id,
    {
        Arc { id, _phantom: core::marker::PhantomData }
    }

    /// Allocate a fresh record with `basic = 1`, `strong = 0` and hand
    /// back its first handle. The new record's address is checked to be
    /// 16-byte aligned and within the low 48 bits.
    pub fn new(store: &mut Store<T>, value: T) -> (arc: Self)
        requires
            old(store).slots@.len() < SLOT_LIMIT,
        ensures
            arc.id() == old(store).slots@.len(),
            final(store).slots@.len() == old(store).slots@.len() + 1,
            forall|j: int|
                0 <= j < old(store).slots@.len() ==> final(store).slots@[j]
                    == old(store).slots@[j],
            final(store).recounted(*final(store), arc.id(), 1, 0),
            final(store).live(arc.id()),
            final(store).basic(arc.id()) == 1,
            final(store).strong(arc.id()) == 0,
            final(store).value(arc.id()) == value,
            final(store).slots@ == old(store).slots@.push(
                Some((Inner { counts: pack_counts(1, 0), value })),
            ),
    {
        let id = store.slots.len();
        store.slots.push(
            Some(Inner { counts: 0x1_0000_0000u64, value }),
        );
        let addr: u64 = ((id as u64) + 1) << 4;
        let ok = check_ptr(addr);
        proof {
            let x: u64 = (id + 1) as u64;
            assert((x << 4) >> 48 == 0 && (x << 4) % 16 == 0) by (bit_vector)
                requires
                    x <= 0xFFF_FFFF_FFFEu64,
            ;
            assert(ok);
            lemma_pack_counts(1, 0);
            assert(pack_counts(1, 0) == 0x1_0000_0000u64);
        }
        Arc { id, _phantom: core::marker::PhantomData }
    }

    /// Take one more share of the record: `basic += 1`, mirroring a
    /// relaxed `fetch_add` on the counts word. The caller keeps the basic
    /// count below its signed limit, where the process would abort.
    pub fn duplicate(&self, store: &mut Store<T>) -> (arc: Self)
        requires
            old(store).live(self.id()),
            old(store).basic(self.id()) < 0x7FFF_FFFF,
        ensures
            arc.id() == self.id(),
            final(store).same_but(*old(store), self.id()),
            final(store).recounted(
                *old(store),
                self.id(),
                old(store).basic(self.id()) + 1,
                old(store).strong(self.id()),
            ),
            final(store).slots@ == seq_dup(old(store).slots@, self.id()),
    {
        let ghost pre = *store;
        let w = store.read_counts(self.id);
        let r = w.wrapping_add(0x1_0000_0000u64);
        proof {
            let bb = basic_bits_of(w);
            let s = (w & STRONG_COUNT_MASK) as u64;
            lemma_counts_fields(w);
            assert(((bb < 0xFFFF_FFFFu64 ==> r == (bb + 1) * 0x1_0000_0000 + s) && (bb
                == 0xFFFF_FFFFu64 ==> r == s))) by (bit_vector)
                requires
                    bb == w >> 32,
                    s == w & 0xFFFF_FFFFu64,
                    (w + 0x1_0000_0000 <= 0xFFFF_FFFF_FFFF_FFFFu64 ==> r == w + 0x1_0000_0000),
                    (w + 0x1_0000_0000 > 0xFFFF_FFFF_FFFF_FFFFu64 ==> r == w + 0x1_0000_0000
                        - 0x1_0000_0000_0000_0000),
            ;
            lemma_pack_counts(pre.basic(self.id()) + 1, pre.strong(self.id()));
            assert(bits_of_signed(pre.basic(self.id()) + 1) == (if bb == 0xFFFF_FFFFu64 {
                0u64
            } else {
                (bb + 1) as u64
            }));
        }
        store.write_counts(self.id, r);
        Arc { id: self.id, _phantom: core::marker::PhantomData }
    }

    /// Give the share back: releases with `basic = 1`, `strong = 0`. The
    /// record is freed, and its value returned, exactly when this was the
    /// last handle and no cell points at the record.
    pub fn drop(self, store: &mut Store<T>) -> (freed: Option<T>)
        requires
            old(store).live(self.id()),
            old(store).basic(self.id()) > -0x8000_0000,
        ensures
            final(store).same_but(*old(store), self.id()),
            final(store).slots@ == seq_release(old(store).slots@, self.id(), 1, 0),
            if old(store).basic(self.id()) == 1 && old(store).strong(self.id()) == 0 {
                &&& final(store).slots@[self.id()] is None
                &&& freed == Some(old(store).value(self.id()))
            } else {
                &&& final(store).recounted(
                    *old(store),
                    self.id(),
                    old(store).basic(self.id()) - 1,
                    old(store).strong(self.id()),
                )
                &&& freed is None
            },
    {
        proof {
            lemma_counts_fields(store.counts(self.id()));
        }
        store.release(self.id, 1, 0)
    }

    /// Borrow the value. No count moves: the handle itself keeps the
    /// record alive.
    pub fn deref<'a>(&self, store: &'a Store<T>) -> (value: &'a T)
        requires
            store.live(self.id()),
        ensures
            *value == store.value(self.id()),
    {
        match &store.slots[self.id] {
            Some(inner) => &inner.value,
            None => vstd::pervasive::unreached(),
        }
    }
}

} // verus!
