//! A model of a lock-free associative container built on an atomically
//! swappable reference-counted pointer, with the reference-counting
//! protocol and the map logic stated and proved.

pub mod atomic_arc;
pub mod hash_map;

use vstd::prelude::*;

verus! {

/// Adjust a raw hash so that the sentinel value 0 is never stored: the
/// map reserves 0 to mean "empty slot".
pub open spec fn spec_adjust_hash(h: u64) -> u64 {
    if h == 0 { 1 } else { h }
}

/// A raw hash of 0 is remapped to 1; every other hash is kept.
pub fn adjust_hash(h: u64) -> (r: u64)
    ensures
        r == spec_adjust_hash(h),
        r != 0,
{
    if h == 0 { 1 } else { h }
}

} // verus!

