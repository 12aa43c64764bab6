//! Hashing header names into a table index, with several hash functions.

use vstd::prelude::*;

use crate::header::map::{hash_key, rapidhash_v3_of};
use std::collections::hash_map::DefaultHasher;
use std::hash::Hasher;
use vstd::std_specs::hash::DefaultHasherAdditionalSpecFns;

verus! {

/// The mask of the largest table index.
pub const MAX_CAP_MASK: u64 = 8191;

/// The mask of an index into a table of 16 slots.
pub const CUR_CAP_MASK: u16 = 15;

/// The FNV offset basis.
pub const FNV_OFFSET_BASIS: u64 = 0xcbf29ce484222325;

/// The FNV prime.
pub const FNV_PRIME: u64 = 0x100000001b3;

/// The FNV-1a hash of `s` from the state `h`: every byte is XORed into the state,
/// which is then multiplied by the FNV prime, wrapping.
pub open spec fn fnv1a(h: u64, s: Seq<u8>) -> u64
    decreases s.len(),
{
    if s.len() == 0 {
        h
    } else {
        (fnv1a(h, s.drop_last()) ^ (s.last() as u64)).wrapping_mul(FNV_PRIME)
    }
}

/// A 64-bit FNV-1a hasher.
pub struct FnvHasher(pub u64);

impl FnvHasher {
    /// A hasher in the FNV offset-basis state.
    pub fn new() -> (h: FnvHasher)
        ensures
            h.0 == FNV_OFFSET_BASIS,
    {
        FnvHasher(FNV_OFFSET_BASIS)
    }

    /// The hash of what was written.
    pub fn finish(&self) -> (h: u64)
        ensures
            h == self.0,
    {
        self.0
    }

    /// Feeds `bytes` to the hash.
    pub fn write(&mut self, bytes: &[u8])
        ensures
            final(self).0 == fnv1a(old(self).0, bytes@),
    {
        let mut hash = self.0;
        let mut i: usize = 0;
        while i < bytes.len()
            invariant
                i <= bytes@.len(),
                hash == fnv1a(old(self).0, bytes@.take(i as int)),
            decreases bytes@.len() - i,
        {
            assert(bytes@.take(i + 1).drop_last() =~= bytes@.take(i as int));
            hash = hash ^ (bytes[i] as u64);
            hash = hash.wrapping_mul(FNV_PRIME);
            i = i + 1;
        }
        assert(bytes@.take(bytes@.len() as int) =~= bytes@);
        self.0 = hash;
    }
}

/// The slot of a hash in a table of 16 slots: its low bits under both masks.
pub fn small_table_index(hash: u64) -> (index: usize)
    ensures
        index == ((hash & MAX_CAP_MASK) & 15),
        index < 16,
{
    let i: u64 = (hash & MAX_CAP_MASK) & 15;
    assert(((hash & MAX_CAP_MASK) & 15) < 16) by (bit_vector);
    i as usize
}

/// The FNV-1a hash of `data` and its slot in a table of 8192 slots.
pub fn hash_with_fnv(data: &[u8]) -> (r: (u64, usize))
    ensures
        r.0 == fnv1a(FNV_OFFSET_BASIS, data@),
        r.1 == ((r.0 & MAX_CAP_MASK) & MAX_CAP_MASK),
        r.1 <= MAX_CAP_MASK,
{
    let mut hasher = FnvHasher::new();
    hasher.write(data);
    let hash = hasher.finish();
    let index: u64 = (hash & MAX_CAP_MASK) & MAX_CAP_MASK;
    assert(((hash & MAX_CAP_MASK) & MAX_CAP_MASK) <= MAX_CAP_MASK) by (bit_vector);
    (hash, index as usize)
}

/// The hash of `data` by std's `DefaultHasher` (one write) and its slot in a
/// table of 16 slots.
pub fn hash_with_default(data: &[u8]) -> (r: (u64, usize))
    ensures
        r.0 == DefaultHasher::spec_finish(seq![data@]),
        r.1 == ((r.0 & MAX_CAP_MASK) & 15),
{
    let mut hasher = DefaultHasher::new();
    hasher.write(data);
    let hash = hasher.finish();
    assert(hasher@ =~= seq![data@]);
    (hash, small_table_index(hash))
}

/// The rapidhash (v3) of `data` and its slot in a table of 16 slots.
pub fn hash_with_rapid(data: &[u8]) -> (r: (u64, usize))
    ensures
        r.0 == rapidhash_v3_of(data@),
        r.1 == (r.0 & 15),
        r.1 < 16,
{
    let hash = hash_key(data);
    let index: u64 = hash & 15;
    assert((hash & 15) < 16) by (bit_vector);
    (hash, index as usize)
}


/// Law: writing `a` and then `b` to an FNV hasher leaves it in the state that
/// writing `a` followed by `b` at once does.
pub proof fn law_fnv_write_concat(h: u64, a: Seq<u8>, b: Seq<u8>)
    ensures
        fnv1a(fnv1a(h, a), b) == fnv1a(h, a + b),
    decreases b.len(),
{
    if b.len() == 0 {
        assert(a + b =~= a);
    } else {
        law_fnv_write_concat(h, a, b.drop_last());
        assert((a + b).drop_last() =~= a + b.drop_last());
        assert((a + b).last() == b.last());
    }
}

} // verus!
