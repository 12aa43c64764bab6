//! A second header map layout, borrowing names and values from the request
//! buffer. Storing into it is not implemented yet: `insert` leaves it as it is.

use vstd::prelude::*;

verus! {

/// Hash value marking an empty slot.
pub const POS_RESET: u64 = 0xffff_ffff_ffff_ffff;

/// The number of names the map is meant to hold.
pub const MAX_SIZE: usize = 6553;

/// The largest capacity of the slot table.
pub const MAX_CAPACITY: usize = 8192;

/// The capacity the slot table starts with.
pub const INITIAL_CAPACITY: usize = 16;

/// An extra value of a header and its place in the list of extra values.
pub struct ExtraValues<'a> {
    value: &'a [u8],
    link: Link,
}

/// The neighbours of a node in the list of extra values.
pub struct Link {
    prev: usize,
    next: usize,
}

/// A header name with its first value and the link to its extra values.
pub struct Bucket<'a> {
    hash: u16,
    key: &'a [u8],
    value: &'a [u8],
    overflow: Option<Link>,
}

/// Why the map refused to grow.
pub enum HeaderMapErrors {
    MaxCapacityReached,
}

/// A header map whose names and values borrow from the request buffer.
pub struct HeaderMap2<'a> {
    mask: u16,
    size: usize,
    capacity: usize,
    pos: Vec<u64>,
    entries: Vec<Bucket<'a>>,
}

/// Reserves room for exactly `additional` more buckets with
/// `Vec::reserve_exact`, which leaves the contents unchanged.
#[verifier::external_body]
fn reserve_buckets<'a>(entries: &mut Vec<Bucket<'a>>, additional: usize)
    ensures
        final(entries)@ == old(entries)@,
{
    entries.reserve_exact(additional);
}

impl<'a> HeaderMap2<'a> {
    /// The number of names stored.
    pub closed spec fn spec_len(&self) -> nat {
        self.size as nat
    }

    /// The number of slots of the table.
    pub closed spec fn spec_capacity(&self) -> nat {
        self.capacity as nat
    }

    /// The slot table: one hash per slot.
    pub closed spec fn spec_slots(&self) -> Seq<u64> {
        self.pos@
    }

    /// The number of buckets.
    pub closed spec fn spec_bucket_count(&self) -> nat {
        self.entries@.len()
    }

    /// The invariant: the table is either unallocated or has its initial size.
    pub closed spec fn wf(&self) -> bool {
        &&& self.capacity == 0 || self.capacity == INITIAL_CAPACITY
        &&& self.size <= self.capacity
    }

    /// An empty map with no table.
    pub fn new() -> (m: HeaderMap2<'a>)
        ensures
            m.wf(),
            m.spec_len() == 0,
            m.spec_capacity() == 0,
            m.spec_slots() == Seq::<u64>::empty(),
            m.spec_bucket_count() == 0,
    {
        HeaderMap2 { mask: 0, size: 0, capacity: 0, pos: Vec::new(), entries: Vec::new() }
    }

    /// Storing is not implemented yet: the map is left as it is.
    pub fn insert(&mut self, key: &[u8], value: &[u8])
        ensures
            *final(self) == *old(self),
    {
    }

    /// Allocates the table on first use; growing past it is not implemented, so
    /// a full table is kept as it is.
    ///
    /// The table counts as full once `len / capacity` reaches a fifth, that is
    /// once `5 * len >= capacity`.
    fn ensure_capacity(&mut self) -> (r: Result<(), HeaderMapErrors>)
        requires
            old(self).wf(),
        ensures
            final(self).wf(),
            r is Ok,
            final(self).spec_len() == old(self).spec_len(),
            final(self).spec_bucket_count() == old(self).spec_bucket_count(),
            old(self).spec_capacity() == 0 ==> final(self).spec_capacity() == INITIAL_CAPACITY
                && final(self).spec_slots() == Seq::new(INITIAL_CAPACITY as nat, |i: int| POS_RESET),
            old(self).spec_capacity() != 0 ==> final(self).spec_capacity() == old(self).spec_capacity()
                && final(self).spec_slots() == old(self).spec_slots(),
    {
        if self.capacity == 0 {
            self.capacity = INITIAL_CAPACITY;
            let mut pos: Vec<u64> = Vec::new();
            while pos.len() < INITIAL_CAPACITY
                invariant
                    pos@.len() <= INITIAL_CAPACITY,
                    forall|i: int| 0 <= i < pos@.len() ==> #[trigger] pos@[i] == POS_RESET,
                decreases INITIAL_CAPACITY - pos@.len(),
            {
                pos.push(POS_RESET);
            }
            assert(pos@ =~= Seq::new(INITIAL_CAPACITY as nat, |i: int| POS_RESET));
            self.pos = pos;
            reserve_buckets(&mut self.entries, INITIAL_CAPACITY);
            return Ok(());
        }
        if self.size * 5 < self.capacity {
            return Ok(());
        }
        let new_cap = self.capacity * 2;
        match self.try_grow(new_cap) {
            Ok(()) => Ok(()),
            Err(e) => Err(e),
        }
    }

    /// Growing is not implemented yet: the map is left as it is.
    fn try_grow(&mut self, new_cap: usize) -> (r: Result<(), HeaderMapErrors>)
        ensures
            r is Ok,
            *final(self) == *old(self),
    {
        Ok(())
    }
}

} // verus!
