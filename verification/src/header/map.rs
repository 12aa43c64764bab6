//! A simplified multi-map of header names to one or more header values.
//!
//! HTTP/1.1 allows the same header to appear on several lines; every line
//! with the same name adds a value, while comma separated values on one line
//! are kept as a single value.
//!
//! The map is an open-addressing table of `Pos` slots (a hash and an index
//! into the bucket list) probed linearly from the hash's ideal slot. A lookup
//! goes on until it finds the hash or meets a free slot. A removed name leaves
//! a mark that lookups pass, so the names stored after it stay reachable, and
//! that a new name may take. A new name is refused once its probe passes taken
//! slots further than `MAX_PROBE_DISTANCE` steps out.
//!
//! Lookups are not held to `MAX_PROBE_DISTANCE`: a store may place a name one
//! step past it, and growing re-places names with no limit, so a lookup held to
//! it would miss names that `insert` or `append` stored successfully, while
//! `get` promises the value of every name present.
//!
//! Names are compared by their hash alone. A name whose rapidhash is the value
//! that marks a slot without a name is stored under the value one below it
//! (see `stored_hash`), so every stored name occupies a slot.
//! Extra values of a name live in a vector-backed linked list.

use vstd::prelude::*;

verus! {

/// The largest capacity the slot table may grow to.
pub const MAX_CAPACITY: usize = 32768;

/// The capacity the slot table starts with.
pub const INITIAL_CAPACITY: usize = 16;

/// Hash value marking a slot without a name: free (index 0) or left by a
/// removed name (index 1). No name is stored under it.
pub const POS_HASH_EMPTY: u64 = 0xffff_ffff_ffff_ffff;

/// How far past the ideal slot a store of a new name may pass taken slots
/// before giving up with `ProbeLimitExceeded`. Lookups are not held to it (see
/// the module documentation).
pub const MAX_PROBE_DISTANCE: usize = 5;

/// A slot of the table: the hash of a header name and the index of its bucket.
#[derive(Clone, Copy, Debug)]
pub struct Pos {
    pub hash: u64,
    pub index: usize,
}

impl Pos {
    /// The slot holds no name.
    pub open spec fn spec_is_empty(self) -> bool {
        self.hash == POS_HASH_EMPTY
    }

    /// A free slot.
    pub open spec fn spec_empty() -> Pos {
        Pos { hash: POS_HASH_EMPTY, index: 0 }
    }

    /// A slot that has held no name since the table was made: probes stop here.
    pub open spec fn spec_is_free(self) -> bool {
        self.hash == POS_HASH_EMPTY && self.index == 0
    }

    /// The mark a removed name leaves in its slot: it holds no name, but probes
    /// go past it to the names stored further on.
    pub open spec fn spec_removed() -> Pos {
        Pos { hash: POS_HASH_EMPTY, index: 1 }
    }

    fn removed() -> (p: Pos)
        ensures
            p == Pos::spec_removed(),
    {
        Pos { hash: POS_HASH_EMPTY, index: 1 }
    }

    fn is_free(&self) -> (b: bool)
        ensures
            b == self.spec_is_free(),
    {
        self.hash == POS_HASH_EMPTY && self.index == 0
    }

    pub fn new(hash: u64, index: usize) -> (p: Pos)
        ensures
            p == (Pos { hash, index }),
    {
        Pos { hash, index }
    }

    pub fn empty() -> (p: Pos)
        ensures
            p == Pos::spec_empty(),
    {
        Pos { hash: POS_HASH_EMPTY, index: 0 }
    }

    pub fn is_empty(&self) -> (b: bool)
        ensures
            b == self.spec_is_empty(),
    {
        self.hash == POS_HASH_EMPTY
    }
}

/// What `rapidhash::v3::rapidhash_v3` returns for the given bytes.
pub uninterp spec fn rapidhash_v3_of(data: Seq<u8>) -> u64;

/// Hashes a header name with `rapidhash::v3::rapidhash_v3` (default secrets).
/// The result is a function of the bytes alone and is named, not described.
#[verifier::external_body]
pub(crate) fn hash_key(key: &[u8]) -> (h: u64)
    ensures
        h == rapidhash_v3_of(key@),
{
    rapidhash::v3::rapidhash_v3(key)
}

/// The slot a hash ideally occupies in a table with the given mask.
pub open spec fn spec_ideal_pos(hash: u64, mask: u16) -> usize {
    (hash & (mask as u64)) as usize
}

/// The slot that follows `slot` in a table with the given mask.
pub open spec fn next_slot(slot: usize, mask: u16) -> usize {
    ((slot + 1) as usize) & (mask as usize)
}

/// The ideal slot of `hash`: its low bits selected by `mask`.
pub fn ideal_pos(hash: u64, mask: u16) -> (slot: usize)
    ensures
        slot == spec_ideal_pos(hash, mask),
        slot <= mask,
{
    let m: u64 = mask as u64;
    assert((hash & m) <= m) by (bit_vector);
    (hash & m) as usize
}

/// Where a probe for a hash ends.
pub enum Probe {
    /// A free slot reached at the given distance from the ideal slot.
    Vacant { slot: usize, distance: usize },
    /// A slot holding the hash, reached at the given distance.
    Found { slot: usize, distance: usize },
    /// The probe went through every slot of the table without ending.
    Exceeded,
}

/// The outcome of probing `table` for `hash`, starting at `slot`, `distance` steps
/// past the ideal slot: a free slot ends the probe; a slot holding a name with
/// the hash finds it; a slot holding another name, or left by a removed one, is
/// passed; having passed every slot of the table, the probe fails.
pub open spec fn probe_from(table: Seq<Pos>, mask: u16, hash: u64, slot: usize, distance: usize) -> Probe
    decreases table.len() - distance,
{
    if !(slot < table.len()) || distance >= table.len() || distance == usize::MAX {
        Probe::Exceeded
    } else if table[slot as int].spec_is_free() {
        Probe::Vacant { slot, distance }
    } else if !table[slot as int].spec_is_empty() && table[slot as int].hash == hash {
        Probe::Found { slot, distance }
    } else {
        probe_from(table, mask, hash, next_slot(slot, mask), (distance + 1) as usize)
    }
}

/// A probe ends on a slot of the table: a free one, or one holding the hash.
pub proof fn lemma_probe_from_facts(table: Seq<Pos>, mask: u16, hash: u64, slot: usize, distance: usize)
    ensures
        match probe_from(table, mask, hash, slot, distance) {
            Probe::Vacant { slot: s, distance: e } => s < table.len() && table[s as int].spec_is_free()
                && distance <= e < table.len(),
            Probe::Found { slot: s, distance: e } => s < table.len() && !table[s as int].spec_is_empty()
                && table[s as int].hash == hash && distance <= e < table.len(),
            Probe::Exceeded => true,
        },
    decreases table.len() - distance,
{
    if slot < table.len() && distance < table.len() && distance < usize::MAX && !table[slot as int].spec_is_free() && !(
    !table[slot as int].spec_is_empty() && table[slot as int].hash == hash) {
        lemma_probe_from_facts(table, mask, hash, next_slot(slot, mask), (distance + 1) as usize);
    }
}

/// The outcome of probing `table` for `hash` from its ideal slot.
pub open spec fn probe(table: Seq<Pos>, mask: u16, hash: u64) -> Probe {
    probe_from(table, mask, hash, spec_ideal_pos(hash, mask), 0)
}

/// The slot where a probe for `hash` finds it, if it does.
#[verifier::opaque]
pub open spec fn found_slot(table: Seq<Pos>, mask: u16, hash: u64) -> Option<usize> {
    match probe(table, mask, hash) {
        Probe::Found { slot, .. } => Some(slot),
        _ => None,
    }
}

/// The hash a name is stored under: its rapidhash, except that the value which
/// marks a slot without a name (`u64::MAX`) is moved to `u64::MAX - 1`, so the
/// name is not taken for an empty slot. Two names with those two hashes then
/// count as one, as any two names with equal hashes do.
pub open spec fn stored_hash(h: u64) -> u64 {
    if h == POS_HASH_EMPTY {
        (POS_HASH_EMPTY - 1) as u64
    } else {
        h
    }
}

/// The hash a header name is stored and looked up under.
pub open spec fn key_hash(key: Seq<u8>) -> u64 {
    stored_hash(rapidhash_v3_of(key))
}

/// Hashes a header name (see `key_hash`).
pub fn hash_of(key: &[u8]) -> (h: u64)
    ensures
        h == key_hash(key@),
        h != POS_HASH_EMPTY,
{
    let h = hash_key(key);
    if h == POS_HASH_EMPTY {
        h - 1
    } else {
        h
    }
}

} // verus!

verus! {

/// The capacities the slot table takes: powers of two from 16 to 32768.
pub open spec fn valid_capacity(c: nat) -> bool {
    c == 16 || c == 32 || c == 64 || c == 128 || c == 256 || c == 512 || c == 1024 || c == 2048
        || c == 4096 || c == 8192 || c == 16384 || c == 32768
}

/// Within a table of valid capacity `c`, masking by `c - 1` reduces modulo `c`.
pub proof fn lemma_mask_mod(x: u64, c: u64)
    requires
        c == 16 || c == 32 || c == 64 || c == 128 || c == 256 || c == 512 || c == 1024 || c
            == 2048 || c == 4096 || c == 8192 || c == 16384 || c == 32768,
    ensures
        x & ((c - 1) as u64) == x % c,
        x & ((c - 1) as u64) < c,
{
    let n: nat = if c == 16 {
        4
    } else if c == 32 {
        5
    } else if c == 64 {
        6
    } else if c == 128 {
        7
    } else if c == 256 {
        8
    } else if c == 512 {
        9
    } else if c == 1024 {
        10
    } else if c == 2048 {
        11
    } else if c == 4096 {
        12
    } else if c == 8192 {
        13
    } else if c == 16384 {
        14
    } else {
        15
    };
    vstd::bits::lemma_u64_low_bits_mask_is_mod(x, n);
    vstd::bits::lemma_low_bits_mask_values();
    vstd::arithmetic::power2::lemma2_to64();
}

/// The next slot after `x` in a table of valid capacity wraps around modulo the capacity.
pub proof fn lemma_next_slot(x: usize, c: nat)
    requires
        valid_capacity(c),
        x < c,
    ensures
        next_slot(x, (c - 1) as u16) == (x + 1) % (c as int),
        next_slot(x, (c - 1) as u16) < c,
{
    let cu: u64 = c as u64;
    let y: u64 = (x + 1) as u64;
    lemma_mask_mod(y, cu);
    let m: u16 = (c - 1) as u16;
    let xu: usize = x;
    assert(((xu + 1) as usize) & (m as usize) == (((xu + 1) as u64) & (m as u64)) as usize) by (bit_vector)
        requires xu < 32768,
    ;
}

/// The ideal slot of any hash lies inside a table of valid capacity.
pub proof fn lemma_ideal_in_range(h: u64, c: nat)
    requires
        valid_capacity(c),
    ensures
        spec_ideal_pos(h, (c - 1) as u16) < c,
        spec_ideal_pos(h, (c - 1) as u16) == h % (c as u64),
{
    lemma_mask_mod(h, c as u64);
}

/// The number of occupied slots of a table.
pub open spec fn slot_count(t: Seq<Pos>) -> nat
    decreases t.len(),
{
    if t.len() == 0 {
        0
    } else {
        slot_count(t.drop_last()) + if t.last().spec_is_empty() { 0nat } else { 1nat }
    }
}

/// The number of values held by the bucket an occupied slot points at.
pub open spec fn pos_weight(p: Pos, values: Seq<Seq<Seq<u8>>>) -> nat {
    if p.spec_is_empty() {
        0
    } else {
        values[p.index as int].len()
    }
}

/// The number of values reachable through the occupied slots of a table.
pub open spec fn slot_weight(t: Seq<Pos>, values: Seq<Seq<Seq<u8>>>) -> nat
    decreases t.len(),
{
    if t.len() == 0 {
        0
    } else {
        slot_weight(t.drop_last(), values) + pos_weight(t.last(), values)
    }
}

pub proof fn lemma_slot_count_update(t: Seq<Pos>, s: int, p: Pos)
    requires
        0 <= s < t.len(),
    ensures
        slot_count(t.update(s, p)) + (if t[s].spec_is_empty() { 0int } else { 1int })
            == slot_count(t) + (if p.spec_is_empty() { 0int } else { 1int }),
    decreases t.len(),
{
    let u = t.update(s, p);
    if s == t.len() - 1 {
        assert(u.drop_last() =~= t.drop_last());
    } else {
        assert(u.drop_last() =~= t.drop_last().update(s, p));
        lemma_slot_count_update(t.drop_last(), s, p);
    }
}

pub proof fn lemma_slot_count_le(t: Seq<Pos>)
    ensures
        slot_count(t) <= t.len(),
    decreases t.len(),
{
    if t.len() > 0 {
        lemma_slot_count_le(t.drop_last());
    }
}

/// A table whose slots are all occupied has as many occupied slots as slots.
pub proof fn lemma_slot_count_full(t: Seq<Pos>)
    requires
        forall|i: int| 0 <= i < t.len() ==> !(#[trigger] t[i]).spec_is_empty(),
    ensures
        slot_count(t) == t.len(),
    decreases t.len(),
{
    if t.len() > 0 {
        lemma_slot_count_full(t.drop_last());
    }
}

pub proof fn lemma_slot_count_empty(n: nat)
    ensures
        slot_count(Seq::new(n, |i: int| Pos::spec_empty())) == 0,
    decreases n,
{
    if n > 0 {
        assert(Seq::new(n, |i: int| Pos::spec_empty()).drop_last() =~= Seq::new(
            (n - 1) as nat,
            |i: int| Pos::spec_empty(),
        ));
        lemma_slot_count_empty((n - 1) as nat);
    }
}

pub proof fn lemma_slot_weight_empty(n: nat, values: Seq<Seq<Seq<u8>>>)
    ensures
        slot_weight(Seq::new(n, |i: int| Pos::spec_empty()), values) == 0,
    decreases n,
{
    if n > 0 {
        assert(Seq::new(n, |i: int| Pos::spec_empty()).drop_last() =~= Seq::new(
            (n - 1) as nat,
            |i: int| Pos::spec_empty(),
        ));
        lemma_slot_weight_empty((n - 1) as nat, values);
    }
}

pub proof fn lemma_slot_weight_update(t: Seq<Pos>, values: Seq<Seq<Seq<u8>>>, s: int, p: Pos)
    requires
        0 <= s < t.len(),
    ensures
        slot_weight(t.update(s, p), values) + pos_weight(t[s], values) == slot_weight(t, values)
            + pos_weight(p, values),
    decreases t.len(),
{
    let u = t.update(s, p);
    if s == t.len() - 1 {
        assert(u.drop_last() =~= t.drop_last());
    } else {
        assert(u.drop_last() =~= t.drop_last().update(s, p));
        lemma_slot_weight_update(t.drop_last(), values, s, p);
    }
}

/// When the values change so that only the slot `s` weighs differently, the
/// table's weight changes by that slot's difference.
pub proof fn lemma_slot_weight_values(t: Seq<Pos>, v1: Seq<Seq<Seq<u8>>>, v2: Seq<Seq<Seq<u8>>>, s: int)
    requires
        forall|k: int| 0 <= k < t.len() && k != s ==> pos_weight(#[trigger] t[k], v1) == pos_weight(t[k], v2),
    ensures
        0 <= s < t.len() ==> slot_weight(t, v2) + pos_weight(t[s], v1) == slot_weight(t, v1) + pos_weight(t[s], v2),
        !(0 <= s < t.len()) ==> slot_weight(t, v2) == slot_weight(t, v1),
    decreases t.len(),
{
    if t.len() > 0 {
        lemma_slot_weight_values(t.drop_last(), v1, v2, s);
        assert(t.drop_last().len() == t.len() - 1);
        if s != t.len() - 1 {
            assert(pos_weight(t[t.len() - 1], v1) == pos_weight(t[t.len() - 1], v2));
        }
    }
}

} // verus!

verus! {

/// Why a header map refused to store a value.
#[derive(Clone, Copy, PartialEq, Eq, Structural, Debug)]
pub enum HeaderMapErrors {
    /// Growing the table would pass `MAX_CAPACITY`.
    MaxCapacityReached,
    /// No free slot for a new name was found close enough to its ideal slot.
    ProbeLimitExceeded,
}

impl HeaderMapErrors {
    /// The error's message.
    pub fn to_string(&self) -> (s: String)
        ensures
            *self == HeaderMapErrors::MaxCapacityReached ==> s@ == "HeaderMap has reached max capacity"@,
            *self == HeaderMapErrors::ProbeLimitExceeded ==> s@ == "Map probing limit exceeded"@,
    {
        match self {
            HeaderMapErrors::MaxCapacityReached => "HeaderMap has reached max capacity".to_owned(),
            HeaderMapErrors::ProbeLimitExceeded => "Map probing limit exceeded".to_owned(),
        }
    }
}

/// A node of the vector-backed linked list holding the extra values of a header.
struct ExtraValue {
    value: Vec<u8>,
    next: Option<usize>,
    prev: Option<usize>,
}

/// The first and last node of a header's list of extra values.
#[derive(Clone, Copy)]
struct Link {
    head: usize,
    tail: usize,
}

/// A header name, its first value, and the link to its extra values.
struct Bucket {
    key: Vec<u8>,
    value: Vec<u8>,
    overflow: Option<Link>,
    overflow_count: usize,
}

/// The abstract state of a header map.
pub struct MapModel {
    /// `capacity - 1` while the table is allocated.
    pub mask: u16,
    /// The number of names stored (the `len`).
    pub size: nat,
    /// The number of slots of the table (0 before the first store).
    pub capacity: nat,
    /// The number of values stored.
    pub values_count: nat,
    /// The slot table.
    pub table: Seq<Pos>,
    /// The name of every bucket, in the order the buckets were created.
    pub keys: Seq<Seq<u8>>,
    /// The values of every bucket: its first value, then its extra values in order.
    pub values: Seq<Seq<Seq<u8>>>,
}

/// The structural invariant of the abstract state.
pub open spec fn model_wf(m: MapModel) -> bool {
    &&& m.capacity == 0 || valid_capacity(m.capacity)
    &&& m.capacity == 0 ==> m.size == 0 && m.values_count == 0 && m.mask == 0
    &&& m.keys.len() == m.values.len()
    &&& m.keys.len() <= usize::MAX
    &&& forall|i: int| 0 <= i < m.values.len() ==> (#[trigger] m.values[i]).len() >= 1
    &&& m.capacity > 0 ==> {
        &&& m.table.len() == m.capacity
        &&& m.mask == m.capacity - 1
        &&& 5 * m.size <= m.capacity + 4
        &&& forall|s: int|
            0 <= s < m.table.len() && !(#[trigger] m.table[s]).spec_is_empty() ==> m.table[s].index
                < m.keys.len()
        &&& forall|a: int, b: int|
            0 <= a < m.table.len() && 0 <= b < m.table.len() && a != b && !(
            #[trigger] m.table[a]).spec_is_empty() && !(#[trigger] m.table[b]).spec_is_empty()
                ==> m.table[a].index != m.table[b].index
        &&& slot_count(m.table) == m.size
        &&& slot_weight(m.table, m.values) == m.values_count
        &&& findable(m.table, m.mask)
    }
}

/// A multi-map from header names to one or more header values.
pub struct HeaderMap {
    mask: u16,
    size: usize,
    capacity: usize,
    values_count: usize,
    indices: Vec<Pos>,
    entries: Vec<Bucket>,
    extra_values: Vec<ExtraValue>,
    /// For every bucket, the nodes of its list of extra values, in order.
    chains: Ghost<Seq<Seq<int>>>,
}

impl View for HeaderMap {
    type V = MapModel;

    closed spec fn view(&self) -> MapModel {
        MapModel {
            mask: self.mask,
            size: self.size as nat,
            capacity: self.capacity as nat,
            values_count: self.values_count as nat,
            table: self.indices@,
            keys: Seq::new(self.entries@.len(), |i: int| self.entries@[i].key@),
            values: Seq::new(self.entries@.len(), |i: int| self.bucket_values(i)),
        }
    }
}

impl Default for HeaderMap {
    fn default() -> (m: HeaderMap)
        ensures
            m.wf(),
            m@.size == 0,
            m@.capacity == 0,
            m@.values_count == 0,
            m@.table.len() == 0,
            m@.keys.len() == 0,
    {
        HeaderMap::new()
    }
}

impl HeaderMap {
    /// The values of bucket `i`: its first value followed by its extra values.
    closed spec fn bucket_values(&self, i: int) -> Seq<Seq<u8>> {
        seq![self.entries@[i].value@] + self.chains@[i].map_values(
            |e: int| self.extra_values@[e].value@,
        )
    }

    /// The invariant of the lists of extra values.
    closed spec fn chains_wf(&self) -> bool {
        let chains = self.chains@;
        let entries = self.entries@;
        let extras = self.extra_values@;
        &&& chains.len() == entries.len()
        &&& forall|i: int|
            0 <= i < entries.len() ==> (#[trigger] chains[i]).len() == entries[i].overflow_count
        &&& forall|i: int|
            0 <= i < entries.len() ==> ((#[trigger] entries[i]).overflow is None <==> chains[i].len()
                == 0)
        &&& forall|i: int|
            0 <= i < entries.len() && (#[trigger] entries[i]).overflow is Some ==> {
                &&& entries[i].overflow->0.head == chains[i][0]
                &&& entries[i].overflow->0.tail == chains[i].last()
            }
        &&& forall|i: int, k: int|
            0 <= i < chains.len() && 0 <= k < chains[i].len() ==> 0 <= #[trigger] chains[i][k]
                < extras.len()
        &&& forall|i: int, k: int|
            0 <= i < chains.len() && 0 <= k < chains[i].len() - 1 ==> extras[#[trigger] chains[i][k]].next
                == Some(chains[i][k + 1] as usize)
        &&& forall|i: int|
            0 <= i < chains.len() && (#[trigger] chains[i]).len() > 0 ==> extras[chains[i].last()].next
                is None
        &&& forall|e: int|
            0 <= e < extras.len() && (#[trigger] extras[e]).next is Some ==> e < extras[e].next->0
                < extras.len()
        &&& forall|i: int, j: int, a: int, b: int|
            0 <= i < chains.len() && 0 <= j < chains.len() && 0 <= a < chains[i].len() && 0 <= b
                < chains[j].len() && #[trigger] chains[i][a] == #[trigger] chains[j][b] ==> i == j && a
                == b
    }

    /// The invariant of a header map.
    pub closed spec fn wf(&self) -> bool {
        &&& model_wf(self@)
        &&& self.chains_wf()
        &&& self.size == self@.size
        &&& self.capacity == self@.capacity
    }

    /// The model of a well-formed map is well formed, so the laws stated over
    /// models apply to it.
    pub proof fn lemma_wf_model(&self)
        requires
            self.wf(),
        ensures
            model_wf(self@),
    {
    }

    /// An empty map; its table is allocated on the first store.
    pub fn new() -> (m: HeaderMap)
        ensures
            m.wf(),
            m@.size == 0,
            m@.capacity == 0,
            m@.values_count == 0,
            m@.mask == 0,
            m@.table.len() == 0,
            m@.keys.len() == 0,
    {
        HeaderMap {
            mask: 0,
            size: 0,
            capacity: 0,
            values_count: 0,
            indices: Vec::new(),
            entries: Vec::new(),
            extra_values: Vec::new(),
            chains: Ghost(Seq::empty()),
        }
    }

    /// The number of names stored.
    pub fn len(&self) -> (n: usize)
        ensures
            n == self@.size,
    {
        self.size
    }

    /// The number of slots of the table.
    pub fn capacity(&self) -> (n: usize)
        ensures
            n == self@.capacity,
    {
        self.capacity
    }

    /// The number of values stored.
    pub fn values_count(&self) -> (n: usize)
        ensures
            n == self@.values_count,
    {
        self.values_count
    }

    /// Whether no name is stored.
    pub fn is_empty(&self) -> (b: bool)
        ensures
            b == (self@.size == 0),
    {
        self.size == 0
    }

    /// Probes the table for `hash` from its ideal slot.
    fn find(&self, hash: u64) -> (r: Probe)
        requires
            self.wf(),
            self@.capacity > 0,
        ensures
            r == probe(self@.table, self@.mask, hash),
    {
        let n = self.indices.len();
        let mut slot = ideal_pos(hash, self.mask);
        let mut distance: usize = 0;
        while distance < n
            invariant
                n == self@.table.len(),
                self@.mask == n - 1,
                slot <= self.mask,
                distance <= n,
                probe(self@.table, self@.mask, hash) == probe_from(
                    self@.table,
                    self@.mask,
                    hash,
                    slot,
                    distance,
                ),
            decreases n - distance,
        {
            if self.indices[slot].is_free() {
                return Probe::Vacant { slot, distance };
            }
            if !self.indices[slot].is_empty() && self.indices[slot].hash == hash {
                return Probe::Found { slot, distance };
            }
            let m: usize = self.mask as usize;
            assert(((slot + 1) as usize) & m <= m) by (bit_vector);
            slot = (slot + 1) & m;
            distance = distance + 1;
        }
        Probe::Exceeded
    }

    /// Walks from the ideal slot of `hash` to the first slot holding no name.
    fn find_open(&self, hash: u64) -> (r: Option<(usize, usize)>)
        requires
            self.wf(),
            self@.capacity > 0,
        ensures
            r == open_slot(self@.table, self@.mask, hash),
    {
        let n = self.indices.len();
        let mut slot = ideal_pos(hash, self.mask);
        let mut distance: usize = 0;
        while distance < n
            invariant
                n == self@.table.len(),
                self@.mask == n - 1,
                slot <= self.mask,
                distance <= n,
                open_slot(self@.table, self@.mask, hash) == open_from(self@.table, self@.mask, slot, distance),
            decreases n - distance,
        {
            if self.indices[slot].is_empty() {
                return Some((slot, distance));
            }
            let m: usize = self.mask as usize;
            assert(((slot + 1) as usize) & m <= m) by (bit_vector);
            slot = (slot + 1) & m;
            distance = distance + 1;
        }
        None
    }
}

} // verus!

verus! {

/// The bytes an optional borrowed slice holds.
pub open spec fn opt_bytes(o: Option<&[u8]>) -> Option<Seq<u8>> {
    match o {
        Some(v) => Some(v@),
        None => None,
    }
}

/// The first value of the name with hash `h`, as `get` finds it.
pub open spec fn spec_get(m: MapModel, h: u64) -> Option<Seq<u8>> {
    if m.size == 0 {
        None
    } else {
        match probe(m.table, m.mask, h) {
            Probe::Found { slot, .. } => Some(m.values[m.table[slot as int].index as int][0]),
            _ => None,
        }
    }
}

impl HeaderMap {
    proof fn lemma_view_facts(&self)
        requires
            self.wf(),
        ensures
            self@.keys.len() == self.entries@.len(),
            self@.values.len() == self.entries@.len(),
            forall|i: int|
                0 <= i < self.entries@.len() ==> (#[trigger] self@.values[i])[0]
                    == self.entries@[i].value@,
            forall|i: int|
                0 <= i < self.entries@.len() ==> (#[trigger] self@.values[i]).len() == 1
                    + self.entries@[i].overflow_count,
            forall|i: int| 0 <= i < self.entries@.len() ==> #[trigger] self@.keys[i] == self.entries@[i].key@,
    {
        assert forall|i: int| 0 <= i < self.entries@.len() implies (#[trigger] self@.values[i])[0]
            == self.entries@[i].value@ && self@.values[i].len() == 1 + self.entries@[i].overflow_count by {
            assert(self@.values[i] == self.bucket_values(i));
        }
    }

    /// The first value of `key`, if the probe finds its hash.
    pub fn get(&self, key: &[u8]) -> (r: Option<&[u8]>)
        requires
            self.wf(),
        ensures
            opt_bytes(r) == spec_get(self@, key_hash(key@)),
    {
        if self.size == 0 {
            return None;
        }
        let hash = hash_of(key);
        proof {
            self.lemma_view_facts();
        }
        let r = self.find(hash);
        proof {
            lemma_probe_from_facts(self@.table, self@.mask, hash, spec_ideal_pos(hash, self@.mask), 0);
        }
        match r {
            Probe::Found { slot, .. } => {
                let idx = self.indices[slot].index;
                Some(self.entries[idx].value.as_slice())
            },
            _ => None,
        }
    }
}

} // verus!

verus! {

/// A table of `n` empty slots.
pub open spec fn empty_table(n: nat) -> Seq<Pos> {
    Seq::new(n, |i: int| Pos::spec_empty())
}

/// The first empty slot of `t` from `slot` on, `d` steps into an unbounded linear
/// probe (wrapping at the end of the table).
pub open spec fn probe_empty(t: Seq<Pos>, mask: u16, slot: usize, d: nat) -> usize
    decreases t.len() - d,
{
    if d >= t.len() || slot >= t.len() {
        slot
    } else if t[slot as int].spec_is_empty() {
        slot
    } else {
        probe_empty(t, mask, next_slot(slot, mask), d + 1)
    }
}

/// `t` with `p` stored in the first empty slot from its ideal slot on.
pub open spec fn place(t: Seq<Pos>, mask: u16, p: Pos) -> Seq<Pos> {
    let u = probe_empty(t, mask, spec_ideal_pos(p.hash, mask), 0);
    if u < t.len() {
        t.update(u as int, p)
    } else {
        t
    }
}

/// The table of `n` slots built by placing the occupied slots among the first
/// `k` slots of `old`, in slot order.
pub open spec fn rehash_prefix(old: Seq<Pos>, mask: u16, n: nat, k: nat) -> Seq<Pos>
    decreases k,
{
    if k == 0 {
        empty_table(n)
    } else {
        let t = rehash_prefix(old, mask, n, (k - 1) as nat);
        if k - 1 < old.len() && !old[k - 1].spec_is_empty() {
            place(t, mask, old[k - 1])
        } else {
            t
        }
    }
}

/// The state after making room for one more name: the table is allocated with
/// `INITIAL_CAPACITY` slots on first use; it is kept while fewer than a fifth of
/// its slots are taken by names; otherwise it doubles (if that stays within
/// `MAX_CAPACITY`) and every occupied slot is placed anew.
pub open spec fn spec_grow(m: MapModel) -> Result<MapModel, HeaderMapErrors> {
    if m.capacity == 0 {
        Ok(MapModel { capacity: 16, mask: 15, table: empty_table(16), ..m })
    } else if 5 * m.size < m.capacity {
        Ok(m)
    } else if 2 * m.capacity > MAX_CAPACITY {
        Err(HeaderMapErrors::MaxCapacityReached)
    } else {
        let n: nat = 2 * m.capacity;
        let mask = (n - 1) as u16;
        Ok(MapModel { capacity: n, mask, table: rehash_prefix(m.table, mask, n, m.table.len()), ..m })
    }
}

/// Makes a table of `n` empty slots.
fn empty_slots(n: usize) -> (t: Vec<Pos>)
    ensures
        t@ == empty_table(n as nat),
{
    let mut t: Vec<Pos> = Vec::new();
    while t.len() < n
        invariant
            t@.len() <= n,
            forall|i: int| 0 <= i < t@.len() ==> #[trigger] t@[i] == Pos::spec_empty(),
        decreases n - t@.len(),
    {
        t.push(Pos::empty());
    }
    assert(t@ =~= empty_table(n as nat));
    t
}

/// The slot `e` steps after `start` in a table of `n` slots.
pub open spec fn wrap_slot(start: int, e: int, n: int) -> int {
    (start + e) % n
}

/// Walks from `start` to the first empty slot of a table that has one.
fn probe_empty_slot(table: &Vec<Pos>, mask: u16, start: usize) -> (s: usize)
    requires
        valid_capacity(table@.len()),
        mask == table@.len() - 1,
        start < table@.len(),
        slot_count(table@) < table@.len(),
    ensures
        s == probe_empty(table@, mask, start, 0),
        s < table@.len(),
        table@[s as int].spec_is_empty(),
{
    let ghost n = table@.len();
    let mut probe = start;
    let ghost mut d: nat = 0;
    while !table[probe].is_empty()
        invariant
            n == table@.len(),
            valid_capacity(n),
            mask == n - 1,
            start < n,
            slot_count(table@) < n,
            d < n,
            probe < n,
            probe == (start + d) % (n as int),
            probe_empty(table@, mask, start, 0) == probe_empty(table@, mask, probe, d),
            forall|e: nat| e < d ==> !table@[#[trigger] wrap_slot(start as int, e as int, n as int)].spec_is_empty(),
        decreases n - d,
    {
        proof {
            lemma_next_slot(probe, n);
            vstd::arithmetic::div_mod::lemma_add_mod_noop(start + d, 1, n as int);
            vstd::arithmetic::div_mod::lemma_small_mod(1, n);
            if d + 1 == n {
                assert forall|k: int| 0 <= k < n implies !(#[trigger] table@[k]).spec_is_empty() by {
                    let e = (k - start) % (n as int);
                    vstd::arithmetic::div_mod::lemma_add_mod_noop(start as int, k - start, n as int);
                    vstd::arithmetic::div_mod::lemma_small_mod(start as nat, n);
                    vstd::arithmetic::div_mod::lemma_small_mod(k as nat, n);
                    if e < d {
                        assert(!table@[wrap_slot(start as int, e, n as int)].spec_is_empty());
                    }
                }
                lemma_slot_count_full(table@);
            }
        }
        probe = (probe + 1) & (mask as usize);
        proof {
            d = d + 1;
        }
    }
    probe
}

} // verus!

verus! {

pub proof fn lemma_slot_count_take(t: Seq<Pos>, k: int)
    requires
        0 <= k < t.len(),
    ensures
        slot_count(t.take(k + 1)) == slot_count(t.take(k)) + if t[k].spec_is_empty() { 0nat } else { 1nat },
{
    assert(t.take(k + 1).drop_last() =~= t.take(k));
}

pub proof fn lemma_slot_weight_take(t: Seq<Pos>, values: Seq<Seq<Seq<u8>>>, k: int)
    requires
        0 <= k < t.len(),
    ensures
        slot_weight(t.take(k + 1), values) == slot_weight(t.take(k), values) + pos_weight(t[k], values),
{
    assert(t.take(k + 1).drop_last() =~= t.take(k));
}

pub proof fn lemma_slot_count_prefix_le(t: Seq<Pos>, k: int)
    requires
        0 <= k <= t.len(),
    ensures
        slot_count(t.take(k)) <= slot_count(t),
    decreases t.len() - k,
{
    if k < t.len() {
        lemma_slot_count_take(t, k);
        lemma_slot_count_prefix_le(t, k + 1);
    } else {
        assert(t.take(k) =~= t);
    }
}

impl HeaderMap {
    /// Doubles the table to `new_cap` slots and places every occupied slot anew,
    /// unless that passes `MAX_CAPACITY`.
    fn try_grow(&mut self, new_cap: usize) -> (r: Result<(), HeaderMapErrors>)
        requires
            old(self).wf(),
            old(self)@.capacity > 0,
            new_cap == 2 * old(self)@.capacity,
        ensures
            final(self).wf(),
            new_cap > MAX_CAPACITY ==> r == Err::<(), HeaderMapErrors>(
                HeaderMapErrors::MaxCapacityReached,
            ) && final(self)@ == old(self)@,
            new_cap <= MAX_CAPACITY ==> r is Ok && final(self)@ == (MapModel {
                capacity: new_cap as nat,
                mask: (new_cap - 1) as u16,
                table: rehash_prefix(
                    old(self)@.table,
                    (new_cap - 1) as u16,
                    new_cap as nat,
                    old(self)@.table.len(),
                ),
                ..old(self)@
            }),
    {
        if new_cap > MAX_CAPACITY {
            return Err(HeaderMapErrors::MaxCapacityReached);
        }
        let ghost m0 = self@;
        let mask: u16 = (new_cap - 1) as u16;
        self.mask = mask;
        let mut new_indices = empty_slots(new_cap);
        let ghost old_t = m0.table;
        proof {
            lemma_slot_count_le(old_t);
        }
        let mut idx: usize = 0;
        while idx < self.indices.len()
            invariant
                self.indices@ == old_t,
                model_wf(m0),
                m0.capacity > 0,
                m0.table == old_t,
                slot_count(old_t) < new_cap,
                valid_capacity(new_cap as nat),
                mask == new_cap - 1,
                new_cap == 2 * m0.capacity,
                idx <= old_t.len(),
                new_indices@ == rehash_prefix(old_t, mask, new_cap as nat, idx as nat),
            decreases old_t.len() - idx,
        {
            let pos = self.indices[idx];
            if pos.is_empty() {
                idx = idx + 1;
                continue;
            }
            proof {
                lemma_rehash_facts(old_t, m0.values, m0.keys.len(), mask, new_cap as nat, idx as nat);
                lemma_slot_count_take(old_t, idx as int);
                lemma_slot_count_prefix_le(old_t, idx + 1);
                lemma_ideal_in_range(pos.hash, new_cap as nat);
            }
            let start = ideal_pos(pos.hash, mask);
            let probe = probe_empty_slot(&new_indices, mask, start);
            new_indices[probe] = pos;
            idx = idx + 1;
        }
        proof {
            lemma_rehash_facts(old_t, m0.values, m0.keys.len(), mask, new_cap as nat, old_t.len());
            lemma_rehash_finds(old_t, m0.mask, mask, new_cap as nat, old_t.len());
            reveal(rehash_inv);
            assert(old_t.take(old_t.len() as int) =~= old_t);
        }
        self.indices = new_indices;
        self.capacity = new_cap;
        proof {
            assert(self@.keys =~= old(self)@.keys);
            assert(self@.values =~= old(self)@.values);
        }
        Ok(())
    }

    /// Makes room for one more name (see `spec_grow`).
    ///
    /// The table grows once `len / capacity` reaches a fifth. Capacities are
    /// powers of two up to 32768, so the quotient of two such integers is exact
    /// and compares below a fifth exactly when `5 * len < capacity`.
    fn ensure_capacity(&mut self) -> (r: Result<(), HeaderMapErrors>)
        requires
            old(self).wf(),
        ensures
            final(self).wf(),
            match spec_grow(old(self)@) {
                Ok(g) => r is Ok && final(self)@ == g,
                Err(e) => r == Err::<(), HeaderMapErrors>(e) && final(self)@ == old(self)@,
            },
    {
        if self.capacity == 0 {
            self.capacity = INITIAL_CAPACITY;
            self.indices = empty_slots(INITIAL_CAPACITY);
            self.mask = (INITIAL_CAPACITY - 1) as u16;
            proof {
                lemma_slot_count_empty(16);
                lemma_slot_weight_empty(16, self@.values);
                assert(self@.keys =~= old(self)@.keys);
                assert(self@.values =~= old(self)@.values);
            }
            return Ok(());
        }
        if self.size * 5 < self.capacity {
            return Ok(());
        }
        let cap = self.capacity;
        assert(cap << 1usize == cap * 2) by (bit_vector)
            requires
                cap <= 32768,
        ;
        self.try_grow(cap << 1)
    }
}

} // verus!

verus! {

/// The bytes held by an optional owned value, under a result.
pub open spec fn insert_result(r: Result<Option<Vec<u8>>, HeaderMapErrors>) -> Result<Option<Seq<u8>>, HeaderMapErrors> {
    match r {
        Ok(Some(v)) => Ok(Some(v@)),
        Ok(None) => Ok(None),
        Err(e) => Err(e),
    }
}

/// `m` with a new bucket for `key` holding `value` alone, stored in the empty slot `slot`.
pub open spec fn add_bucket(m: MapModel, slot: usize, h: u64, key: Seq<u8>, value: Seq<u8>) -> MapModel {
    MapModel {
        size: m.size + 1,
        values_count: m.values_count + 1,
        table: m.table.update(slot as int, Pos { hash: h, index: m.keys.len() as usize }),
        keys: m.keys.push(key),
        values: m.values.push(seq![value]),
        ..m
    }
}

/// The slot a new name with hash `h` is stored in: the first slot on its path
/// that holds no name (free, or left by a removed name), provided the taken
/// slots passed on the way all lie within `MAX_PROBE_DISTANCE` steps of the
/// ideal slot.
pub open spec fn new_slot(t: Seq<Pos>, mask: u16, h: u64) -> Option<usize> {
    match open_slot(t, mask, h) {
        Some((slot, distance)) => if distance <= MAX_PROBE_DISTANCE + 1 {
            Some(slot)
        } else {
            None
        },
        None => None,
    }
}

/// The effect of `insert(key, value)` on a map, where `h` is the hash of `key`:
/// after making room, a slot holding `h` has its bucket replaced by one with
/// `key` and `value` alone, and the previous first value is returned; otherwise
/// the name is new and its bucket goes to `new_slot`, the first slot on its path
/// that holds no name; without one close enough, the store fails with
/// `ProbeLimitExceeded`.
pub open spec fn spec_insert(m: MapModel, h: u64, key: Seq<u8>, value: Seq<u8>) -> (MapModel, Result<Option<Seq<u8>>, HeaderMapErrors>) {
    match spec_grow(m) {
        Err(e) => (m, Err(e)),
        Ok(g) => match probe(g.table, g.mask, h) {
            Probe::Exceeded | Probe::Vacant { .. } => match new_slot(g.table, g.mask, h) {
                Some(slot) => (add_bucket(g, slot, h, key, value), Ok(None)),
                None => (g, Err(HeaderMapErrors::ProbeLimitExceeded)),
            },
            Probe::Found { slot, .. } => {
                let i = g.table[slot as int].index as int;
                (
                    MapModel {
                        values_count: (g.values_count - (g.values[i].len() - 1)) as nat,
                        keys: g.keys.update(i, key),
                        values: g.values.update(i, seq![value]),
                        ..g
                    },
                    Ok(Some(g.values[i][0])),
                )
            },
        },
    }
}

/// Growing keeps a well-formed map well formed and leaves room for one more name.
pub proof fn lemma_grow_room(m: MapModel)
    requires
        model_wf(m),
    ensures
        spec_grow(m) matches Ok(g) ==> g.capacity > 0 && 5 * g.size < g.capacity && g.size == m.size
            && g.keys == m.keys && g.values == m.values && g.values_count == m.values_count,
{
}

/// A table weighs at least as much as any one of its slots.
pub proof fn lemma_slot_weight_ge(t: Seq<Pos>, values: Seq<Seq<Seq<u8>>>, s: int)
    requires
        0 <= s < t.len(),
    ensures
        slot_weight(t, values) >= pos_weight(t[s], values),
{
    lemma_slot_weight_update(t, values, s, Pos::spec_empty());
}

impl HeaderMap {
    /// Stores `value` as the only value of `key`, replacing the bucket of any
    /// name with the same hash and returning its first value.
    pub fn insert(&mut self, key: Vec<u8>, value: Vec<u8>) -> (r: Result<Option<Vec<u8>>, HeaderMapErrors>)
        requires
            old(self).wf(),
            old(self)@.values_count < usize::MAX,
        ensures
            final(self).wf(),
            (final(self)@, insert_result(r)) == spec_insert(old(self)@, key_hash(key@), key@, value@),
    {
        proof {
            lemma_grow_room(self@);
        }
        match self.ensure_capacity() {
            Ok(()) => {},
            Err(e) => {
                return Err(e);
            },
        }
        let ghost g = self@;
        let hash = hash_of(key.as_slice());
        proof {
            lemma_ideal_in_range(hash, g.capacity);
        }
        let r = self.find(hash);
        proof {
            lemma_probe_from_facts(g.table, g.mask, hash, spec_ideal_pos(hash, g.mask), 0);
            self.lemma_view_facts();
        }
        match r {
            Probe::Exceeded | Probe::Vacant { .. } => match self.find_open(hash) {
                Some((slot, distance)) => {
                    if distance > MAX_PROBE_DISTANCE + 1 {
                        return Err(HeaderMapErrors::ProbeLimitExceeded);
                    }
                    self.add_new_bucket(slot, hash, key, value);
                    Ok(None)
                },
                None => Err(HeaderMapErrors::ProbeLimitExceeded),
            },
            Probe::Found { slot, .. } => {
                let pos = self.indices[slot];
                let idx = pos.index;
                let mut new_bucket = Bucket { key, value, overflow: None, overflow_count: 0 };
                let oc = self.entries[idx].overflow_count;
                proof {
                    lemma_slot_weight_ge(g.table, g.values, slot as int);
                }
                self.values_count = self.values_count - oc;
                std::mem::swap(&mut self.entries[idx], &mut new_bucket);
                self.chains = Ghost(self.chains@.update(idx as int, Seq::empty()));
                proof {
                    let v2 = self@.values;
                    assert forall|i: int| 0 <= i < v2.len() implies #[trigger] v2[i] == g.values.update(idx as int, seq![value@])[i] by {
                        assert(v2[i] == self.bucket_values(i));
                        if i == idx {
                            assert(self.bucket_values(i) =~= seq![value@]);
                        }
                    }
                    assert(v2 =~= g.values.update(idx as int, seq![value@]));
                    assert(self@.keys =~= g.keys.update(idx as int, key@));
                    assert forall|k: int| 0 <= k < g.table.len() && k != slot implies pos_weight(#[trigger] g.table[k], g.values) == pos_weight(g.table[k], v2) by {
                        if !g.table[k].spec_is_empty() {
                            assert(g.table[k].index != g.table[slot as int].index);
                        }
                    }
                    lemma_slot_weight_values(g.table, g.values, v2, slot as int);
                }
                Ok(Some(new_bucket.value))
            },
        }
    }

    /// Stores a new bucket for `key` holding `value` alone in the empty slot `slot`.
    fn add_new_bucket(&mut self, slot: usize, hash: u64, key: Vec<u8>, value: Vec<u8>)
        requires
            old(self).wf(),
            old(self)@.capacity > 0,
            5 * old(self)@.size < old(self)@.capacity,
            old(self)@.values_count < usize::MAX,
            hash != POS_HASH_EMPTY,
            !(probe(old(self)@.table, old(self)@.mask, hash) is Found),
            open_slot(old(self)@.table, old(self)@.mask, hash) matches Some((s, _)) && s == slot,
        ensures
            final(self).wf(),
            final(self)@ == add_bucket(old(self)@, slot, hash, key@, value@),
    {
        let ghost g = self@;
        proof {
            self.lemma_view_facts();
            lemma_open_from_facts(g.table, g.mask, spec_ideal_pos(hash, g.mask), 0);
        }
        let n = self.entries.len();
        let p = Pos::new(hash, n);
        proof {
            lemma_fill_open_findable(g.table, g.mask, p);
            lemma_slot_count_update(g.table, slot as int, p);
            lemma_slot_weight_update(g.table, g.values.push(seq![value@]), slot as int, p);
            lemma_slot_weight_values(g.table, g.values, g.values.push(seq![value@]), -1);
        }
        self.indices[slot] = p;
        self.entries.push(Bucket { key, value, overflow: None, overflow_count: 0 });
        self.chains = Ghost(self.chains@.push(Seq::empty()));
        self.size = self.size + 1;
        self.values_count = self.values_count + 1;
        proof {
            vstd::std_specs::vec::axiom_spec_len(&self.entries);
            let v2 = self@.values;
            let gv = g.values.push(seq![value@]);
            assert forall|i: int| 0 <= i < v2.len() implies #[trigger] v2[i] == gv[i] by {
                assert(v2[i] == self.bucket_values(i));
                if i == n {
                    assert(self.bucket_values(i) =~= seq![value@]);
                }
            }
            assert(v2 =~= gv);
            assert(self@.keys =~= g.keys.push(key@));
        }
    }
}

} // verus!

verus! {

/// The effect of `append(key, value)` on a map, where `h` is the hash of `key`:
/// as `insert`, except that a bucket already holding `h` keeps its name and
/// values and gets `value` added after them.
pub open spec fn spec_append(m: MapModel, h: u64, key: Seq<u8>, value: Seq<u8>) -> (MapModel, Result<(), HeaderMapErrors>) {
    match spec_grow(m) {
        Err(e) => (m, Err(e)),
        Ok(g) => match probe(g.table, g.mask, h) {
            Probe::Exceeded | Probe::Vacant { .. } => match new_slot(g.table, g.mask, h) {
                Some(slot) => (add_bucket(g, slot, h, key, value), Ok(())),
                None => (g, Err(HeaderMapErrors::ProbeLimitExceeded)),
            },
            Probe::Found { slot, .. } => {
                let i = g.table[slot as int].index as int;
                (
                    MapModel {
                        values_count: g.values_count + 1,
                        values: g.values.update(i, g.values[i].push(value)),
                        ..g
                    },
                    Ok(()),
                )
            },
        },
    }
}

impl HeaderMap {
    /// Adds `value` after the values of `key`, or stores `key` with `value` alone
    /// if no name with the same hash is found.
    pub fn append(&mut self, key: Vec<u8>, value: Vec<u8>) -> (r: Result<(), HeaderMapErrors>)
        requires
            old(self).wf(),
            old(self)@.values_count < usize::MAX,
        ensures
            final(self).wf(),
            (final(self)@, r) == spec_append(old(self)@, key_hash(key@), key@, value@),
    {
        proof {
            lemma_grow_room(self@);
        }
        match self.ensure_capacity() {
            Ok(()) => {},
            Err(e) => {
                return Err(e);
            },
        }
        let ghost g = self@;
        let hash = hash_of(key.as_slice());
        proof {
            lemma_ideal_in_range(hash, g.capacity);
        }
        let r = self.find(hash);
        proof {
            lemma_probe_from_facts(g.table, g.mask, hash, spec_ideal_pos(hash, g.mask), 0);
            self.lemma_view_facts();
        }
        match r {
            Probe::Exceeded | Probe::Vacant { .. } => match self.find_open(hash) {
                Some((slot, distance)) => {
                    if distance > MAX_PROBE_DISTANCE + 1 {
                        return Err(HeaderMapErrors::ProbeLimitExceeded);
                    }
                    self.add_new_bucket(slot, hash, key, value);
                    Ok(())
                },
                None => Err(HeaderMapErrors::ProbeLimitExceeded),
            },
            Probe::Found { slot, .. } => {
                let pos = self.indices[slot];
                self.add_extra_value(slot, pos.index, value);
                Ok(())
            },
        }
    }

    /// Adds `value` at the end of the list of extra values of bucket `idx`,
    /// which the occupied slot `slot` points at.
    #[verifier::spinoff_prover]
    #[verifier::rlimit(40)]
    fn add_extra_value(&mut self, slot: usize, idx: usize, value: Vec<u8>)
        requires
            old(self).wf(),
            old(self)@.capacity > 0,
            old(self)@.values_count < usize::MAX,
            slot < old(self)@.table.len(),
            !old(self)@.table[slot as int].spec_is_empty(),
            old(self)@.table[slot as int].index == idx,
        ensures
            final(self).wf(),
            final(self)@ == (MapModel {
                values_count: old(self)@.values_count + 1,
                values: old(self)@.values.update(idx as int, old(self)@.values[idx as int].push(value@)),
                ..old(self)@
            }),
    {
        let ghost g = self@;
        let ghost chains0 = self.chains@;
        let ghost extras0 = self.extra_values@;
        proof {
            self.lemma_view_facts();
            lemma_slot_weight_ge(g.table, g.values, slot as int);
        }
        let n = self.extra_values.len();
        let mut new_extra = ExtraValue { value, next: None, prev: None };
        let new_link = match self.entries[idx].overflow {
            Some(link) => {
                new_extra.prev = Some(link.tail);
                self.extra_values[link.tail].next = Some(n);
                Link { head: link.head, tail: n }
            },
            None => Link { head: n, tail: n },
        };
        self.extra_values.push(new_extra);
        self.values_count = self.values_count + 1;
        self.entries[idx].overflow_count = self.entries[idx].overflow_count + 1;
        self.entries[idx].overflow = Some(new_link);
        self.chains = Ghost(chains0.update(idx as int, chains0[idx as int].push(n as int)));
        proof {
            let extras1 = self.extra_values@;
            let chains1 = self.chains@;
            assert forall|e: int| 0 <= e < n implies (#[trigger] extras1[e]).value == extras0[e].value by {}
            assert forall|j: int, b: int|
                0 <= j < chains0.len() && 0 <= b < chains0[j].len() && (j != idx || b < chains0[j].len() - 1)
                implies extras1[#[trigger] chains0[j][b]].next == extras0[chains0[j][b]].next by {
                if chains0[idx as int].len() > 0 {
                    let t = chains0[idx as int].len() - 1;
                    assert(chains0[idx as int][t] == chains0[idx as int].last());
                    if chains0[j][b] == chains0[idx as int][t] {
                        assert(j == idx && b == t);
                    }
                }
            }
            assert(self.chains_wf());
            let v2 = self@.values;
            let gv = g.values.update(idx as int, g.values[idx as int].push(value@));
            assert forall|i: int| 0 <= i < v2.len() implies #[trigger] v2[i] == gv[i] by {
                assert(v2[i] == self.bucket_values(i));
                assert(g.values[i] == seq![self.entries@[i].value@] + chains0[i].map_values(
                    |e: int| extras0[e].value@,
                ));
                if i == idx {
                    assert(self.bucket_values(i) =~= gv[i]);
                } else {
                    assert(self.bucket_values(i) =~= gv[i]);
                }
            }
            assert(v2 =~= gv);
            assert(self@.keys =~= g.keys);
            assert forall|k: int| 0 <= k < g.table.len() && k != slot implies pos_weight(#[trigger] g.table[k], g.values) == pos_weight(g.table[k], v2) by {
                if !g.table[k].spec_is_empty() {
                    assert(g.table[k].index != g.table[slot as int].index);
                }
            }
            lemma_slot_weight_values(g.table, g.values, v2, slot as int);
        }
    }
}

} // verus!

verus! {

/// The bucket that a lookup of the hash `h` reaches: none in an empty map, else
/// the one its probe finds.
pub open spec fn spec_lookup(m: MapModel, h: u64) -> Option<int> {
    if m.size == 0 {
        None
    } else {
        match probe(m.table, m.mask, h) {
            Probe::Found { slot, .. } => Some(m.table[slot as int].index as int),
            _ => None,
        }
    }
}

/// The effect of `remove(key)` on a map, where `h` is the hash of `key`: on a
/// map with a table, the slot where the probe finds `h` is marked as removed and
/// the first value of its bucket returned; the bucket itself stays in the bucket
/// list, out of reach, and a later new name may take the slot. Otherwise nothing
/// changes and nothing is returned.
pub open spec fn spec_remove(m: MapModel, h: u64) -> (MapModel, Option<Seq<u8>>) {
    if m.capacity == 0 {
        (m, None)
    } else {
        match probe(m.table, m.mask, h) {
            Probe::Found { slot, .. } => {
                let i = m.table[slot as int].index as int;
                (
                    MapModel {
                        size: (m.size - 1) as nat,
                        values_count: (m.values_count - m.values[i].len()) as nat,
                        table: m.table.update(slot as int, Pos::spec_removed()),
                        ..m
                    },
                    Some(m.values[i][0]),
                )
            },
            _ => (m, None),
        }
    }
}

/// Whether the name with hash `h` has more than one value, as
/// `has_multiple_values` reports it.
pub open spec fn spec_has_multiple_values(m: MapModel, h: u64) -> Option<bool> {
    if m.size == 0 {
        None
    } else {
        match probe(m.table, m.mask, h) {
            Probe::Found { slot, .. } => Some(m.values[m.table[slot as int].index as int].len() > 1),
            _ => Some(false),
        }
    }
}

/// An occupied slot makes the count of occupied slots positive.
pub proof fn lemma_slot_count_pos(t: Seq<Pos>, s: int)
    requires
        0 <= s < t.len(),
        !t[s].spec_is_empty(),
    ensures
        slot_count(t) >= 1,
{
    lemma_slot_count_update(t, s, Pos::spec_empty());
}

impl HeaderMap {
    /// Removes the name `key`: its slot is marked as removed and the first value
    /// of its bucket returned. `None` when the name is not found.
    pub fn remove(&mut self, key: Vec<u8>) -> (r: Option<&[u8]>)
        requires
            old(self).wf(),
        ensures
            final(self).wf(),
            final(self)@ == spec_remove(old(self)@, key_hash(key@)).0,
            opt_bytes(r) == spec_remove(old(self)@, key_hash(key@)).1,
    {
        if self.capacity == 0 {
            return None;
        }
        let ghost g = self@;
        let hash = hash_of(key.as_slice());
        proof {
            lemma_ideal_in_range(hash, g.capacity);
            self.lemma_view_facts();
        }
        let r = self.find(hash);
        proof {
            lemma_probe_from_facts(g.table, g.mask, hash, spec_ideal_pos(hash, g.mask), 0);
        }
        match r {
            Probe::Found { slot, .. } => {
                let idx = self.indices[slot].index;
                proof {
                    lemma_slot_count_pos(g.table, slot as int);
                    lemma_slot_weight_ge(g.table, g.values, slot as int);
                    lemma_slot_count_update(g.table, slot as int, Pos::spec_removed());
                    lemma_slot_weight_update(g.table, g.values, slot as int, Pos::spec_removed());
                    lemma_mark_findable(g.table, g.mask, slot as int);
                }
                self.indices[slot] = Pos::removed();
                self.size = self.size - 1;
                self.values_count = self.values_count - (1 + self.entries[idx].overflow_count);
                proof {
                    assert(self@.keys =~= g.keys);
                    assert(self@.values =~= g.values);
                }
                Some(self.entries[idx].value.as_slice())
            },
            _ => None,
        }
    }

    /// Whether a lookup of `key` finds a value.
    pub fn contains_key(&self, key: &[u8]) -> (b: bool)
        requires
            self.wf(),
        ensures
            b == (spec_get(self@, key_hash(key@)) is Some),
    {
        self.get(key).is_some()
    }

    /// Removes every name and value and releases the table: the next store
    /// allocates a fresh one. The old slots are kept until then.
    pub fn clear(&mut self)
        requires
            old(self).wf(),
        ensures
            final(self).wf(),
            final(self)@ == (MapModel {
                mask: 0,
                size: 0,
                capacity: 0,
                values_count: 0,
                table: old(self)@.table,
                keys: Seq::empty(),
                values: Seq::empty(),
            }),
    {
        self.entries.clear();
        self.extra_values.clear();
        self.chains = Ghost(Seq::empty());
        self.size = 0;
        self.values_count = 0;
        self.capacity = 0;
        self.mask = 0;
        proof {
            assert(self@.keys =~= Seq::<Seq<u8>>::empty());
            assert(self@.values =~= Seq::<Seq<Seq<u8>>>::empty());
        }
    }

    /// Whether the name found for `key` has extra values: `Some(false)` when it
    /// is not found, `None` on an empty map.
    pub fn has_multiple_values(&self, key: &[u8]) -> (r: Option<bool>)
        requires
            self.wf(),
        ensures
            r == spec_has_multiple_values(self@, key_hash(key@)),
    {
        if self.size == 0 {
            return None;
        }
        let hash = hash_of(key);
        proof {
            self.lemma_view_facts();
        }
        let r = self.find(hash);
        proof {
            lemma_probe_from_facts(self@.table, self@.mask, hash, spec_ideal_pos(hash, self@.mask), 0);
        }
        match r {
            Probe::Found { slot, .. } => {
                let idx = self.indices[slot].index;
                Some(self.entries[idx].overflow_count > 0)
            },
            _ => Some(false),
        }
    }
}

} // verus!

verus! {

impl HeaderMap {
    /// `self` is `a` with the first value of bucket `idx` changed.
    closed spec fn value_replaced(&self, a: &HeaderMap, idx: int) -> bool {
        &&& 0 <= idx < a.entries@.len()
        &&& self.mask == a.mask
        &&& self.size == a.size
        &&& self.capacity == a.capacity
        &&& self.values_count == a.values_count
        &&& self.indices == a.indices
        &&& self.extra_values == a.extra_values
        &&& self.chains == a.chains
        &&& self.entries@.len() == a.entries@.len()
        &&& forall|j: int| 0 <= j < a.entries@.len() && j != idx ==> #[trigger] self.entries@[j] == a.entries@[j]
        &&& self.entries@[idx].key == a.entries@[idx].key
        &&& self.entries@[idx].overflow == a.entries@[idx].overflow
        &&& self.entries@[idx].overflow_count == a.entries@[idx].overflow_count
    }

    proof fn lemma_value_replaced(&self, a: &HeaderMap, idx: int)
        requires
            a.wf(),
            self.value_replaced(a, idx),
        ensures
            self.wf(),
            self@ == (MapModel {
                values: a@.values.update(idx, a@.values[idx].update(0, self.entries@[idx].value@)),
                ..a@
            }),
    {
        a.lemma_view_facts();
        let v2 = self@.values;
        let gv = a@.values.update(idx, a@.values[idx].update(0, self.entries@[idx].value@));
        assert forall|i: int| 0 <= i < v2.len() implies #[trigger] v2[i] == gv[i] by {
            assert(v2[i] == self.bucket_values(i));
            assert(a@.values[i] == a.bucket_values(i));
            assert(self.bucket_values(i) =~= gv[i]);
        }
        assert(v2 =~= gv);
        assert(self@.keys =~= a@.keys);
        if a@.capacity > 0 {
            assert forall|k: int| 0 <= k < a@.table.len() implies pos_weight(#[trigger] a@.table[k], a@.values) == pos_weight(a@.table[k], v2) by {
                if !a@.table[k].spec_is_empty() {
                    let j = a@.table[k].index as int;
                    assert(v2[j].len() == a@.values[j].len());
                }
            }
            lemma_slot_weight_values(a@.table, a@.values, v2, -1);
        }
        assert(self.chains_wf());
    }

    /// A mutable reference to the first value of `key`, if a lookup finds it.
    pub fn get_mut(&mut self, key: &[u8]) -> (r: Option<&mut Vec<u8>>)
        requires
            old(self).wf(),
        ensures
            final(self).wf(),
            match spec_lookup(old(self)@, key_hash(key@)) {
                None => r is None && final(self)@ == old(self)@,
                Some(i) => r matches Some(v) && v@ == old(self)@.values[i][0] && final(self)@ == (
                MapModel {
                    values: old(self)@.values.update(i, old(self)@.values[i].update(0, final(v)@)),
                    ..old(self)@
                }),
            },
    {
        if self.size == 0 {
            return None;
        }
        let hash = hash_of(key);
        proof {
            self.lemma_view_facts();
        }
        let r = self.find(hash);
        proof {
            lemma_probe_from_facts(self@.table, self@.mask, hash, spec_ideal_pos(hash, self@.mask), 0);
        }
        match r {
            Probe::Found { slot, .. } => {
                let idx = self.indices[slot].index;
                proof {
                    assert forall|b: HeaderMap| #![trigger b.entries@] b.value_replaced(self, idx as int) implies b.wf()
                        && b@ == (MapModel {
                        values: self@.values.update(idx as int, self@.values[idx as int].update(0, b.entries@[idx as int].value@)),
                        ..self@
                    }) by {
                        b.lemma_value_replaced(self, idx as int);
                    }
                }
                Some(&mut self.entries[idx].value)
            },
            _ => None,
        }
    }
}

} // verus!

verus! {

impl HeaderMap {
    /// The number of nodes in the list storage of extra values.
    pub closed spec fn spec_extra_count(&self) -> nat {
        self.extra_values@.len()
    }

    /// The nodes reached from node `e` by following the `next` links.
    closed spec fn walk_from(&self, e: int) -> Seq<int>
        decreases self.extra_values@.len() - e,
    {
        if 0 <= e < self.extra_values@.len() {
            match self.extra_values@[e].next {
                Some(n) => if e < n < self.extra_values@.len() {
                    seq![e] + self.walk_from(n as int)
                } else {
                    seq![e]
                },
                None => seq![e],
            }
        } else {
            Seq::empty()
        }
    }

    /// The values of the nodes reached from `start` by following the `next` links.
    pub closed spec fn walk_values(&self, start: Option<usize>) -> Seq<Seq<u8>> {
        match start {
            Some(e) => self.walk_from(e as int).map_values(|k: int| self.extra_values@[k].value@),
            None => Seq::empty(),
        }
    }

    proof fn lemma_walk_chain(&self, i: int, k: int)
        requires
            self.wf(),
            0 <= i < self.entries@.len(),
            0 <= k < self.chains@[i].len(),
        ensures
            self.walk_from(self.chains@[i][k]) == self.chains@[i].skip(k),
        decreases self.chains@[i].len() - k,
    {
        let c = self.chains@[i];
        if k == c.len() - 1 {
            assert(c.skip(k) =~= seq![c[k]]);
        } else {
            self.lemma_walk_chain(i, k + 1);
            assert(c.skip(k) =~= seq![c[k]] + c.skip(k + 1));
        }
    }

    /// The values of bucket `i` are its first value followed by the walk from the
    /// head of its list of extra values.
    proof fn lemma_bucket_walk(&self, i: int)
        requires
            self.wf(),
            0 <= i < self.entries@.len(),
        ensures
            self@.values[i] == seq![self.entries@[i].value@] + self.walk_values(
                match self.entries@[i].overflow {
                    Some(l) => Some(l.head),
                    None => None,
                },
            ),
    {
        assert(self@.values[i] == self.bucket_values(i));
        if self.chains@[i].len() > 0 {
            self.lemma_walk_chain(i, 0);
            assert(self.chains@[i].skip(0) =~= self.chains@[i]);
        }
        assert(self@.values[i] =~= seq![self.entries@[i].value@] + self.walk_values(
            match self.entries@[i].overflow {
                Some(l) => Some(l.head),
                None => None,
            },
        ));
    }

    proof fn lemma_walk_step(&self, e: usize)
        requires
            self.wf(),
            e < self.extra_values@.len(),
        ensures
            self.walk_values(Some(e)) == seq![self.extra_values@[e as int].value@] + self.walk_values(
                self.extra_values@[e as int].next,
            ),
            self.extra_values@[e as int].next matches Some(n) ==> n < self.extra_values@.len(),
    {
        let f = |k: int| self.extra_values@[k].value@;
        let ei = e as int;
        match self.extra_values@[ei].next {
            Some(n) => {
                assert(ei < n < self.extra_values@.len());
                assert(self.walk_from(ei) == seq![ei] + self.walk_from(n as int));
                assert((seq![ei] + self.walk_from(n as int)).map_values(f) =~= seq![f(ei)]
                    + self.walk_from(n as int).map_values(f));
            },
            None => {
                assert(self.walk_from(ei) == seq![ei]);
                assert(seq![ei].map_values(f) =~= seq![f(ei)]);
            },
        }
        assert(self.walk_values(Some(e)) =~= seq![self.extra_values@[ei].value@] + self.walk_values(
            self.extra_values@[ei].next));
    }
}

/// The values of one header name, in order: its first value, then its extra values.
pub struct ValueIter<'a> {
    map: &'a HeaderMap,
    head: Option<usize>,
    next: Option<usize>,
    first: Option<&'a [u8]>,
    first_complete: bool,
}

impl<'a> ValueIter<'a> {
    /// The map whose values this iterator yields.
    pub closed spec fn source(&self) -> &'a HeaderMap {
        self.map
    }

    /// The invariant of an iterator over values.
    pub closed spec fn inv(&self) -> bool {
        &&& self.map.wf()
        &&& self.head matches Some(h) ==> h < self.map.spec_extra_count()
        &&& self.next matches Some(n) ==> n < self.map.spec_extra_count()
    }

    /// The values this iterator is still to yield.
    pub closed spec fn remaining(&self) -> Seq<Seq<u8>> {
        match self.first {
            None => Seq::empty(),
            Some(f) => if !self.first_complete {
                seq![f@] + self.map.walk_values(self.head)
            } else {
                self.map.walk_values(self.next)
            },
        }
    }

    /// An iterator yielding `first` and then the extra values linked from `head`.
    pub fn new(map: &'a HeaderMap, first: Option<&'a [u8]>, head: Option<usize>) -> (it: ValueIter<'a>)
        requires
            map.wf(),
            head matches Some(h) ==> h < map.spec_extra_count(),
        ensures
            it.inv(),
            it.source() == map,
            it.remaining() == match first {
                None => Seq::empty(),
                Some(f) => seq![f@] + map.walk_values(head),
            },
    {
        ValueIter { map, head, next: None, first, first_complete: false }
    }

    /// The next value, if any is left.
    pub fn next(&mut self) -> (r: Option<&'a [u8]>)
        requires
            old(self).inv(),
        ensures
            final(self).inv(),
            final(self).source() == old(self).source(),
            match r {
                None => old(self).remaining().len() == 0 && final(self).remaining() == old(self).remaining(),
                Some(v) => old(self).remaining().len() > 0 && v@ == old(self).remaining()[0]
                    && final(self).remaining() == old(self).remaining().drop_first(),
            },
    {
        if self.first.is_none() {
            return None;
        }
        if !self.first_complete {
            self.first_complete = true;
            self.next = self.head;
            proof {
                assert(old(self).remaining().drop_first() =~= self.remaining());
            }
            return self.first;
        }
        if self.next.is_none() {
            return None;
        }
        let curr_idx = self.next.unwrap();
        let map: &'a HeaderMap = self.map;
        proof {
            map.lemma_walk_step(curr_idx);
        }
        let curr = &map.extra_values[curr_idx];
        self.next = curr.next;
        proof {
            assert(old(self).remaining().drop_first() =~= self.remaining());
        }
        Some(curr.value.as_slice())
    }
}

/// The values that `get_all` yields for the hash `h`: those of the bucket a
/// lookup reaches, or none.
pub open spec fn spec_get_all(m: MapModel, h: u64) -> Seq<Seq<u8>> {
    match spec_lookup(m, h) {
        Some(i) => m.values[i],
        None => Seq::empty(),
    }
}

impl HeaderMap {
    /// An iterator over all values of `key`.
    pub fn get_all(&self, key: &[u8]) -> (it: ValueIter<'_>)
        requires
            self.wf(),
        ensures
            it.inv(),
            it.source() == self,
            it.remaining() == spec_get_all(self@, key_hash(key@)),
    {
        if self.size == 0 {
            return ValueIter::new(self, None, None);
        }
        let hash = hash_of(key);
        proof {
            self.lemma_view_facts();
        }
        let r = self.find(hash);
        proof {
            lemma_probe_from_facts(self@.table, self@.mask, hash, spec_ideal_pos(hash, self@.mask), 0);
        }
        match r {
            Probe::Found { slot, .. } => {
                let idx = self.indices[slot].index;
                let bucket = &self.entries[idx];
                let head = match bucket.overflow {
                    Some(link) => Some(link.head),
                    None => None,
                };
                proof {
                    self.lemma_bucket_walk(idx as int);
                }
                ValueIter::new(self, Some(bucket.value.as_slice()), head)
            },
            _ => ValueIter::new(self, None, None),
        }
    }
}

} // verus!

verus! {

/// A name paired with each of its values, in order.
pub open spec fn with_name(k: Seq<u8>, vs: Seq<Seq<u8>>) -> Seq<(Seq<u8>, Seq<u8>)> {
    vs.map_values(|v: Seq<u8>| (k, v))
}

/// The pairs of a slot: the name of the bucket it points at with each of the
/// bucket's values; none for an empty slot.
pub open spec fn slot_pairs(m: MapModel, j: int) -> Seq<(Seq<u8>, Seq<u8>)> {
    if m.table[j].spec_is_empty() {
        Seq::empty()
    } else {
        let i = m.table[j].index as int;
        with_name(m.keys[i], m.values[i])
    }
}

/// The pairs of the slots from `j` to the end of the table, slot by slot.
pub open spec fn pairs_from(m: MapModel, j: int) -> Seq<(Seq<u8>, Seq<u8>)>
    decreases m.table.len() - j,
{
    if j >= m.table.len() {
        Seq::empty()
    } else {
        slot_pairs(m, j) + pairs_from(m, j + 1)
    }
}

/// The number of occupied slots from `j` to the end of the table.
pub open spec fn occupied_from(t: Seq<Pos>, j: int) -> nat
    decreases t.len() - j,
{
    if j >= t.len() {
        0
    } else {
        (if t[j].spec_is_empty() { 0nat } else { 1nat }) + occupied_from(t, j + 1)
    }
}

pub proof fn lemma_with_name_drop_first(k: Seq<u8>, vs: Seq<Seq<u8>>)
    requires
        vs.len() > 0,
    ensures
        with_name(k, vs).len() == vs.len(),
        with_name(k, vs)[0] == (k, vs[0]),
        with_name(k, vs).drop_first() == with_name(k, vs.drop_first()),
{
    assert(with_name(k, vs).drop_first() =~= with_name(k, vs.drop_first()));
}

/// Slots without a name between `a` and `j` neither add to the occupied count
/// nor to the pairs from `a` on.
pub proof fn lemma_skip_empty(m: MapModel, a: int, j: int)
    requires
        0 <= a <= j <= m.table.len(),
        forall|k: int| a <= k < j ==> (#[trigger] m.table[k]).spec_is_empty(),
    ensures
        occupied_from(m.table, a) == occupied_from(m.table, j),
        pairs_from(m, a) == pairs_from(m, j),
    decreases j - a,
{
    if a < j {
        lemma_skip_empty(m, a + 1, j);
        assert(slot_pairs(m, a) + pairs_from(m, a + 1) =~= pairs_from(m, a + 1));
    }
}

/// The pairs from slot `k` on and the values before `k` make up all values.
pub proof fn lemma_pairs_from_len(m: MapModel, k: int)
    requires
        0 <= k <= m.table.len(),
        forall|i: int| 0 <= i < m.values.len() ==> (#[trigger] m.values[i]).len() >= 1,
    ensures
        pairs_from(m, k).len() + slot_weight(m.table.take(k), m.values) == slot_weight(m.table, m.values),
    decreases m.table.len() - k,
{
    if k < m.table.len() {
        lemma_pairs_from_len(m, k + 1);
        lemma_slot_weight_take(m.table, m.values, k);
    } else {
        assert(m.table.take(k) =~= m.table);
    }
}

/// A table with an occupied slot from `a` on has one.
pub proof fn lemma_occupied_ahead(t: Seq<Pos>, a: int)
    requires
        0 <= a,
        occupied_from(t, a) > 0,
    ensures
        exists|j: int| a <= j < t.len() && !(#[trigger] t[j]).spec_is_empty(),
    decreases t.len() - a,
{
    if t[a].spec_is_empty() {
        lemma_occupied_ahead(t, a + 1);
        let j = choose|j: int| a + 1 <= j < t.len() && !(#[trigger] t[j]).spec_is_empty();
        assert(a <= j < t.len() && !t[j].spec_is_empty());
    } else {
        assert(a <= a < t.len() && !t[a].spec_is_empty());
    }
}

/// The occupied slots from `k` on and those before `k` make up all of them.
pub proof fn lemma_occupied_from_count(t: Seq<Pos>, k: int)
    requires
        0 <= k <= t.len(),
    ensures
        occupied_from(t, k) + slot_count(t.take(k)) == slot_count(t),
    decreases t.len() - k,
{
    if k < t.len() {
        lemma_occupied_from_count(t, k + 1);
        lemma_slot_count_take(t, k);
    } else {
        assert(t.take(k) =~= t);
    }
}

/// No occupied slot from `j` on: no pairs from `j` on.
pub proof fn lemma_no_pairs_ahead(m: MapModel, j: int)
    requires
        occupied_from(m.table, j) == 0,
    ensures
        pairs_from(m, j) == Seq::<(Seq<u8>, Seq<u8>)>::empty(),
    decreases m.table.len() - j,
{
    if j < m.table.len() {
        lemma_no_pairs_ahead(m, j + 1);
        assert(slot_pairs(m, j) + pairs_from(m, j + 1) =~= Seq::<(Seq<u8>, Seq<u8>)>::empty());
    }
}

/// The name and value pairs of a map, bucket by bucket in slot order.
pub struct MapIter<'a> {
    map: &'a HeaderMap,
    index: usize,
    indices_left: usize,
    value_iter: Option<ValueIter<'a>>,
}

impl<'a> MapIter<'a> {
    /// The map this iterator walks.
    pub closed spec fn source(&self) -> &'a HeaderMap {
        self.map
    }

    /// The values of the current bucket that are still to be yielded.
    pub closed spec fn pending(&self) -> Seq<Seq<u8>> {
        match self.value_iter {
            Some(vi) => vi.remaining(),
            None => Seq::empty(),
        }
    }

    /// The first slot not yet looked at for a bucket.
    pub closed spec fn scan_start(&self) -> int {
        if self.value_iter is Some {
            self.index + 1
        } else {
            self.index as int
        }
    }

    /// The pairs this iterator is still to yield: the rest of the current
    /// bucket, then every pair of the slots not yet looked at, in slot order.
    pub closed spec fn remaining_pairs(&self) -> Seq<(Seq<u8>, Seq<u8>)> {
        let m = self.map@;
        if m.capacity == 0 {
            Seq::empty()
        } else {
            let cur = match self.value_iter {
                Some(vi) => with_name(m.keys[m.table[self.index as int].index as int], vi.remaining()),
                None => Seq::empty(),
            };
            cur + pairs_from(m, self.scan_start())
        }
    }

    /// The invariant of an iterator over a map: the buckets left to start are
    /// the occupied slots not yet looked at.
    pub closed spec fn inv(&self) -> bool {
        &&& self.map.wf()
        &&& self.map@.capacity == 0 ==> self.indices_left == 0 && self.value_iter is None
        &&& self.map@.capacity > 0 ==> {
            &&& 0 <= self.scan_start() <= self.map@.table.len()
            &&& self.indices_left == occupied_from(self.map@.table, self.scan_start())
        }
        &&& self.value_iter matches Some(vi) ==> {
            &&& vi.inv()
            &&& vi.source() == self.map
            &&& self.map@.capacity > 0
            &&& self.index < self.map@.table.len()
            &&& !self.map@.table[self.index as int].spec_is_empty()
        }
    }

    /// An iterator over the pairs of `map`, from its first slot on.
    pub fn new(map: &'a HeaderMap) -> (it: MapIter<'a>)
        requires
            map.wf(),
        ensures
            it.inv(),
            it.source() == map,
            it.remaining_pairs() == all_pairs(map@),
    {
        let it = MapIter { map, index: 0, indices_left: map.size, value_iter: None };
        proof {
            if map@.capacity > 0 {
                lemma_occupied_from_count(map@.table, 0);
                assert(map@.table.take(0) =~= Seq::<Pos>::empty());
                assert(Seq::<(Seq<u8>, Seq<u8>)>::empty() + pairs_from(map@, 0) =~= pairs_from(map@, 0));
            }
        }
        it
    }

    /// The next name and value: the next value of the current bucket, or else
    /// the first value of the next occupied slot; `None` once every pair was
    /// yielded.
    pub fn next(&mut self) -> (r: Option<(&'a [u8], &'a [u8])>)
        requires
            old(self).inv(),
        ensures
            final(self).inv(),
            final(self).source() == old(self).source(),
            match r {
                None => old(self).remaining_pairs().len() == 0 && final(self).remaining_pairs()
                    == old(self).remaining_pairs(),
                Some(p) => old(self).remaining_pairs().len() > 0 && (p.0@, p.1@) == old(self).remaining_pairs()[0]
                    && final(self).remaining_pairs() == old(self).remaining_pairs().drop_first(),
            },
    {
        let map: &'a HeaderMap = self.map;
        proof {
            map.lemma_view_facts();
        }
        let value = match &mut self.value_iter {
            Some(it) => it.next(),
            None => None,
        };
        match value {
            Some(value) => {
                let pos = map.indices[self.index];
                let bucket = &map.entries[pos.index];
                proof {
                    lemma_with_name_drop_first(bucket.key@, old(self).pending());
                }
                return Some((bucket.key.as_slice(), value));
            },
            None => {},
        }
        if self.value_iter.is_some() {
            self.value_iter = None;
            self.index = self.index + 1;
        }
        proof {
            if map@.capacity > 0 {
                assert(old(self).remaining_pairs() =~= self.remaining_pairs());
            }
        }
        self.next_bucket()
    }

    /// Starts the next occupied slot, from the first slot not yet looked at,
    /// and yields its first value; `None` when no occupied slot is left.
    fn next_bucket(&mut self) -> (r: Option<(&'a [u8], &'a [u8])>)
        requires
            old(self).inv(),
            old(self).value_iter is None,
        ensures
            final(self).inv(),
            final(self).source() == old(self).source(),
            match r {
                None => old(self).remaining_pairs().len() == 0 && final(self).remaining_pairs()
                    == old(self).remaining_pairs(),
                Some(p) => old(self).remaining_pairs().len() > 0 && (p.0@, p.1@) == old(self).remaining_pairs()[0]
                    && final(self).remaining_pairs() == old(self).remaining_pairs().drop_first(),
            },
    {
        let map: &'a HeaderMap = self.map;
        proof {
            map.lemma_view_facts();
            if map@.capacity > 0 {
                assert(old(self).remaining_pairs() =~= pairs_from(map@, self.index as int));
            }
        }
        if self.indices_left == 0 {
            proof {
                if map@.capacity > 0 {
                    lemma_no_pairs_ahead(map@, self.index as int);
                }
            }
            return None;
        }
        proof {
            lemma_occupied_ahead(map@.table, self.index as int);
        }
        let ghost start = self.index;
        let ghost left0 = self.indices_left;
        while map.indices[self.index].is_empty()
            invariant
                map.wf(),
                self.map == map,
                self.value_iter is None,
                map@.capacity > 0,
                self.indices_left > 0,
                self.indices_left == left0,
                left0 == occupied_from(map@.table, start as int),
                start <= self.index < map@.table.len(),
                forall|k: int| start <= k < self.index ==> (#[trigger] map@.table[k]).spec_is_empty(),
                exists|j: int| self.index <= j < map@.table.len() && !(#[trigger] map@.table[j]).spec_is_empty(),
            decreases map@.table.len() - self.index,
        {
            self.index = self.index + 1;
        }
        proof {
            lemma_skip_empty(map@, start as int, self.index as int);
        }
        let pos = map.indices[self.index];
        let bucket = &map.entries[pos.index];
        let head = match bucket.overflow {
            Some(link) => Some(link.head),
            None => None,
        };
        proof {
            map.lemma_bucket_walk(pos.index as int);
        }
        let mut it = ValueIter::new(map, Some(bucket.value.as_slice()), head);
        let first = it.next();
        self.value_iter = Some(it);
        self.indices_left = self.indices_left - 1;
        proof {
            let m = map@;
            let i = pos.index as int;
            lemma_with_name_drop_first(m.keys[i], m.values[i]);
            assert(slot_pairs(m, self.index as int) == with_name(m.keys[i], m.values[i]));
            assert(occupied_from(m.table, self.index as int) == 1 + occupied_from(m.table, self.index + 1));
        }
        match first {
            Some(value) => Some((bucket.key.as_slice(), value)),
            None => None,
        }
    }
}

/// Every name and value pair of a map, bucket by bucket in slot order.
pub open spec fn all_pairs(m: MapModel) -> Seq<(Seq<u8>, Seq<u8>)> {
    if m.capacity == 0 {
        Seq::empty()
    } else {
        pairs_from(m, 0)
    }
}

impl HeaderMap {
    /// An iterator over all name and value pairs.
    pub fn iter(&self) -> (it: MapIter<'_>)
        requires
            self.wf(),
        ensures
            it.inv(),
            it.source() == self,
            it.remaining_pairs() == all_pairs(self@),
    {
        MapIter::new(self)
    }
}

} // verus!

verus! {

impl HeaderMap {
    /// The number of names a map can hold: a fifth of `MAX_CAPACITY`, rounded up.
    pub const MAX_SIZE: usize = 6554;
}

/// A probe that finds a hash finds it in a slot of the table holding it.
pub proof fn lemma_found_slot_facts(t: Seq<Pos>, mask: u16, h: u64)
    ensures
        found_slot(t, mask, h) matches Some(s) ==> s < t.len() && !t[s as int].spec_is_empty() && t[s as int].hash == h,
{
    reveal(found_slot);
    lemma_probe_from_facts(t, mask, h, spec_ideal_pos(h, mask), 0);
}

/// Every name in the table is found where it is stored.
pub open spec fn findable(t: Seq<Pos>, mask: u16) -> bool {
    forall|s: int| 0 <= s < t.len() && !(#[trigger] t[s]).spec_is_empty() ==> found_slot(t, mask, t[s].hash) == Some(s as usize)
}

/// Filling a free slot does not change a probe that finds its hash: the probe
/// only passes slots that are not free.
pub proof fn lemma_fill_keeps_found(t: Seq<Pos>, mask: u16, u: int, p: Pos, h: u64, slot: usize, d: usize)
    requires
        0 <= u < t.len(),
        t[u].spec_is_free(),
        probe_from(t, mask, h, slot, d) is Found,
    ensures
        probe_from(t.update(u, p), mask, h, slot, d) == probe_from(t, mask, h, slot, d),
    decreases t.len() - d,
{
    if slot < t.len() && d < t.len() && d < usize::MAX && !t[slot as int].spec_is_free() && !(
    !t[slot as int].spec_is_empty() && t[slot as int].hash == h) {
        lemma_fill_keeps_found(t, mask, u, p, h, next_slot(slot, mask), (d + 1) as usize);
    }
}

/// Storing a name with hash `h` in the free slot where a probe for `h` ended
/// makes the probe find it there.
pub proof fn lemma_fill_vacant(t: Seq<Pos>, mask: u16, p: Pos, slot: usize, d: usize)
    requires
        probe_from(t, mask, p.hash, slot, d) is Vacant,
        !p.spec_is_empty(),
    ensures
        ({
            let (vs, ve) = match probe_from(t, mask, p.hash, slot, d) {
                Probe::Vacant { slot: s, distance: e } => (s, e),
                _ => (0usize, 0usize),
            };
            probe_from(t.update(vs as int, p), mask, p.hash, slot, d) == (Probe::Found { slot: vs, distance: ve })
        }),
    decreases t.len() - d,
{
    lemma_probe_from_facts(t, mask, p.hash, slot, d);
    if slot < t.len() && d < t.len() && d < usize::MAX && !t[slot as int].spec_is_free() && !(
    !t[slot as int].spec_is_empty() && t[slot as int].hash == p.hash) {
        lemma_fill_vacant(t, mask, p, next_slot(slot, mask), (d + 1) as usize);
    }
}

/// Whether a probe for `h` goes past a slot holding `x`: it holds a removal mark
/// or a name with another hash.
pub open spec fn passes(x: Pos, h: u64) -> bool {
    !x.spec_is_free() && !(!x.spec_is_empty() && x.hash == h)
}

/// Replacing a slot that a probe for `h` goes past with another such slot does
/// not change the probe.
pub proof fn lemma_swap_passing(t: Seq<Pos>, mask: u16, f: int, q: Pos, h: u64, slot: usize, d: usize)
    requires
        0 <= f < t.len(),
        passes(t[f], h),
        passes(q, h),
    ensures
        probe_from(t.update(f, q), mask, h, slot, d) == probe_from(t, mask, h, slot, d),
    decreases t.len() - d,
{
    if slot < t.len() && d < t.len() && d < usize::MAX && !t[slot as int].spec_is_free() && !(
    !t[slot as int].spec_is_empty() && t[slot as int].hash == h) {
        lemma_swap_passing(t, mask, f, q, h, next_slot(slot, mask), (d + 1) as usize);
    }
}

/// The first slot without a name on the path from `slot`, `d` steps past the
/// ideal slot, with its distance; none if the whole table holds names.
pub open spec fn open_from(t: Seq<Pos>, mask: u16, slot: usize, d: usize) -> Option<(usize, usize)>
    decreases t.len() - d,
{
    if !(slot < t.len()) || d >= t.len() || d == usize::MAX {
        None
    } else if t[slot as int].spec_is_empty() {
        Some((slot, d))
    } else {
        open_from(t, mask, next_slot(slot, mask), (d + 1) as usize)
    }
}

/// Where a new name with hash `h` goes: the first slot from its ideal slot on
/// that holds no name, free or left by a removed name.
pub open spec fn open_slot(t: Seq<Pos>, mask: u16, h: u64) -> Option<(usize, usize)> {
    open_from(t, mask, spec_ideal_pos(h, mask), 0)
}

/// The slot `open_from` gives is in the table and holds no name.
pub proof fn lemma_open_from_facts(t: Seq<Pos>, mask: u16, slot: usize, d: usize)
    ensures
        open_from(t, mask, slot, d) matches Some((u, e)) ==> u < t.len() && t[u as int].spec_is_empty() && d <= e
            < t.len(),
    decreases t.len() - d,
{
    if slot < t.len() && d < t.len() && d < usize::MAX && !t[slot as int].spec_is_empty() {
        lemma_open_from_facts(t, mask, next_slot(slot, mask), (d + 1) as usize);
    }
}

/// A probe that does not find `h` before a free slot passes only names with
/// other hashes on its way to the first slot without a name, so storing a name
/// with hash `h` there makes the probe find it.
pub proof fn lemma_fill_open(t: Seq<Pos>, mask: u16, p: Pos, slot: usize, d: usize)
    requires
        !(probe_from(t, mask, p.hash, slot, d) is Found),
        open_from(t, mask, slot, d) is Some,
        !p.spec_is_empty(),
    ensures
        ({
            let (u, e) = open_from(t, mask, slot, d)->Some_0;
            probe_from(t.update(u as int, p), mask, p.hash, slot, d) == (Probe::Found { slot: u, distance: e })
        }),
    decreases t.len() - d,
{
    lemma_open_from_facts(t, mask, slot, d);
    if slot < t.len() && d < t.len() && d < usize::MAX && !t[slot as int].spec_is_empty() {
        lemma_fill_open(t, mask, p, next_slot(slot, mask), (d + 1) as usize);
    }
}

/// Storing `p` in the first slot without a name on the path of its hash, when
/// a lookup does not find that hash, keeps every name findable, makes `p`
/// found there, and changes no other lookup.
pub proof fn lemma_fill_open_findable(t: Seq<Pos>, mask: u16, p: Pos)
    requires
        findable(t, mask),
        t.len() <= usize::MAX,
        !p.spec_is_empty(),
        !(probe(t, mask, p.hash) is Found),
        open_slot(t, mask, p.hash) is Some,
    ensures
        ({
            let u = open_slot(t, mask, p.hash)->Some_0.0;
            let t2 = t.update(u as int, p);
            &&& 0 <= u < t.len()
            &&& t[u as int].spec_is_empty()
            &&& findable(t2, mask)
            &&& found_slot(t2, mask, p.hash) == Some(u)
            &&& forall|h: u64| h != p.hash ==> #[trigger] found_slot(t2, mask, h) == found_slot(t, mask, h)
        }),
{
    reveal(found_slot);
    let start = spec_ideal_pos(p.hash, mask);
    lemma_open_from_facts(t, mask, start, 0);
    let u = open_slot(t, mask, p.hash)->Some_0.0;
    let t2 = t.update(u as int, p);
    lemma_fill_open(t, mask, p, start, 0);
    assert forall|h: u64| h != p.hash implies #[trigger] found_slot(t2, mask, h) == found_slot(t, mask, h) by {
        let st = spec_ideal_pos(h, mask);
        if t[u as int].spec_is_free() {
            if probe(t, mask, h) is Found {
                lemma_fill_keeps_found(t, mask, u as int, p, h, st, 0);
            } else {
                lemma_probe_from_facts(t2, mask, h, st, 0);
                if probe(t2, mask, h) is Found {
                    let f = probe(t2, mask, h)->Found_slot;
                    assert(f != u);
                    assert(found_slot(t, mask, t[f as int].hash) == Some(f));
                }
            }
        } else {
            lemma_swap_passing(t, mask, u as int, p, h, st, 0);
        }
    }
    assert forall|s: int| 0 <= s < t2.len() && !(#[trigger] t2[s]).spec_is_empty() implies found_slot(t2, mask, t2[s].hash) == Some(s as usize) by {
        if s != u {
            assert(found_slot(t, mask, t[s].hash) == Some(s as usize));
            assert(t[s].hash != p.hash);
            assert(found_slot(t2, mask, t2[s].hash) == found_slot(t, mask, t[s].hash));
        }
    }
}

/// Storing `p` in the free slot where a probe for its hash ends keeps every
/// name findable, makes `p` found there, and changes no other lookup.
pub proof fn lemma_fill_findable(t: Seq<Pos>, mask: u16, p: Pos)
    requires
        findable(t, mask),
        t.len() <= usize::MAX,
        !p.spec_is_empty(),
        probe(t, mask, p.hash) is Vacant,
    ensures
        ({
            let u = probe(t, mask, p.hash)->Vacant_slot;
            let t2 = t.update(u as int, p);
            &&& 0 <= u < t.len()
            &&& t[u as int].spec_is_free()
            &&& findable(t2, mask)
            &&& found_slot(t2, mask, p.hash) == Some(u)
            &&& forall|h: u64| h != p.hash ==> #[trigger] found_slot(t2, mask, h) == found_slot(t, mask, h)
        }),
{
    reveal(found_slot);
    let start = spec_ideal_pos(p.hash, mask);
    lemma_probe_from_facts(t, mask, p.hash, start, 0);
    let u = probe(t, mask, p.hash)->Vacant_slot;
    let t2 = t.update(u as int, p);
    lemma_fill_vacant(t, mask, p, start, 0);
    assert forall|h: u64| h != p.hash implies #[trigger] found_slot(t2, mask, h) == found_slot(t, mask, h) by {
        let st = spec_ideal_pos(h, mask);
        if probe(t, mask, h) is Found {
            lemma_fill_keeps_found(t, mask, u as int, p, h, st, 0);
        } else {
            lemma_probe_from_facts(t2, mask, h, st, 0);
            if probe(t2, mask, h) is Found {
                let f = probe(t2, mask, h)->Found_slot;
                assert(f != u);
                assert(found_slot(t, mask, t[f as int].hash) == Some(f));
            }
        }
    }
    assert forall|s: int| 0 <= s < t2.len() && !(#[trigger] t2[s]).spec_is_empty() implies found_slot(t2, mask, t2[s].hash) == Some(s as usize) by {
        if s != u {
            assert(found_slot(t, mask, t[s].hash) == Some(s as usize));
            assert(t[s].hash != p.hash);
            assert(found_slot(t2, mask, t2[s].hash) == found_slot(t, mask, t[s].hash));
        }
    }
}

/// Marking the slot `f` of a name as removed keeps every other name findable,
/// makes a lookup of the removed hash find nothing, and changes no other lookup.
pub proof fn lemma_mark_findable(t: Seq<Pos>, mask: u16, f: int)
    requires
        findable(t, mask),
        t.len() <= usize::MAX,
        0 <= f < t.len(),
        !t[f].spec_is_empty(),
    ensures
        ({
            let t2 = t.update(f, Pos::spec_removed());
            &&& findable(t2, mask)
            &&& found_slot(t2, mask, t[f].hash) is None
            &&& forall|h: u64| h != t[f].hash ==> #[trigger] found_slot(t2, mask, h) == found_slot(t, mask, h)
        }),
{
    reveal(found_slot);
    let t2 = t.update(f, Pos::spec_removed());
    let hf = t[f].hash;
    assert(found_slot(t, mask, hf) == Some(f as usize));
    assert forall|h: u64| h != hf implies #[trigger] found_slot(t2, mask, h) == found_slot(t, mask, h) by {
        lemma_swap_passing(t, mask, f, Pos::spec_removed(), h, spec_ideal_pos(h, mask), 0);
    }
    lemma_probe_from_facts(t2, mask, hf, spec_ideal_pos(hf, mask), 0);
    if probe(t2, mask, hf) is Found {
        let g = probe(t2, mask, hf)->Found_slot;
        assert(g != f);
        assert(found_slot(t, mask, t[g as int].hash) == Some(g));
    }
    assert forall|s: int| 0 <= s < t2.len() && !(#[trigger] t2[s]).spec_is_empty() implies found_slot(t2, mask, t2[s].hash) == Some(s as usize) by {
        assert(s != f);
        assert(found_slot(t, mask, t[s].hash) == Some(s as usize));
        assert(t[s].hash != hf);
        assert(found_slot(t2, mask, t2[s].hash) == found_slot(t, mask, t[s].hash));
    }
}

/// An unbounded probe from `start` in a table with an empty slot ends on an
/// empty slot of the table.
pub proof fn lemma_probe_empty_facts(t: Seq<Pos>, mask: u16, start: usize, slot: usize, d: nat)
    requires
        valid_capacity(t.len()),
        mask == t.len() - 1,
        start < t.len(),
        slot_count(t) < t.len(),
        d < t.len(),
        slot == wrap_slot(start as int, d as int, t.len() as int),
        forall|e: nat| e < d ==> !t[#[trigger] wrap_slot(start as int, e as int, t.len() as int)].spec_is_empty(),
    ensures
        probe_empty(t, mask, slot, d) < t.len(),
        t[probe_empty(t, mask, slot, d) as int].spec_is_empty(),
    decreases t.len() - d,
{
    let n = t.len();
    vstd::arithmetic::div_mod::lemma_small_mod(start as nat, n);
    assert(slot < n) by {
        vstd::arithmetic::div_mod::lemma_mod_bound(start + d, n as int);
    }
    if !t[slot as int].spec_is_empty() {
        lemma_next_slot(slot, n);
        vstd::arithmetic::div_mod::lemma_add_mod_noop(start + d, 1, n as int);
        vstd::arithmetic::div_mod::lemma_small_mod(1, n);
        if d + 1 == n {
            assert forall|k: int| 0 <= k < n implies !(#[trigger] t[k]).spec_is_empty() by {
                let e = (k - start) % (n as int);
                vstd::arithmetic::div_mod::lemma_add_mod_noop(start as int, k - start, n as int);
                vstd::arithmetic::div_mod::lemma_small_mod(k as nat, n);
                if e < d {
                    assert(!t[wrap_slot(start as int, e, n as int)].spec_is_empty());
                }
            }
            lemma_slot_count_full(t);
        }
        lemma_probe_empty_facts(t, mask, start, next_slot(slot, mask), d + 1);
    }
}

/// In a table without removal marks and without a name with hash `h`, a probe
/// for `h` ends on the first empty slot from where it starts.
pub proof fn lemma_probe_vacant_empty(t: Seq<Pos>, mask: u16, h: u64, start: usize, slot: usize, d: nat)
    requires
        valid_capacity(t.len()),
        mask == t.len() - 1,
        start < t.len(),
        slot_count(t) < t.len(),
        d < t.len(),
        slot == wrap_slot(start as int, d as int, t.len() as int),
        forall|e: nat| e < d ==> !t[#[trigger] wrap_slot(start as int, e as int, t.len() as int)].spec_is_empty(),
        forall|s: int| 0 <= s < t.len() && (#[trigger] t[s]).spec_is_empty() ==> t[s].spec_is_free(),
        forall|s: int| 0 <= s < t.len() && !(#[trigger] t[s]).spec_is_empty() ==> t[s].hash != h,
    ensures
        probe_from(t, mask, h, slot, d as usize) is Vacant,
        probe_from(t, mask, h, slot, d as usize)->Vacant_slot == probe_empty(t, mask, slot, d),
    decreases t.len() - d,
{
    let n = t.len();
    vstd::arithmetic::div_mod::lemma_small_mod(start as nat, n);
    assert(slot < n) by {
        vstd::arithmetic::div_mod::lemma_mod_bound(start + d, n as int);
    }
    if !t[slot as int].spec_is_empty() {
        lemma_next_slot(slot, n);
        vstd::arithmetic::div_mod::lemma_add_mod_noop(start + d, 1, n as int);
        vstd::arithmetic::div_mod::lemma_small_mod(1, n);
        if d + 1 == n {
            assert forall|k: int| 0 <= k < n implies !(#[trigger] t[k]).spec_is_empty() by {
                let e = (k - start) % (n as int);
                vstd::arithmetic::div_mod::lemma_add_mod_noop(start as int, k - start, n as int);
                vstd::arithmetic::div_mod::lemma_small_mod(k as nat, n);
                if e < d {
                    assert(!t[wrap_slot(start as int, e, n as int)].spec_is_empty());
                }
            }
            lemma_slot_count_full(t);
        }
        lemma_probe_vacant_empty(t, mask, h, start, next_slot(slot, mask), d + 1);
    }
}

/// Placing the occupied slots of a well-formed table into a larger one keeps
/// their number and weight, and keeps bucket indices in range and distinct.
pub proof fn lemma_rehash_facts(old: Seq<Pos>, vals: Seq<Seq<Seq<u8>>>, nkeys: nat, mask: u16, n: nat, k: nat)
    requires
        valid_capacity(n),
        mask == n - 1,
        k <= old.len(),
        slot_count(old) < n,
        forall|s: int| 0 <= s < old.len() && !(#[trigger] old[s]).spec_is_empty() ==> old[s].index < nkeys,
        forall|a: int, b: int|
            0 <= a < old.len() && 0 <= b < old.len() && a != b && !(#[trigger] old[a]).spec_is_empty()
                && !(#[trigger] old[b]).spec_is_empty() ==> old[a].index != old[b].index,
    ensures
        ({
            let t = rehash_prefix(old, mask, n, k);
            &&& t.len() == n
            &&& slot_count(t) == slot_count(old.take(k as int))
            &&& slot_weight(t, vals) == slot_weight(old.take(k as int), vals)
            &&& forall|s: int| 0 <= s < n && !(#[trigger] t[s]).spec_is_empty() ==> t[s].index < nkeys
            &&& forall|a: int, b: int|
                0 <= a < n && 0 <= b < n && a != b && !(#[trigger] t[a]).spec_is_empty() && !(
                #[trigger] t[b]).spec_is_empty() ==> t[a].index != t[b].index
            &&& forall|s: int, j: int|
                0 <= s < n && k <= j < old.len() && !(#[trigger] t[s]).spec_is_empty() && !(
                #[trigger] old[j]).spec_is_empty() ==> t[s].index != old[j].index
        }),
    decreases k,
{
    if k == 0 {
        lemma_slot_count_empty(n);
        lemma_slot_weight_empty(n, vals);
        assert(old.take(0) =~= Seq::<Pos>::empty());
    } else {
        let k1 = (k - 1) as nat;
        lemma_rehash_facts(old, vals, nkeys, mask, n, k1);
        let t = rehash_prefix(old, mask, n, k1);
        lemma_slot_count_take(old, k1 as int);
        lemma_slot_weight_take(old, vals, k1 as int);
        let p = old[k1 as int];
        if !p.spec_is_empty() {
            lemma_slot_count_prefix_le(old, k as int);
            let start = spec_ideal_pos(p.hash, mask);
            lemma_ideal_in_range(p.hash, n);
            vstd::arithmetic::div_mod::lemma_small_mod(start as nat, n);
            lemma_probe_empty_facts(t, mask, start, start, 0);
            let r = probe_empty(t, mask, start, 0);
            lemma_slot_count_update(t, r as int, p);
            lemma_slot_weight_update(t, vals, r as int, p);
        }
    }
}

/// What placing the names among the first `k` slots of `old` into `t` keeps:
/// no removal mark, every name findable, every name from among those slots,
/// and each of those names found in `t`.
#[verifier::opaque]
pub open spec fn rehash_inv(old: Seq<Pos>, omask: u16, mask: u16, n: nat, k: nat, t: Seq<Pos>) -> bool {
    &&& t.len() == n
    &&& forall|s: int| 0 <= s < n && (#[trigger] t[s]).spec_is_empty() ==> t[s].spec_is_free()
    &&& findable(t, mask)
    &&& forall|s: int|
        0 <= s < n && !(#[trigger] t[s]).spec_is_empty() ==> (found_slot(old, omask, t[s].hash) matches Some(j)
            && j < k && old[j as int] == t[s])
    &&& forall|j: int|
        0 <= j < k && !(#[trigger] old[j]).spec_is_empty() ==> (found_slot(t, mask, old[j].hash) matches Some(s2)
            && t[s2 as int] == old[j])
}

/// One placement step keeps `rehash_inv`.
pub proof fn lemma_rehash_step(old: Seq<Pos>, omask: u16, mask: u16, n: nat, k1: nat, t: Seq<Pos>)
    requires
        valid_capacity(n),
        mask == n - 1,
        k1 < old.len(),
        old.len() <= usize::MAX,
        !old[k1 as int].spec_is_empty(),
        slot_count(t) < n,
        findable(old, omask),
        rehash_inv(old, omask, mask, n, k1, t),
    ensures
        rehash_inv(old, omask, mask, n, k1 + 1, place(t, mask, old[k1 as int])),
{
    reveal(rehash_inv);
    let p = old[k1 as int];
    let start = spec_ideal_pos(p.hash, mask);
    lemma_ideal_in_range(p.hash, n);
    vstd::arithmetic::div_mod::lemma_small_mod(start as nat, n);
    assert(found_slot(old, omask, p.hash) == Some(k1 as usize));
    assert forall|s: int| 0 <= s < t.len() && !(#[trigger] t[s]).spec_is_empty() implies t[s].hash != p.hash by {
        assert(found_slot(old, omask, t[s].hash) matches Some(j) && j < k1);
    }
    lemma_probe_vacant_empty(t, mask, p.hash, start, start, 0);
    let r = probe_empty(t, mask, start, 0);
    assert(probe(t, mask, p.hash) == probe_from(t, mask, p.hash, start, 0nat as usize));
    assert(probe(t, mask, p.hash)->Vacant_slot == r);
    lemma_fill_findable(t, mask, p);
    let t2 = t.update(r as int, p);
    assert(found_slot(t2, mask, p.hash) == Some(r));
    assert(t2[r as int] == p);
    assert forall|j: int| 0 <= j < k1 + 1 && !(#[trigger] old[j]).spec_is_empty() implies (found_slot(t2, mask, old[j].hash) matches Some(
            s2,
        ) && t2[s2 as int] == old[j]) by {
        if j < k1 {
            assert(found_slot(old, omask, old[j].hash) == Some(j as usize));
            assert(old[j].hash != p.hash);
            assert(found_slot(t2, mask, old[j].hash) == found_slot(t, mask, old[j].hash));
            lemma_found_slot_facts(t, mask, old[j].hash);
        }
    }
}

/// Rehashing yields a table of the new size.
pub proof fn lemma_rehash_len(old: Seq<Pos>, mask: u16, n: nat, k: nat)
    ensures
        rehash_prefix(old, mask, n, k).len() == n,
    decreases k,
{
    if k > 0 {
        lemma_rehash_len(old, mask, n, (k - 1) as nat);
    }
}

/// Placing the names of a table whose names are all findable into a larger
/// one keeps `rehash_inv`.
pub proof fn lemma_rehash_finds(old: Seq<Pos>, omask: u16, mask: u16, n: nat, k: nat)
    requires
        valid_capacity(n),
        mask == n - 1,
        k <= old.len(),
        old.len() <= usize::MAX,
        slot_count(old) < n,
        findable(old, omask),
    ensures
        rehash_inv(old, omask, mask, n, k, rehash_prefix(old, mask, n, k)),
        slot_count(rehash_prefix(old, mask, n, k)) == slot_count(old.take(k as int)),
    decreases k,
{
    if k == 0 {
        lemma_slot_count_empty(n);
        assert(old.take(0) =~= Seq::<Pos>::empty());
        reveal(rehash_inv);
        let t = empty_table(n);
        assert(t.len() == n);
        assert(forall|s: int| 0 <= s < n ==> (#[trigger] t[s]).spec_is_free());
        assert(findable(t, mask));
    } else {
        let k1 = (k - 1) as nat;
        lemma_rehash_finds(old, omask, mask, n, k1);
        let t = rehash_prefix(old, mask, n, k1);
        lemma_rehash_len(old, mask, n, k1);
        lemma_slot_count_take(old, k1 as int);
        let p = old[k1 as int];
        if !p.spec_is_empty() {
            lemma_slot_count_prefix_le(old, k as int);
            let start = spec_ideal_pos(p.hash, mask);
            lemma_ideal_in_range(p.hash, n);
            vstd::arithmetic::div_mod::lemma_small_mod(start as nat, n);
            lemma_probe_empty_facts(t, mask, start, start, 0);
            lemma_slot_count_update(t, probe_empty(t, mask, start, 0) as int, p);
            lemma_rehash_step(old, omask, mask, n, k1, t);
        } else {
            reveal(rehash_inv);
        }
    }
}

/// Growing a well-formed map yields a well-formed map with room for one more name.
pub proof fn lemma_grow_wf(m: MapModel)
    requires
        model_wf(m),
    ensures
        spec_grow(m) matches Ok(g) ==> model_wf(g) && g.capacity > 0 && 5 * g.size < g.capacity,
        spec_grow(m) matches Ok(g) ==> forall|h: u64| #[trigger] spec_lookup(g, h) == spec_lookup(m, h),
{
    if m.capacity == 0 {
        lemma_slot_count_empty(16);
        lemma_slot_weight_empty(16, m.values);
        let t = empty_table(16);
        assert(findable(t, 15));
    } else if 5 * m.size >= m.capacity && 2 * m.capacity <= MAX_CAPACITY {
        let n: nat = 2 * m.capacity;
        let mask = (n - 1) as u16;
        lemma_rehash_facts(m.table, m.values, m.keys.len(), mask, n, m.table.len());
        lemma_slot_count_le(m.table);
        lemma_rehash_finds(m.table, m.mask, mask, n, m.table.len());
        reveal(rehash_inv);
        assert(m.table.take(m.table.len() as int) =~= m.table);
        let g = spec_grow(m)->Ok_0;
        let t = g.table;
        assert forall|h: u64| #[trigger] spec_lookup(g, h) == spec_lookup(m, h) by {
            reveal(found_slot);
            lemma_probe_from_facts(m.table, m.mask, h, spec_ideal_pos(h, m.mask), 0);
            lemma_probe_from_facts(t, mask, h, spec_ideal_pos(h, mask), 0);
            if found_slot(m.table, m.mask, h) is Some {
                let f = found_slot(m.table, m.mask, h)->Some_0;
                assert(!m.table[f as int].spec_is_empty());
            } else if found_slot(t, mask, h) is Some {
                let s2 = found_slot(t, mask, h)->Some_0;
                assert(!t[s2 as int].spec_is_empty());
            }
        }
    }
}

/// Law: a map never holds more than `HeaderMap::MAX_SIZE` names.
pub proof fn law_size_bounded(m: MapModel)
    requires
        model_wf(m),
    ensures
        m.size <= HeaderMap::MAX_SIZE,
        m.capacity <= MAX_CAPACITY,
{
}

/// How a lookup reads a well-formed map: through the slot where the probe for
/// the hash finds it, which holds a name with that hash and a bucket in range.
pub proof fn lemma_lookup_found(m: MapModel, h: u64)
    requires
        model_wf(m),
        m.capacity > 0,
    ensures
        spec_lookup(m, h) == (match found_slot(m.table, m.mask, h) {
            Some(s) => Some(m.table[s as int].index as int),
            None => None::<int>,
        }),
        found_slot(m.table, m.mask, h) matches Some(s) ==> s < m.table.len() && !m.table[s as int].spec_is_empty()
            && m.table[s as int].hash == h && m.table[s as int].index < m.keys.len(),
{
    reveal(found_slot);
    lemma_probe_from_facts(m.table, m.mask, h, spec_ideal_pos(h, m.mask), 0);
    if let Some(s) = found_slot(m.table, m.mask, h) {
        lemma_slot_count_pos(m.table, s as int);
    }
}

/// Every name other than the one with hash `h` reads the same in `m2` as in `m`.
pub open spec fn others_unchanged(m: MapModel, m2: MapModel, h: u64) -> bool {
    forall|h2: u64| h2 != h ==> #[trigger] spec_get_all(m2, h2) == spec_get_all(m, h2)
}

/// Law (growth): making room keeps every name's values, the number of names
/// and the number of values.
pub proof fn law_grow_keeps_names(m: MapModel)
    requires
        model_wf(m),
    ensures
        spec_grow(m) matches Ok(g) ==> {
            &&& forall|h: u64| #[trigger] spec_get_all(g, h) == spec_get_all(m, h)
            &&& g.size == m.size
            &&& g.values_count == m.values_count
        },
{
    lemma_grow_wf(m);
    lemma_grow_room(m);
    if let Ok(g) = spec_grow(m) {
        assert forall|h: u64| #[trigger] spec_get_all(g, h) == spec_get_all(m, h) by {
            assert(spec_lookup(g, h) == spec_lookup(m, h));
        }
    }
}

/// A new bucket stored in `new_slot` holds the only value the name then has,
/// and every other name reads as before.
pub proof fn lemma_new_bucket_reads(g: MapModel, h: u64, key: Seq<u8>, value: Seq<u8>, slot: usize)
    requires
        model_wf(g),
        g.capacity > 0,
        h != POS_HASH_EMPTY,
        !(probe(g.table, g.mask, h) is Found),
        new_slot(g.table, g.mask, h) == Some(slot),
    ensures
        spec_get_all(add_bucket(g, slot, h, key, value), h) == seq![value],
        spec_lookup(add_bucket(g, slot, h, key, value), h) == Some(g.keys.len() as int),
        forall|h2: u64| h2 != h ==> #[trigger] spec_get_all(add_bucket(g, slot, h, key, value), h2) == spec_get_all(g, h2),
{
    let m2 = add_bucket(g, slot, h, key, value);
    let p = Pos { hash: h, index: g.keys.len() as usize };
    lemma_fill_open_findable(g.table, g.mask, p);
    reveal(found_slot);
    assert(m2.table == g.table.update(slot as int, p));
    assert forall|h2: u64| h2 != h implies #[trigger] spec_get_all(m2, h2) == spec_get_all(g, h2) by {
        lemma_lookup_found(g, h2);
        assert(found_slot(m2.table, g.mask, h2) == found_slot(g.table, g.mask, h2));
    }
}

/// Law (read after insert): an `insert(key, value)` that succeeds returns the
/// first value `key` had, leaves `value` as its only value, and counts one more
/// name if `key` was new; one that fails keeps both counts. Either way every
/// other name reads as before.
pub proof fn law_insert_reads_back(m: MapModel, key: Seq<u8>, value: Seq<u8>)
    requires
        model_wf(m),
    ensures
        ({
            let h = key_hash(key);
            let (m2, r) = spec_insert(m, h, key, value);
            &&& others_unchanged(m, m2, h)
            &&& r is Ok ==> {
                &&& r == Ok::<Option<Seq<u8>>, HeaderMapErrors>(spec_get(m, h))
                &&& spec_get(m2, h) == Some(value)
                &&& spec_get_all(m2, h) == seq![value]
                &&& m2.size == m.size + (if spec_get(m, h) is None { 1int } else { 0int })
                &&& m2.values_count == m.values_count + 1 - spec_get_all(m, h).len()
            }
            &&& r is Err ==> m2.size == m.size && m2.values_count == m.values_count && spec_get_all(m2, h)
                == spec_get_all(m, h)
        }),
{
    let h = key_hash(key);
    lemma_grow_wf(m);
    lemma_grow_room(m);
    law_grow_keeps_names(m);
    if let Ok(g) = spec_grow(m) {
        lemma_probe_from_facts(g.table, g.mask, h, spec_ideal_pos(h, g.mask), 0);
        lemma_lookup_found(g, h);
        assert(spec_get_all(g, h) == spec_get_all(m, h));
        assert(spec_get(g, h) == spec_get(m, h) && spec_get(m, h) == (if spec_get_all(m, h).len() > 0 { Some(spec_get_all(m, h)[0]) } else { None })) by {
            law_get_is_first_of_get_all(g, h);
            law_get_is_first_of_get_all(m, h);
        }
        let (m2, r) = spec_insert(m, h, key, value);
        match probe(g.table, g.mask, h) {
            Probe::Found { slot, .. } => {
                reveal(found_slot);
                let i = g.table[slot as int].index as int;
                assert(found_slot(g.table, g.mask, h) == Some(slot));
                lemma_slot_weight_ge(g.table, g.values, slot as int);
                assert forall|h2: u64| h2 != h implies #[trigger] spec_get_all(m2, h2) == spec_get_all(m, h2) by {
                    lemma_lookup_found(g, h2);
                    if let Some(s2) = found_slot(g.table, g.mask, h2) {
                        assert(s2 != slot);
                    }
                    assert(spec_get_all(g, h2) == spec_get_all(m, h2));
                }
            },
            _ => {
                if let Some(slot) = new_slot(g.table, g.mask, h) {
                    lemma_new_bucket_reads(g, h, key, value, slot);
                }
                assert forall|h2: u64| h2 != h implies #[trigger] spec_get_all(m2, h2) == spec_get_all(m, h2) by {
                    assert(spec_get_all(g, h2) == spec_get_all(m, h2));
                }
            },
        }
    }
}

/// Law (read after append): an `append(key, value)` that succeeds adds `value`
/// after the values `key` had, counts one more value, and one more name if
/// `key` was new; one that fails keeps both counts. Either way every other name
/// reads as before.
pub proof fn law_append_reads_back(m: MapModel, key: Seq<u8>, value: Seq<u8>)
    requires
        model_wf(m),
    ensures
        ({
            let h = key_hash(key);
            let (m2, r) = spec_append(m, h, key, value);
            &&& others_unchanged(m, m2, h)
            &&& r is Ok ==> {
                &&& spec_get_all(m2, h) == spec_get_all(m, h).push(value)
                &&& m2.size == m.size + (if spec_get(m, h) is None { 1int } else { 0int })
                &&& m2.values_count == m.values_count + 1
            }
            &&& r is Err ==> m2.size == m.size && m2.values_count == m.values_count && spec_get_all(m2, h)
                == spec_get_all(m, h)
        }),
{
    let h = key_hash(key);
    lemma_grow_wf(m);
    lemma_grow_room(m);
    law_grow_keeps_names(m);
    if let Ok(g) = spec_grow(m) {
        lemma_probe_from_facts(g.table, g.mask, h, spec_ideal_pos(h, g.mask), 0);
        lemma_lookup_found(g, h);
        assert(spec_get_all(g, h) == spec_get_all(m, h));
        assert(spec_get(g, h) == spec_get(m, h)) by {
            law_get_is_first_of_get_all(g, h);
            law_get_is_first_of_get_all(m, h);
        }
        let (m2, r) = spec_append(m, h, key, value);
        match probe(g.table, g.mask, h) {
            Probe::Found { slot, .. } => {
                reveal(found_slot);
                assert(found_slot(g.table, g.mask, h) == Some(slot));
                assert forall|h2: u64| h2 != h implies #[trigger] spec_get_all(m2, h2) == spec_get_all(m, h2) by {
                    lemma_lookup_found(g, h2);
                    if let Some(s2) = found_slot(g.table, g.mask, h2) {
                        assert(s2 != slot);
                    }
                    assert(spec_get_all(g, h2) == spec_get_all(m, h2));
                }
            },
            _ => {
                if let Some(slot) = new_slot(g.table, g.mask, h) {
                    lemma_new_bucket_reads(g, h, key, value, slot);
                }
                assert forall|h2: u64| h2 != h implies #[trigger] spec_get_all(m2, h2) == spec_get_all(m, h2) by {
                    assert(spec_get_all(g, h2) == spec_get_all(m, h2));
                }
            },
        }
    }
}

/// Law (remove): `remove(key)` returns what `get(key)` returned, after it `key`
/// has no value, one name and that name's values are no longer counted, and
/// every other name reads as before.
pub proof fn law_remove(m: MapModel, key: Seq<u8>)
    requires
        model_wf(m),
    ensures
        ({
            let h = key_hash(key);
            let (m2, r) = spec_remove(m, h);
            &&& r == spec_get(m, h)
            &&& spec_get(m2, h) is None
            &&& spec_get_all(m2, h) == Seq::<Seq<u8>>::empty()
            &&& others_unchanged(m, m2, h)
            &&& m2.size == m.size - (if r is Some { 1int } else { 0int })
            &&& m2.values_count == m.values_count - spec_get_all(m, h).len()
        }),
{
    let h = key_hash(key);
    let (m2, r) = spec_remove(m, h);
    if m.capacity > 0 {
        lemma_probe_from_facts(m.table, m.mask, h, spec_ideal_pos(h, m.mask), 0);
        lemma_lookup_found(m, h);
        reveal(found_slot);
        if let Probe::Found { slot, .. } = probe(m.table, m.mask, h) {
            let t2 = m.table.update(slot as int, Pos::spec_removed());
            lemma_mark_findable(m.table, m.mask, slot as int);
            lemma_slot_weight_ge(m.table, m.values, slot as int);
            lemma_slot_count_pos(m.table, slot as int);
            lemma_slot_count_update(m.table, slot as int, Pos::spec_removed());
            assert(m2.table == t2);
            assert(found_slot(m.table, m.mask, h) == Some(slot));
            assert forall|h2: u64| h2 != h implies #[trigger] spec_get_all(m2, h2) == spec_get_all(m, h2) by {
                lemma_lookup_found(m, h2);
                assert(found_slot(t2, m.mask, h2) == found_slot(m.table, m.mask, h2));
                if let Some(s2) = found_slot(m.table, m.mask, h2) {
                    assert(s2 != slot);
                    if m2.size == 0 {
                        lemma_slot_count_pos(t2, s2 as int);
                    }
                }
            }
        }
    }
}

/// Law (counts): `len` counts exactly the taken slots of the table, `values_count`
/// the values reachable through them, and the name in every taken slot is found
/// by a lookup of its hash, at that slot's bucket.
pub proof fn law_counts_match_names(m: MapModel)
    requires
        model_wf(m),
        m.capacity > 0,
    ensures
        m.size == slot_count(m.table),
        m.values_count == slot_weight(m.table, m.values),
        forall|s: int|
            0 <= s < m.table.len() && !(#[trigger] m.table[s]).spec_is_empty() ==> spec_lookup(m, m.table[s].hash)
                == Some(m.table[s].index as int),
{
    assert forall|s: int| 0 <= s < m.table.len() && !(#[trigger] m.table[s]).spec_is_empty() implies spec_lookup(
        m,
        m.table[s].hash,
    ) == Some(m.table[s].index as int) by {
        lemma_lookup_found(m, m.table[s].hash);
    }
}

/// Law (refusal): a store is refused with `MaxCapacityReached` exactly by a map
/// that already holds `HeaderMap::MAX_SIZE` names (its table then has
/// `MAX_CAPACITY` slots), whether or not the name is there, and then nothing
/// changes.
pub proof fn law_refused_only_when_full(m: MapModel, key: Seq<u8>, value: Seq<u8>)
    requires
        model_wf(m),
    ensures
        spec_insert(m, key_hash(key), key, value).1 == Err::<Option<Seq<u8>>, HeaderMapErrors>(HeaderMapErrors::MaxCapacityReached)
            ==> m.size >= HeaderMap::MAX_SIZE && m.capacity == MAX_CAPACITY && spec_insert(m, key_hash(key), key, value).0 == m,
        spec_append(m, key_hash(key), key, value).1 == Err::<(), HeaderMapErrors>(HeaderMapErrors::MaxCapacityReached)
            ==> m.size >= HeaderMap::MAX_SIZE && m.capacity == MAX_CAPACITY && spec_append(m, key_hash(key), key, value).0 == m,
        m.size >= HeaderMap::MAX_SIZE ==> spec_insert(m, key_hash(key), key, value).1 == Err::<Option<Seq<u8>>, HeaderMapErrors>(
            HeaderMapErrors::MaxCapacityReached,
        ) && spec_append(m, key_hash(key), key, value).1 == Err::<(), HeaderMapErrors>(HeaderMapErrors::MaxCapacityReached),
{
}

/// Law (full map): a store into a map whose table has reached `MAX_CAPACITY` and
/// holds a fifth of it in names is refused with `MaxCapacityReached` and
/// changes nothing.
pub proof fn law_full_map_refuses(m: MapModel, h: u64, key: Seq<u8>, value: Seq<u8>)
    requires
        model_wf(m),
        m.capacity == MAX_CAPACITY,
        5 * m.size >= m.capacity,
    ensures
        spec_insert(m, h, key, value) == (m, Err::<Option<Seq<u8>>, HeaderMapErrors>(HeaderMapErrors::MaxCapacityReached)),
        spec_append(m, h, key, value) == (m, Err::<(), HeaderMapErrors>(HeaderMapErrors::MaxCapacityReached)),
{
}

/// Law (first value): `get` returns the first of the values `get_all` yields,
/// and `has_multiple_values` tells whether it yields more than one.
pub proof fn law_get_is_first_of_get_all(m: MapModel, h: u64)
    requires
        model_wf(m),
    ensures
        spec_get(m, h) == (if spec_get_all(m, h).len() > 0 { Some(spec_get_all(m, h)[0]) } else { None }),
        m.size > 0 ==> spec_has_multiple_values(m, h) == Some(spec_get_all(m, h).len() > 1),
{
    let start = spec_ideal_pos(h, m.mask);
    lemma_probe_from_facts(m.table, m.mask, h, start, 0);
}

/// Law (clear): a cleared map holds no names and no values, and finds nothing.
pub proof fn law_clear(m: MapModel, t: Seq<Pos>, h: u64)
    requires
        m == (MapModel {
            mask: 0,
            size: 0,
            capacity: 0,
            values_count: 0,
            table: t,
            keys: Seq::empty(),
            values: Seq::empty(),
        }),
    ensures
        model_wf(m),
        spec_get(m, h) is None,
        spec_get_all(m, h) == Seq::<Seq<u8>>::empty(),
        spec_has_multiple_values(m, h) is None,
{
}

/// Law (write through `get_mut`): after the first value found for a hash is
/// replaced through `get_mut`, `get` returns the new value and `get_all` yields
/// it in place of the old one.
pub proof fn law_get_after_get_mut(m: MapModel, h: u64, v: Seq<u8>)
    requires
        model_wf(m),
        spec_lookup(m, h) is Some,
    ensures
        ({
            let i = spec_lookup(m, h)->Some_0;
            let m2 = MapModel { values: m.values.update(i, m.values[i].update(0, v)), ..m };
            &&& spec_get(m2, h) == Some(v)
            &&& spec_get_all(m2, h) == spec_get_all(m, h).update(0, v)
        }),
{
    let start = spec_ideal_pos(h, m.mask);
    lemma_probe_from_facts(m.table, m.mask, h, start, 0);
}

/// Law (iteration): iterating a map yields `values_count` pairs: every name
/// found in the table paired with each value `get_all` yields for it, in order,
/// bucket by bucket in slot order.
pub proof fn law_iter_yields_every_pair(m: MapModel)
    requires
        model_wf(m),
    ensures
        all_pairs(m).len() == m.values_count,
        m.capacity > 0 ==> forall|j: int|
            0 <= j < m.table.len() && !(#[trigger] m.table[j]).spec_is_empty() ==> slot_pairs(m, j) == with_name(
                m.keys[m.table[j].index as int],
                spec_get_all(m, m.table[j].hash),
            ),
{
    if m.capacity > 0 {
        lemma_pairs_from_len(m, 0);
        assert(m.table.take(0) =~= Seq::<Pos>::empty());
        assert forall|j: int|
            0 <= j < m.table.len() && !(#[trigger] m.table[j]).spec_is_empty() implies slot_pairs(m, j) == with_name(
                m.keys[m.table[j].index as int],
                spec_get_all(m, m.table[j].hash),
            ) by {
            lemma_lookup_found(m, m.table[j].hash);
        }
    }
}

/// A probe from `start` meets a slot without a name no later than any given
/// one on its path.
pub proof fn lemma_open_within(t: Seq<Pos>, mask: u16, start: usize, slot: usize, d: nat, e: nat)
    requires
        valid_capacity(t.len()),
        mask == t.len() - 1,
        start < t.len(),
        d <= e < t.len(),
        slot == wrap_slot(start as int, d as int, t.len() as int),
        t[wrap_slot(start as int, e as int, t.len() as int)].spec_is_empty(),
    ensures
        open_from(t, mask, slot, d as usize) matches Some((u, f)) && f <= e,
    decreases e - d,
{
    let n = t.len();
    assert(slot < n) by {
        vstd::arithmetic::div_mod::lemma_mod_bound(start + d, n as int);
    }
    if !t[slot as int].spec_is_empty() {
        lemma_next_slot(slot, n);
        vstd::arithmetic::div_mod::lemma_add_mod_noop(start + d, 1, n as int);
        vstd::arithmetic::div_mod::lemma_small_mod(1, n);
        lemma_open_within(t, mask, start, next_slot(slot, mask), d + 1, e);
    }
}

/// Law (a store succeeds when there is room): storing a name that `get` does
/// not find, in a map that is not refused for capacity, succeeds with `insert`
/// and with `append` whenever, in the table it is stored into, some slot at most
/// `MAX_PROBE_DISTANCE + 1` steps along its path from the ideal slot holds no
/// name, whether that slot is free or was left by a removed name.
pub proof fn law_store_succeeds_with_room(m: MapModel, key: Seq<u8>, value: Seq<u8>, e: nat)
    requires
        model_wf(m),
        spec_get(m, key_hash(key)) is None,
        spec_grow(m) is Ok,
        e <= MAX_PROBE_DISTANCE + 1,
        e < spec_grow(m)->Ok_0.table.len(),
        spec_grow(m)->Ok_0.table[wrap_slot(
            spec_ideal_pos(key_hash(key), spec_grow(m)->Ok_0.mask) as int,
            e as int,
            spec_grow(m)->Ok_0.table.len() as int,
        )].spec_is_empty(),
    ensures
        spec_insert(m, key_hash(key), key, value).1 == Ok::<Option<Seq<u8>>, HeaderMapErrors>(None),
        spec_append(m, key_hash(key), key, value).1 == Ok::<(), HeaderMapErrors>(()),
{
    let h = key_hash(key);
    let g = spec_grow(m)->Ok_0;
    lemma_grow_wf(m);
    law_grow_keeps_names(m);
    law_get_is_first_of_get_all(m, h);
    lemma_lookup_found(g, h);
    assert(spec_lookup(g, h) is None) by {
        if let Some(i) = spec_lookup(g, h) {
            assert(g.values[i].len() >= 1);
        }
    }
    reveal(found_slot);
    let start = spec_ideal_pos(h, g.mask);
    lemma_ideal_in_range(h, g.capacity);
    vstd::arithmetic::div_mod::lemma_small_mod(start as nat, g.table.len());
    lemma_open_within(g.table, g.mask, start, start, 0, e);
}

/// Law (names after a store): after a successful `insert(key, value)` a lookup
/// of `key` reaches a bucket named `key`; after a successful `append(key, value)`
/// it reaches a bucket named as before the call, or `key` if the name was new.
/// Iteration pairs every value with the name of its bucket, so these are the
/// names it yields.
pub proof fn law_stores_keep_names(m: MapModel, key: Seq<u8>, value: Seq<u8>)
    requires
        model_wf(m),
    ensures
        ({
            let h = key_hash(key);
            let (mi, ri) = spec_insert(m, h, key, value);
            ri is Ok ==> (spec_lookup(mi, h) matches Some(i) && mi.keys[i] == key)
        }),
        ({
            let h = key_hash(key);
            let (ma, ra) = spec_append(m, h, key, value);
            ra is Ok ==> (spec_lookup(ma, h) matches Some(i) && ma.keys[i] == match spec_lookup(m, h) {
                Some(j) => m.keys[j],
                None => key,
            })
        }),
{
    let h = key_hash(key);
    lemma_grow_wf(m);
    lemma_grow_room(m);
    if let Ok(g) = spec_grow(m) {
        assert(spec_lookup(g, h) == spec_lookup(m, h));
        lemma_probe_from_facts(g.table, g.mask, h, spec_ideal_pos(h, g.mask), 0);
        lemma_lookup_found(g, h);
        match probe(g.table, g.mask, h) {
            Probe::Found { slot, .. } => {
                reveal(found_slot);
                assert(found_slot(g.table, g.mask, h) == Some(slot));
                lemma_slot_count_pos(g.table, slot as int);
            },
            _ => {
                reveal(found_slot);
                assert(spec_lookup(g, h) is None);
                if let Some(slot) = new_slot(g.table, g.mask, h) {
                    lemma_new_bucket_reads(g, h, key, value, slot);
                }
            },
        }
    }
}

} // verus!
