//! Big-endian folding of byte slices into integers.

use vstd::prelude::*;

verus! {

/// The value of `bytes` read as a big-endian number, truncated to 32 bits:
/// every byte shifts the accumulated value left by eight bits and ORs itself in.
pub open spec fn spec_to_u32(bytes: Seq<u8>) -> u32
    decreases bytes.len(),
{
    if bytes.len() == 0 {
        0u32
    } else {
        ((spec_to_u32(bytes.drop_last()) << 8u32) | (bytes.last() as u32)) as u32
    }
}

/// The value of `bytes` read as a big-endian number, truncated to 64 bits.
pub open spec fn spec_to_u64(bytes: Seq<u8>) -> u64
    decreases bytes.len(),
{
    if bytes.len() == 0 {
        0u64
    } else {
        ((spec_to_u64(bytes.drop_last()) << 8u64) | (bytes.last() as u64)) as u64
    }
}

/// Folds `bytes` into a `u32`, most significant byte first.
pub fn to_u32(bytes: &[u8]) -> (result: u32)
    ensures
        result == spec_to_u32(bytes@),
{
    let mut result: u32 = 0;
    let mut i: usize = 0;
    while i < bytes.len()
        invariant
            i <= bytes@.len(),
            result == spec_to_u32(bytes@.take(i as int)),
        decreases bytes@.len() - i,
    {
        let byte = bytes[i];
        assert(bytes@.take(i + 1).drop_last() =~= bytes@.take(i as int));
        result = result << 8u32;
        result = result | (byte as u32);
        i = i + 1;
    }
    assert(bytes@.take(bytes@.len() as int) =~= bytes@);
    result
}

/// Folds `bytes` into a `u64`, most significant byte first.
pub fn to_u64(bytes: &[u8]) -> (result: u64)
    ensures
        result == spec_to_u64(bytes@),
{
    let mut result: u64 = 0;
    let mut i: usize = 0;
    while i < bytes.len()
        invariant
            i <= bytes@.len(),
            result == spec_to_u64(bytes@.take(i as int)),
        decreases bytes@.len() - i,
    {
        let byte = bytes[i];
        assert(bytes@.take(i + 1).drop_last() =~= bytes@.take(i as int));
        result = result << 8u64;
        result = result | (byte as u64);
        i = i + 1;
    }
    assert(bytes@.take(bytes@.len() as int) =~= bytes@);
    result
}


/// Law: four bytes fold into the big-endian number they spell.
pub proof fn law_to_u32_big_endian(b0: u8, b1: u8, b2: u8, b3: u8)
    ensures
        spec_to_u32(seq![b0, b1, b2, b3]) == b0 as int * 0x1000000 + b1 as int * 0x10000 + b2 as int * 0x100
            + b3 as int,
{
    let s = seq![b0, b1, b2, b3];
    assert(s.drop_last() =~= seq![b0, b1, b2]);
    assert(s.drop_last().drop_last() =~= seq![b0, b1]);
    assert(s.drop_last().drop_last().drop_last() =~= seq![b0]);
    assert(seq![b0].drop_last() =~= Seq::<u8>::empty());
    let x0: u32 = ((0u32 << 8u32) | (b0 as u32)) as u32;
    let x1: u32 = ((x0 << 8u32) | (b1 as u32)) as u32;
    let x2: u32 = ((x1 << 8u32) | (b2 as u32)) as u32;
    let x3: u32 = ((x2 << 8u32) | (b3 as u32)) as u32;
    assert(spec_to_u32(Seq::<u8>::empty()) == 0u32);
    assert(seq![b0].last() == b0);
    assert(spec_to_u32(seq![b0]) == x0);
    assert(spec_to_u32(seq![b0, b1]) == x1);
    assert(spec_to_u32(seq![b0, b1, b2]) == x2);
    assert(spec_to_u32(s) == x3);
    assert(x3 == b0 as u32 * 0x1000000 + b1 as u32 * 0x10000 + b2 as u32 * 0x100 + b3 as u32) by (bit_vector)
        requires
            x0 == ((0u32 << 8u32) | (b0 as u32)),
            x1 == ((x0 << 8u32) | (b1 as u32)),
            x2 == ((x1 << 8u32) | (b2 as u32)),
            x3 == ((x2 << 8u32) | (b3 as u32)),
    ;
}

} // verus!
