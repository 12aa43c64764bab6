//! Finding a byte in a slice, with `memchr`.

use vstd::prelude::*;

verus! {

/// `i` is the first position of `s` holding `b`.
pub open spec fn is_first_index(s: Seq<u8>, b: u8, i: int) -> bool {
    &&& 0 <= i < s.len()
    &&& s[i] == b
    &&& forall|j: int| 0 <= j < i ==> s[j] != b
}

/// No position of `s` holds `b`.
pub open spec fn lacks_byte(s: Seq<u8>, b: u8) -> bool {
    forall|j: int| 0 <= j < s.len() ==> s[j] != b
}

/// The first position of `needle` in `haystack`, found by `memchr::memchr`,
/// which its documentation describes as the first index holding the byte, or
/// `None` when no position holds it.
#[verifier::external_body]
pub(crate) fn find_byte(needle: u8, haystack: &[u8]) -> (r: Option<usize>)
    ensures
        match r {
            Some(i) => is_first_index(haystack@, needle, i as int),
            None => lacks_byte(haystack@, needle),
        },
{
    memchr::memchr(needle, haystack)
}

} // verus!
