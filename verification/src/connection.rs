//! Buffer handling between reads of a connection.

use vstd::prelude::*;

use crate::request::parser::{spec_parse, RequestParser, RequestParserError, RequestParserState};
use crate::search::{is_first_index, lacks_byte};

verus! {

/// The buffer after the first `read` of its first `buf_len` bytes were parsed:
/// the unparsed bytes moved to the front and every later byte zeroed.
pub open spec fn compacted(buf: Seq<u8>, read: int, buf_len: int) -> Seq<u8> {
    Seq::new(
        buf.len(),
        |k: int|
            if k < buf_len - read {
                buf[read + k]
            } else {
                0u8
            },
    )
}

/// Moves the bytes `read..buf_len` of `buf` to its front and zeroes the rest.
pub fn compact_buffer(buf: &mut [u8], read: usize, buf_len: usize)
    requires
        read <= buf_len <= old(buf)@.len(),
    ensures
        final(buf)@ == compacted(old(buf)@, read as int, buf_len as int),
        final(buf)@.len() == old(buf)@.len(),
        final(buf)@.subrange(0, buf_len - read) == old(buf)@.subrange(read as int, buf_len as int),
        forall|k: int| buf_len - read <= k < old(buf)@.len() ==> final(buf)@[k] == 0u8,
{
    let n = buf.len();
    let keep = buf_len - read;
    let mut k: usize = 0;
    while k < keep
        invariant
            n == buf@.len(),
            n == old(buf)@.len(),
            read <= buf_len <= n,
            keep == buf_len - read,
            k <= keep,
            forall|j: int| 0 <= j < k ==> buf@[j] == old(buf)@[read + j],
            forall|j: int| k + read <= j < n ==> buf@[j] == old(buf)@[j],
        decreases keep - k,
    {
        let b = buf[read + k];
        buf[k] = b;
        k = k + 1;
    }
    let mut j: usize = keep;
    while j < n
        invariant
            n == buf@.len(),
            n == old(buf)@.len(),
            keep <= j <= n,
            keep == buf_len - read,
            forall|i: int| 0 <= i < keep ==> buf@[i] == old(buf)@[read + i],
            forall|i: int| keep <= i < j ==> buf@[i] == 0u8,
        decreases n - j,
    {
        buf[j] = 0;
        j = j + 1;
    }
    assert(buf@ =~= compacted(old(buf)@, read as int, buf_len as int));
    proof {
        law_compaction_keeps_unread(old(buf)@, read as int, buf_len as int);
    }
}

/// Law (compaction keeps the unread bytes): compacting after `read` of the
/// first `buf_len` bytes were consumed keeps the buffer's length, puts the
/// unconsumed bytes `read..buf_len` first, in order, and zeroes the rest.
pub proof fn law_compaction_keeps_unread(buf: Seq<u8>, read: int, buf_len: int)
    requires
        0 <= read <= buf_len <= buf.len(),
    ensures
        compacted(buf, read, buf_len).len() == buf.len(),
        compacted(buf, read, buf_len).subrange(0, buf_len - read) == buf.subrange(read, buf_len),
        forall|k: int| buf_len - read <= k < buf.len() ==> compacted(buf, read, buf_len)[k] == 0u8,
{
    assert(compacted(buf, read, buf_len).subrange(0, buf_len - read) =~= buf.subrange(read, buf_len));
}

/// A byte that occurs in a sequence has a first occurrence.
pub proof fn lemma_first_index_exists(s: Seq<u8>, b: u8, j: int)
    requires
        0 <= j < s.len(),
        s[j] == b,
    ensures
        exists|i: int| #[trigger] is_first_index(s, b, i),
    decreases j,
{
    if exists|k: int| 0 <= k < j && s[k] == b {
        let k = choose|k: int| 0 <= k < j && s[k] == b;
        lemma_first_index_exists(s, b, k);
    } else {
        assert(is_first_index(s, b, j));
    }
}

/// What parsing reports as read never passes the end of the bytes parsed.
pub proof fn lemma_parse_reads_within(state: RequestParserState, buf: Seq<u8>)
    ensures
        spec_parse(state, buf).2 matches Ok(n) ==> n <= buf.len(),
{
    if !lacks_byte(buf, ('\n' as u8)) {
        let j = choose|j: int| 0 <= j < buf.len() && buf[j] == ('\n' as u8);
        lemma_first_index_exists(buf, ('\n' as u8), j);
    }
}

/// Parses the first `buf_len` bytes of `buf`, then moves the bytes the parser
/// did not read to the front of the buffer (zeroing the rest) and returns how
/// many there are. On an error the buffer is left as it is.
pub fn parse_buffered(parser: &mut RequestParser, buf: &mut [u8], buf_len: usize) -> (r: Result<usize, RequestParserError>)
    requires
        buf_len <= old(buf)@.len(),
    ensures
        ({
            let (state, line, res) = spec_parse(old(parser).spec_state(), old(buf)@.take(buf_len as int));
            &&& final(parser).spec_state() == state
            &&& final(parser).spec_request_line() == match line {
                Some(l) => Some(l),
                None => old(parser).spec_request_line(),
            }
            &&& final(parser).spec_max_body_size() == old(parser).spec_max_body_size()
            &&& final(parser).spec_headers() == old(parser).spec_headers()
            &&& match res {
                Ok(read) => read <= buf_len && r == Ok::<usize, RequestParserError>((buf_len - read) as usize)
                    && final(buf)@ == compacted(old(buf)@, read as int, buf_len as int)
                    && final(buf)@.len() == old(buf)@.len()
                    && final(buf)@.subrange(0, buf_len - read) == old(buf)@.subrange(read as int, buf_len as int),
                Err(e) => r == Err::<usize, RequestParserError>(e) && final(buf)@ == old(buf)@,
            }
        }),
{
    let res = {
        let view: &[u8] = vstd::slice::slice_subrange(buf, 0, buf_len);
        assert(view@ =~= old(buf)@.take(buf_len as int));
        parser.parse(view)
    };
    proof {
        lemma_parse_reads_within(old(parser).spec_state(), old(buf)@.take(buf_len as int));
    }
    match res {
        Ok(read) => {
            compact_buffer(buf, read, buf_len);
            Ok(buf_len - read)
        },
        Err(e) => Err(e),
    }
}

} // verus!
