//! Splitting a byte stream into lines as it is read in chunks.

use vstd::prelude::*;

use crate::search::{is_first_index, lacks_byte};

verus! {

/// The lines completed and the partial line left after reading `s` with the
/// partial line `cur` pending: every `\n` completes the pending line (without
/// the `\n`) and starts an empty one; every other byte extends the pending line.
pub open spec fn feed(cur: Seq<u8>, s: Seq<u8>) -> (Seq<Seq<u8>>, Seq<u8>)
    decreases s.len(),
{
    if s.len() == 0 {
        (Seq::empty(), cur)
    } else {
        let (lines, pending) = feed(cur, s.drop_last());
        if s.last() == ('\n' as u8) {
            (lines.push(pending), Seq::empty())
        } else {
            (lines, pending.push(s.last()))
        }
    }
}

/// The lines, each followed by `\n`, one after another.
pub open spec fn join_lines(lines: Seq<Seq<u8>>) -> Seq<u8>
    decreases lines.len(),
{
    if lines.len() == 0 {
        Seq::empty()
    } else {
        join_lines(lines.drop_last()) + lines.last() + seq![('\n' as u8)]
    }
}

/// The bytes of each vector.
pub open spec fn views(v: Seq<Vec<u8>>) -> Seq<Seq<u8>> {
    v.map_values(|l: Vec<u8>| l@)
}

/// Reads `chunk` with `line` as the pending partial line: returns the lines the
/// chunk completes and leaves the new partial line in `line` (see `feed`).
pub fn split_chunk(line: &mut Vec<u8>, chunk: &[u8]) -> (lines: Vec<Vec<u8>>)
    ensures
        (views(lines@), final(line)@) == feed(old(line)@, chunk@),
{
    let mut lines: Vec<Vec<u8>> = Vec::new();
    let mut i: usize = 0;
    assert(chunk@.take(0) =~= Seq::<u8>::empty());
    while i < chunk.len()
        invariant
            i <= chunk@.len(),
            (views(lines@), line@) == feed(old(line)@, chunk@.take(i as int)),
        decreases chunk@.len() - i,
    {
        let byte = chunk[i];
        assert(chunk@.take(i + 1).drop_last() =~= chunk@.take(i as int));
        if byte == ('\n' as u8) {
            let mut done: Vec<u8> = Vec::new();
            std::mem::swap(line, &mut done);
            let ghost before = views(lines@);
            lines.push(done);
            assert(views(lines@) =~= before.push(done@));
        } else {
            line.push(byte);
        }
        i = i + 1;
    }
    assert(chunk@.take(chunk@.len() as int) =~= chunk@);
    lines
}

/// The pending line once the stream has ended: it is a last line unless empty.
pub fn finish_line(line: Vec<u8>) -> (r: Option<Vec<u8>>)
    ensures
        match r {
            Some(l) => line@.len() > 0 && l@ == line@,
            None => line@.len() == 0,
        },
{
    if line.len() == 0 {
        None
    } else {
        Some(line)
    }
}

/// The first `\n` of `buf`, found by scanning it.
fn newline_position(buf: &[u8]) -> (r: Option<usize>)
    ensures
        match r {
            Some(i) => is_first_index(buf@, ('\n' as u8), i as int),
            None => lacks_byte(buf@, ('\n' as u8)),
        },
{
    let mut i: usize = 0;
    while i < buf.len()
        invariant
            i <= buf@.len(),
            forall|j: int| 0 <= j < i ==> buf@[j] != ('\n' as u8),
        decreases buf@.len() - i,
    {
        if buf[i] == ('\n' as u8) {
            return Some(i);
        }
        i = i + 1;
    }
    None
}

/// Takes one read buffer into the pending line `line_buf`: if the buffer holds a
/// `\n`, the bytes before its first `\n` complete the line, which is returned,
/// and the bytes after it become the pending line; otherwise the whole buffer
/// extends the pending line. Later `\n`s of the same buffer stay in the pending
/// line.
pub fn take_line(line_buf: &mut Vec<u8>, in_buf: &[u8]) -> (r: Option<Vec<u8>>)
    ensures
        match r {
            Some(l) => exists|i: int| {
                &&& #[trigger] is_first_index(in_buf@, ('\n' as u8), i)
                &&& l@ == old(line_buf)@ + in_buf@.subrange(0, i)
                &&& final(line_buf)@ == in_buf@.subrange(i + 1, in_buf@.len() as int)
            },
            None => lacks_byte(in_buf@, ('\n' as u8)) && final(line_buf)@ == old(line_buf)@ + in_buf@,
        },
{
    let n = in_buf.len();
    match newline_position(in_buf) {
        Some(idx) => {
            let head = vstd::slice::slice_subrange(in_buf, 0, idx);
            let mut i: usize = 0;
            while i < head.len()
                invariant
                    i <= head@.len(),
                    line_buf@ == old(line_buf)@ + head@.take(i as int),
                decreases head@.len() - i,
            {
                line_buf.push(head[i]);
                assert(head@.take(i + 1) =~= head@.take(i as int).push(head@[i as int]));
                i = i + 1;
            }
            assert(head@.take(head@.len() as int) =~= head@);
            let tail = vstd::slice::slice_subrange(in_buf, idx + 1, n);
            let mut next_line = vstd::slice::slice_to_vec(tail);
            std::mem::swap(line_buf, &mut next_line);
            assert(is_first_index(in_buf@, ('\n' as u8), idx as int));
            Some(next_line)
        },
        None => {
            let mut i: usize = 0;
            while i < n
                invariant
                    n == in_buf@.len(),
                    i <= n,
                    line_buf@ == old(line_buf)@ + in_buf@.take(i as int),
                decreases n - i,
            {
                line_buf.push(in_buf[i]);
                assert(in_buf@.take(i + 1) =~= in_buf@.take(i as int).push(in_buf@[i as int]));
                i = i + 1;
            }
            assert(in_buf@.take(n as int) =~= in_buf@);
            None
        },
    }
}

/// Law (chunking): reading `a` and then `b` completes the same lines, and leaves
/// the same partial line, as reading `a` followed by `b` at once; how a stream is
/// cut into reads does not change its lines.
pub proof fn law_feed_chunks(cur: Seq<u8>, a: Seq<u8>, b: Seq<u8>)
    ensures
        feed(cur, a + b) == ({
            let (l1, p1) = feed(cur, a);
            let (l2, p2) = feed(p1, b);
            (l1 + l2, p2)
        }),
    decreases b.len(),
{
    if b.len() == 0 {
        assert(a + b =~= a);
        let (l1, p1) = feed(cur, a);
        assert(l1 + Seq::<Seq<u8>>::empty() =~= l1);
    } else {
        law_feed_chunks(cur, a, b.drop_last());
        assert((a + b).drop_last() =~= a + b.drop_last());
        assert((a + b).last() == b.last());
        let (l1, p1) = feed(cur, a);
        let (l2, p2) = feed(p1, b.drop_last());
        assert((l1 + l2).push(p2) =~= l1 + l2.push(p2));
    }
}

/// Law (lossless): the completed lines, each with its `\n` restored, followed by
/// the partial line, are the pending line followed by the bytes read.
pub proof fn law_feed_lossless(cur: Seq<u8>, s: Seq<u8>)
    ensures
        join_lines(feed(cur, s).0) + feed(cur, s).1 == cur + s,
    decreases s.len(),
{
    if s.len() == 0 {
        assert(Seq::<u8>::empty() + cur =~= cur + s);
    } else {
        law_feed_lossless(cur, s.drop_last());
        let (lines, pending) = feed(cur, s.drop_last());
        assert(s =~= s.drop_last().push(s.last()));
        if s.last() == ('\n' as u8) {
            assert(lines.push(pending).drop_last() =~= lines);
            assert(join_lines(lines.push(pending)) + Seq::<u8>::empty() =~= cur + s);
        } else {
            assert(join_lines(lines) + pending == cur + s.drop_last());
            assert(join_lines(lines) + pending.push(s.last()) =~= (join_lines(lines) + pending).push(s.last()));
            assert((cur + s.drop_last()).push(s.last()) =~= cur + s);
        }
    }
}

/// Law: a completed line never holds a `\n`, when the pending line held none.
pub proof fn law_lines_lack_newline(cur: Seq<u8>, s: Seq<u8>)
    requires
        lacks_byte(cur, ('\n' as u8)),
    ensures
        forall|k: int| 0 <= k < feed(cur, s).0.len() ==> lacks_byte(#[trigger] feed(cur, s).0[k], ('\n' as u8)),
        lacks_byte(feed(cur, s).1, ('\n' as u8)),
    decreases s.len(),
{
    if s.len() > 0 {
        law_lines_lack_newline(cur, s.drop_last());
    }
}

} // verus!
