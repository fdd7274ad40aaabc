//! The bounded scanner: walks a byte stream one fixed-size buffer at a time,
//! counts matches inside each buffer with the chunk matcher, and rewinds the
//! read offset after each buffer so that a match straddling two consecutive
//! buffers is re-examined rather than missed.
//!
//! The rewind rule (the boundary correction) has a deliberate limitation:
//! when a buffer contains no match at all, the correction is 0 and an
//! occurrence straddling that buffer's end is not re-examined. When the
//! buffer's counted matches reach into its final `pattern length - 1` bytes,
//! the next read resumes exactly at the end of the last counted match, so a
//! straddling occurrence is counted exactly once.

use vstd::prelude::*;

use crate::chunk::count_from;
use crate::chunk::count_matches_in_chunk;
use crate::chunk::last_match_start_from;
use crate::chunk::lemma_count_mono;
use crate::chunk::match_at;

verus! {

/// Size of the read buffer each scan iteration fills.
pub const BUFFER_SIZE: usize = 8192;

/// A counted scan from position `i` has its last match inside the scanned
/// region, at or after `i`.
pub proof fn lemma_last_match_is_match(s: Seq<u8>, p: Seq<u8>, i: int)
    requires
        p.len() >= 1,
        0 <= i,
        count_from(s, p, i) > 0,
    ensures
        match_at(s, p, last_match_start_from(s, p, i)),
        i <= last_match_start_from(s, p, i),
    decreases s.len() - i,
{
    if i >= s.len() {
    } else if match_at(s, p, i) {
        if count_from(s, p, i + p.len()) == 0 {
        } else {
            lemma_last_match_is_match(s, p, i + p.len());
        }
    } else {
        lemma_last_match_is_match(s, p, i + 1);
    }
}

/// Each counted match consumes a full pattern length, so a scan of a region
/// shorter than the pattern counts nothing, and a longer one counts at most
/// one match per remaining start position.
pub proof fn lemma_count_upper(s: Seq<u8>, p: Seq<u8>, i: int)
    requires
        p.len() >= 1,
        0 <= i,
    ensures
        i + p.len() > s.len() ==> count_from(s, p, i) == 0,
        i + p.len() <= s.len() ==> count_from(s, p, i) <= s.len() - p.len() + 1 - i,
    decreases s.len() - i,
{
    if i >= s.len() {
    } else if match_at(s, p, i) {
        lemma_count_upper(s, p, i + p.len());
    } else {
        lemma_count_upper(s, p, i + 1);
    }
}

/// End of the last counted match in the buffer `s`, or 0 when nothing matched.
pub open spec fn pos_after_last(s: Seq<u8>, p: Seq<u8>) -> int {
    if count_from(s, p, 0) > 0 {
        last_match_start_from(s, p, 0) + p.len()
    } else {
        0
    }
}

/// How far the read offset rewinds after scanning the buffer `s`: back to the
/// end of the last counted match, but never by a full pattern length (which
/// would re-count that match).
pub open spec fn boundary_correction(s: Seq<u8>, p: Seq<u8>) -> int {
    let c = s.len() - pos_after_last(s, p);
    if c >= p.len() {
        p.len() - 1
    } else {
        c
    }
}

/// The read offset for the buffer following `s`, scanned at `offset`: the end
/// of `s`, rewound by the boundary correction when `s` contained a match.
pub open spec fn next_offset(offset: int, s: Seq<u8>, p: Seq<u8>) -> int {
    if pos_after_last(s, p) > 0 {
        offset + s.len() - boundary_correction(s, p)
    } else {
        offset + s.len()
    }
}

/// Per-file scan state: the absolute read offset of the next buffer fill and
/// the cumulative match count so far.
pub struct ScanCursor {
    pub offset: u64,
    pub count: usize,
}

impl ScanCursor {
    /// A scan starts at the beginning of the stream with nothing counted.
    pub fn new() -> (r: ScanCursor)
        ensures
            r.offset == 0,
            r.count == 0,
    {
        ScanCursor { offset: 0, count: 0 }
    }

    /// One buffer iteration of the bounded scan: counts the matches in the
    /// bytes just read, advances the offset past them, rewinds it by the
    /// boundary correction, and reports whether the scan may continue
    /// (the new offset has not run past the end of the stream).
    pub fn step(&mut self, chunk: &[u8], pattern: &[u8], filesize: u64) -> (cont: bool)
        requires
            pattern@.len() >= 1,
            chunk@.len() >= 1,
            old(self).offset + chunk@.len() <= u64::MAX,
            old(self).count + chunk@.len() <= usize::MAX,
        ensures
            final(self).count == old(self).count + count_from(chunk@, pattern@, 0),
            final(self).offset == next_offset(old(self).offset as int, chunk@, pattern@),
            cont == (final(self).offset <= filesize),
    {
        let (count, last) = count_matches_in_chunk(chunk, pattern);
        proof {
            lemma_count_upper(chunk@, pattern@, 0);
            if count_from(chunk@, pattern@, 0) > 0 {
                lemma_last_match_is_match(chunk@, pattern@, 0);
            }
        }
        let pos_after_the_last_match: usize = if count > 0 {
            last + pattern.len()
        } else {
            0
        };
        self.offset = self.offset + chunk.len() as u64;
        let correction: usize = chunk.len() - pos_after_the_last_match;
        let correction: usize = if correction >= pattern.len() {
            pattern.len() - 1
        } else {
            correction
        };
        if pos_after_the_last_match > 0 {
            self.offset = self.offset - correction as u64;
        }
        self.count = self.count + count;
        self.offset <= filesize
    }
}

/// Total count of the bounded scan over `content` from read offset `offset`:
/// each iteration scans the next buffer-sized chunk and resumes at the offset
/// the boundary correction yields.
pub open spec fn chunked_count_from(content: Seq<u8>, p: Seq<u8>, offset: int) -> nat
    decreases content.len() - offset,
        via chunked_count_from_decreases
{
    if p.len() == 0 || offset < 0 || offset >= content.len() {
        0
    } else {
        let l = if content.len() - offset >= BUFFER_SIZE {
            BUFFER_SIZE as int
        } else {
            content.len() - offset
        };
        let chunk = content.subrange(offset, offset + l);
        count_from(chunk, p, 0) + chunked_count_from(content, p, next_offset(offset, chunk, p))
    }
}

#[via_fn]
proof fn chunked_count_from_decreases(content: Seq<u8>, p: Seq<u8>, offset: int) {
    if !(p.len() == 0 || offset < 0 || offset >= content.len()) {
        let l = if content.len() - offset >= BUFFER_SIZE {
            BUFFER_SIZE as int
        } else {
            content.len() - offset
        };
        let chunk = content.subrange(offset, offset + l);
        if count_from(chunk, p, 0) > 0 {
            lemma_last_match_is_match(chunk, p, 0);
        }
    }
}

/// The bounded scan from offset `off` reads only the suffix of the content:
/// its total count equals that of a scan of the suffix from offset 0.
pub proof fn lemma_chunked_count_skip(s: Seq<u8>, p: Seq<u8>, off: int)
    requires
        p.len() >= 1,
        0 <= off <= s.len(),
    ensures
        chunked_count_from(s, p, off) == chunked_count_from(s.skip(off), p, 0),
    decreases s.len() - off,
{
    let t = s.skip(off);
    if off >= s.len() {
    } else {
        let l = if s.len() - off >= BUFFER_SIZE {
            BUFFER_SIZE as int
        } else {
            s.len() - off
        };
        let chunk = s.subrange(off, off + l);
        assert(chunk =~= t.subrange(0, l));
        if count_from(chunk, p, 0) > 0 {
            lemma_last_match_is_match(chunk, p, 0);
        }
        let delta = next_offset(0, chunk, p);
        assert(1 <= delta <= l);
        assert(next_offset(off, chunk, p) == off + delta);
        lemma_chunked_count_skip(s, p, off + delta);
        lemma_chunked_count_skip(t, p, delta);
        assert(t.skip(delta) =~= s.skip(off + delta));
        assert(chunked_count_from(s, p, off) == count_from(chunk, p, 0) + chunked_count_from(
            s,
            p,
            off + delta,
        ));
        assert(chunked_count_from(t, p, 0) == count_from(chunk, p, 0) + chunked_count_from(
            t,
            p,
            delta,
        ));
    }
}

/// The matches counted inside the buffer `s[a..a + l]` from position `j` are
/// matches of the whole content, pairwise disjoint and ending before the end
/// of the last of them, so the scan of the whole content from `a + j` counts
/// at least them plus whatever follows that end.
proof fn lemma_chunk_vs_content(s: Seq<u8>, p: Seq<u8>, a: int, l: int, j: int)
    requires
        p.len() >= 1,
        0 <= a,
        0 <= j <= l,
        a + l <= s.len(),
    ensures
        count_from(s, p, a + j) >= count_from(s.subrange(a, a + l), p, j) + count_from(
            s,
            p,
            a + (if count_from(s.subrange(a, a + l), p, j) > 0 {
                last_match_start_from(s.subrange(a, a + l), p, j) + p.len()
            } else {
                j
            }),
        ),
    decreases l - j,
{
    let chunk = s.subrange(a, a + l);
    let k = p.len() as int;
    if count_from(chunk, p, j) == 0 {
    } else if match_at(chunk, p, j) {
        assert(match_at(s, p, a + j)) by {
            assert forall|q: int| 0 <= q < k implies s[a + j + q] == p[q] by {
                assert(chunk[j + q] == s[a + j + q]);
            }
        }
        lemma_chunk_vs_content(s, p, a, l, j + k);
    } else {
        lemma_count_mono(s, p, a + j, a + j + 1);
        lemma_chunk_vs_content(s, p, a, l, j + 1);
    }
}

/// The bounded scan never over-counts: every buffer's counted matches are
/// disjoint occurrences in the content, and the rewind never re-reads the
/// bytes of a counted match, so the total is at most the number of
/// non-overlapping occurrences in the whole content.
pub proof fn lemma_scan_never_overcounts(s: Seq<u8>, p: Seq<u8>, off: int)
    requires
        p.len() >= 1,
        0 <= off <= s.len(),
    ensures
        chunked_count_from(s, p, off) <= count_from(s, p, off),
    decreases s.len() - off,
{
    if off >= s.len() {
    } else {
        let k = p.len() as int;
        let l = if s.len() - off >= BUFFER_SIZE {
            BUFFER_SIZE as int
        } else {
            s.len() - off
        };
        let chunk = s.subrange(off, off + l);
        let c = count_from(chunk, p, 0);
        if c > 0 {
            lemma_last_match_is_match(chunk, p, 0);
        }
        let pa = pos_after_last(chunk, p);
        let next = next_offset(off, chunk, p);
        assert(off + pa <= next <= off + l);
        lemma_scan_never_overcounts(s, p, next);
        lemma_chunk_vs_content(s, p, off, l, 0);
        lemma_count_mono(s, p, off + pa, next);
    }
}

/// An occurrence split across two consecutive full-buffer reads is counted
/// exactly once, provided it begins where the first buffer's counted matches
/// end: the next read then resumes exactly at its first byte, so the bytes of
/// every counted match are read once and the straddling occurrence is counted
/// by the following buffer. (When the first buffer counts no match at all,
/// the correction is 0 and a straddling occurrence is not re-examined; that
/// limitation is deliberate, see the module doc.)
pub proof fn lemma_straddle_counted_once(content: Seq<u8>, p: Seq<u8>, o: int)
    requires
        1 <= p.len() <= BUFFER_SIZE,
        0 <= o,
        o + BUFFER_SIZE < content.len(),
        count_from(content.subrange(o, o + BUFFER_SIZE), p, 0) > 0,
        BUFFER_SIZE - pos_after_last(content.subrange(o, o + BUFFER_SIZE), p) < p.len(),
        match_at(content, p, o + pos_after_last(content.subrange(o, o + BUFFER_SIZE), p)),
    ensures
        next_offset(o, content.subrange(o, o + BUFFER_SIZE), p) == o + pos_after_last(
            content.subrange(o, o + BUFFER_SIZE),
            p,
        ),
        chunked_count_from(content, p, o) == count_from(content.subrange(o, o + BUFFER_SIZE), p, 0)
            + chunked_count_from(
            content,
            p,
            o + pos_after_last(content.subrange(o, o + BUFFER_SIZE), p),
        ),
        chunked_count_from(
            content,
            p,
            o + pos_after_last(content.subrange(o, o + BUFFER_SIZE), p),
        ) >= 1,
{
    let k = p.len() as int;
    let buf = content.subrange(o, o + BUFFER_SIZE);
    let pa = pos_after_last(buf, p);
    lemma_last_match_is_match(buf, p, 0);
    assert(0 < pa <= BUFFER_SIZE);
    assert(boundary_correction(buf, p) == BUFFER_SIZE - pa);
    assert(next_offset(o, buf, p) == o + pa);
    assert(chunked_count_from(content, p, o) == count_from(buf, p, 0) + chunked_count_from(
        content,
        p,
        o + pa,
    ));
    let l2 = if content.len() - (o + pa) >= BUFFER_SIZE {
        BUFFER_SIZE as int
    } else {
        content.len() - (o + pa)
    };
    let chunk2 = content.subrange(o + pa, o + pa + l2);
    assert(match_at(chunk2, p, 0)) by {
        assert(o + pa + k <= content.len());
        assert(l2 >= k);
        assert forall|j: int| 0 <= j < k implies chunk2[j] == p[j] by {
            assert(chunk2[j] == content[o + pa + j]);
        }
    }
    assert(count_from(chunk2, p, 0) >= 1);
    assert(chunked_count_from(content, p, o + pa) == count_from(chunk2, p, 0)
        + chunked_count_from(content, p, next_offset(o + pa, chunk2, p)));
}

/// Counts the non-overlapping occurrences of `pattern` across `content` the
/// way the bounded file scan does: buffer by buffer, re-seeking after each
/// buffer by the boundary correction.
pub fn count_matches_in_bytes(content: &[u8], pattern: &[u8]) -> (count: usize)
    requires
        pattern@.len() >= 1,
    ensures
        count == chunked_count_from(content@, pattern@, 0),
{
    let filesize: u64 = content.len() as u64;
    let mut cursor = ScanCursor::new();
    loop
        invariant
            pattern@.len() >= 1,
            content@.len() <= usize::MAX,
            filesize == content@.len(),
            cursor.offset <= content@.len(),
            cursor.count <= cursor.offset,
            chunked_count_from(content@, pattern@, 0) == cursor.count + chunked_count_from(
                content@,
                pattern@,
                cursor.offset as int,
            ),
        ensures
            cursor.count == chunked_count_from(content@, pattern@, 0),
        decreases content@.len() - cursor.offset,
    {
        if cursor.offset >= filesize {
            break;
        }
        let off: usize = cursor.offset as usize;
        let remaining: usize = content.len() - off;
        let l: usize = if remaining >= BUFFER_SIZE {
            BUFFER_SIZE
        } else {
            remaining
        };
        let chunk: &[u8] = &content[off..off + l];
        let cont = cursor.step(chunk, pattern, filesize);
        proof {
            assert(chunk@ =~= content@.subrange(off as int, off as int + l as int));
            lemma_count_upper(chunk@, pattern@, 0);
            if count_from(chunk@, pattern@, 0) > 0 {
                lemma_last_match_is_match(chunk@, pattern@, 0);
            }
        }
        if !cont {
            break;
        }
    }
    cursor.count
}

} // verus!
