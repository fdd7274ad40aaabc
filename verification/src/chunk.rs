//! The chunk matcher: counts non-overlapping, left-to-right occurrences of a
//! pattern inside one byte buffer and reports where the last match started.

use vstd::prelude::*;

verus! {

/// The pattern `p` occurs in `s` at position `i`.
pub open spec fn match_at(s: Seq<u8>, p: Seq<u8>, i: int) -> bool {
    &&& 0 <= i
    &&& i + p.len() <= s.len()
    &&& forall|j: int| 0 <= j < p.len() ==> s[i + j] == p[j]
}

/// Number of non-overlapping occurrences of `p` in `s`, scanning left to right
/// from position `i`: after a match at position `q` the search resumes at
/// `q + p.len()`, otherwise it advances one byte.
pub open spec fn count_from(s: Seq<u8>, p: Seq<u8>, i: int) -> nat
    decreases s.len() - i,
{
    if p.len() == 0 || i >= s.len() {
        0
    } else if match_at(s, p, i) {
        1 + count_from(s, p, i + p.len())
    } else {
        count_from(s, p, i + 1)
    }
}

/// Start position of the last match counted by the scan from position `i`,
/// or 0 when that scan counts no match (a sentinel, not a real position).
pub open spec fn last_match_start_from(s: Seq<u8>, p: Seq<u8>, i: int) -> int
    decreases s.len() - i,
{
    if p.len() == 0 || i >= s.len() {
        0
    } else if match_at(s, p, i) {
        if count_from(s, p, i + p.len()) == 0 {
            i
        } else {
            last_match_start_from(s, p, i + p.len())
        }
    } else {
        last_match_start_from(s, p, i + 1)
    }
}

/// `chunk[at..]` starts with `pattern`.
fn starts_with_at(chunk: &[u8], pattern: &[u8], at: usize) -> (r: bool)
    requires
        at <= chunk@.len(),
    ensures
        r == match_at(chunk@, pattern@, at as int),
{
    if chunk.len() - at < pattern.len() {
        return false;
    }
    let mut j: usize = 0;
    while j < pattern.len()
        invariant
            at + pattern@.len() <= chunk@.len(),
            chunk@.len() <= usize::MAX,
            j <= pattern@.len(),
            forall|q: int| 0 <= q < j ==> chunk@[at + q] == pattern@[q],
        decreases pattern@.len() - j,
    {
        assert(at + j < chunk@.len());
        if chunk[at + j] != pattern[j] {
            return false;
        }
        j += 1;
    }
    true
}

/// Scanning from position `i` sees only the suffix of `s`: dropping the first
/// `j <= i` bytes shifts the count and the last match start by `j` and changes
/// nothing else.
pub proof fn lemma_scan_skip(s: Seq<u8>, p: Seq<u8>, j: int, i: int)
    requires
        p.len() >= 1,
        0 <= j <= i <= s.len(),
    ensures
        count_from(s, p, i) == count_from(s.skip(j), p, i - j),
        count_from(s, p, i) > 0 ==> last_match_start_from(s, p, i) == j + last_match_start_from(
            s.skip(j),
            p,
            i - j,
        ),
    decreases s.len() - i,
{
    let t = s.skip(j);
    assert(match_at(s, p, i) == match_at(t, p, i - j)) by {
        if match_at(s, p, i) {
            assert forall|q: int| 0 <= q < p.len() implies t[i - j + q] == p[q] by {
                assert(t[i - j + q] == s[i + q]);
            }
        }
        if match_at(t, p, i - j) {
            assert forall|q: int| 0 <= q < p.len() implies s[i + q] == p[q] by {
                assert(t[i - j + q] == s[i + q]);
            }
        }
    }
    if i >= s.len() {
    } else if match_at(s, p, i) {
        lemma_scan_skip(s, p, j, i + p.len());
    } else {
        lemma_scan_skip(s, p, j, i + 1);
    }
}

/// Position of the first occurrence at or after `i`, or the length of `s`
/// when there is none.
pub open spec fn first_match_from(s: Seq<u8>, p: Seq<u8>, i: int) -> int
    decreases s.len() - i,
{
    if p.len() == 0 || i >= s.len() {
        s.len() as int
    } else if match_at(s, p, i) {
        i
    } else {
        first_match_from(s, p, i + 1)
    }
}

/// A scan that counts something counts its first occurrence first, then scans
/// on past it.
pub proof fn lemma_first_match(s: Seq<u8>, p: Seq<u8>, i: int)
    requires
        p.len() >= 1,
        0 <= i,
        count_from(s, p, i) > 0,
    ensures
        i <= first_match_from(s, p, i),
        match_at(s, p, first_match_from(s, p, i)),
        count_from(s, p, i) == 1 + count_from(s, p, first_match_from(s, p, i) + p.len()),
    decreases s.len() - i,
{
    if i >= s.len() {
    } else if match_at(s, p, i) {
    } else {
        lemma_first_match(s, p, i + 1);
    }
}

/// Starting the scan earlier never counts fewer occurrences.
pub proof fn lemma_count_mono(s: Seq<u8>, p: Seq<u8>, a: int, b: int)
    requires
        p.len() >= 1,
        0 <= a <= b <= s.len(),
    ensures
        count_from(s, p, a) >= count_from(s, p, b),
    decreases s.len() - a,
{
    if a == b {
    } else if match_at(s, p, a) {
        if b >= a + p.len() {
            lemma_count_mono(s, p, a + p.len(), b);
        } else {
            if count_from(s, p, b) > 0 {
                lemma_first_match(s, p, b);
                let c = first_match_from(s, p, b);
                lemma_count_mono(s, p, a + p.len(), c + p.len());
            }
        }
    } else {
        lemma_count_mono(s, p, a + 1, b);
    }
}

/// A scan that counts nothing reports the sentinel position 0.
pub proof fn lemma_no_match_no_last(s: Seq<u8>, p: Seq<u8>, i: int)
    requires
        count_from(s, p, i) == 0,
    ensures
        last_match_start_from(s, p, i) == 0,
    decreases s.len() - i,
{
    if p.len() == 0 || i >= s.len() {
    } else if match_at(s, p, i) {
    } else {
        lemma_no_match_no_last(s, p, i + 1);
    }
}

/// Counts the non-overlapping occurrences of `substring` in `chunk`, scanning
/// left to right, and returns the count together with the start position of
/// the last counted match (0 when the count is 0; callers must treat a zero
/// count, never the position alone, as the signal that nothing matched).
pub fn count_matches_in_chunk(chunk: &[u8], substring: &[u8]) -> (r: (usize, usize))
    requires
        substring@.len() >= 1,
    ensures
        r.0 == count_from(chunk@, substring@, 0),
        r.1 == last_match_start_from(chunk@, substring@, 0),
{
    proof {
        if count_from(chunk@, substring@, 0) == 0 {
            lemma_no_match_no_last(chunk@, substring@, 0);
        }
    }
    let chunk_len: usize = chunk.len();
    let mut counter: usize = 0;
    let mut pivot: usize = 0;
    let mut last: usize = 0;
    while pivot < chunk_len
        invariant
            chunk_len == chunk@.len(),
            substring@.len() >= 1,
            pivot <= chunk@.len(),
            chunk@.len() <= usize::MAX,
            counter <= pivot,
            last <= pivot,
            count_from(chunk@, substring@, 0) == counter + count_from(
                chunk@,
                substring@,
                pivot as int,
            ),
            last_match_start_from(chunk@, substring@, 0) == (if count_from(
                chunk@,
                substring@,
                pivot as int,
            ) > 0 {
                last_match_start_from(chunk@, substring@, pivot as int)
            } else if counter > 0 {
                last as int
            } else {
                0
            }),
            counter == 0 ==> last == 0,
        decreases chunk@.len() - pivot,
    {
        if starts_with_at(chunk, substring, pivot) {
            counter = counter + 1;
            last = pivot;
            pivot = pivot + substring.len();
        } else {
            pivot = pivot + 1;
        }
    }
    (counter, last)
}

} // verus!
