//! Laws of the bounded scan on periodic content.
//!
//! The central result: on content that is exactly `n` back-to-back copies of
//! the pattern, the buffer-by-buffer scan counts exactly `n` matches, for any
//! pattern no longer than the buffer — in particular when copies straddle the
//! boundary between two consecutive buffer reads.

use vstd::prelude::*;

use crate::chunk::count_from;
use crate::chunk::last_match_start_from;
use crate::chunk::lemma_scan_skip;
use crate::chunk::match_at;
use crate::scan::BUFFER_SIZE;
use crate::scan::boundary_correction;
use crate::scan::chunked_count_from;
use crate::scan::lemma_chunked_count_skip;
use crate::scan::lemma_count_upper;
use crate::scan::next_offset;
use crate::scan::pos_after_last;

verus! {

/// How many whole periods of length `k` fit into a region of length `l`.
pub open spec fn rep_count(l: int, k: int) -> nat
    decreases l,
{
    if k <= 0 || l < k {
        0
    } else {
        1 + rep_count(l - k, k)
    }
}

/// Length covered by the whole periods of length `k` in a region of length `l`.
pub open spec fn rep_full(l: int, k: int) -> int
    decreases l,
{
    if k <= 0 || l < k {
        0
    } else {
        k + rep_full(l - k, k)
    }
}

/// `s` is an initial segment of the unbounded repetition of `p`: whole copies
/// of `p` back to back, possibly ending inside a copy.
pub open spec fn is_rep_prefix(s: Seq<u8>, p: Seq<u8>) -> bool
    decreases s.len(),
{
    if p.len() == 0 {
        s.len() == 0
    } else if s.len() == 0 {
        true
    } else if s.len() >= p.len() {
        s.subrange(0, p.len() as int) == p && is_rep_prefix(s.skip(p.len() as int), p)
    } else {
        s == p.subrange(0, s.len() as int)
    }
}

/// `p` repeated `n` times, back to back.
pub open spec fn repeat_pattern(p: Seq<u8>, n: nat) -> Seq<u8>
    decreases n,
{
    if n == 0 {
        Seq::empty()
    } else {
        p + repeat_pattern(p, (n - 1) as nat)
    }
}

/// Arithmetic facts about whole periods: they cover at most the region, leave
/// a remainder shorter than one period, and taking them changes no counts.
pub proof fn lemma_rep_full_facts(l: int, k: int)
    requires
        k >= 1,
        l >= 0,
    ensures
        0 <= rep_full(l, k) <= l,
        l - rep_full(l, k) < k,
        rep_full(rep_full(l, k), k) == rep_full(l, k),
        rep_count(rep_full(l, k), k) == rep_count(l, k),
        l >= k ==> rep_full(l, k) >= k,
        l < k ==> rep_count(l, k) == 0,
    decreases l,
{
    if l < k {
    } else {
        lemma_rep_full_facts(l - k, k);
    }
}

/// Counting whole periods splits at any boundary that is itself made of whole
/// periods.
pub proof fn lemma_rep_count_split(l: int, m: int, k: int)
    requires
        k >= 1,
        0 <= m <= l,
        rep_full(m, k) == m,
    ensures
        rep_count(l, k) == rep_count(m, k) + rep_count(l - m, k),
    decreases m,
{
    if m == 0 {
    } else {
        assert(m >= k);
        lemma_rep_count_split(l - k, m - k, k);
    }
}

/// An initial segment of a repetition prefix is itself a repetition prefix.
pub proof fn lemma_rep_prefix_truncate(s: Seq<u8>, p: Seq<u8>, l: int)
    requires
        p.len() >= 1,
        is_rep_prefix(s, p),
        0 <= l <= s.len(),
    ensures
        is_rep_prefix(s.subrange(0, l), p),
    decreases s.len(),
{
    let k = p.len() as int;
    let t = s.subrange(0, l);
    if l == 0 {
    } else if l >= k {
        assert(t.subrange(0, k) =~= s.subrange(0, k));
        assert(t.skip(k) =~= s.skip(k).subrange(0, l - k));
        lemma_rep_prefix_truncate(s.skip(k), p, l - k);
    } else {
        if s.len() >= k {
            assert(t =~= p.subrange(0, l));
        } else {
            assert(t =~= p.subrange(0, l));
        }
    }
}

/// Dropping whole periods from the front of a repetition prefix leaves a
/// repetition prefix.
pub proof fn lemma_rep_prefix_skip(s: Seq<u8>, p: Seq<u8>, m: int)
    requires
        p.len() >= 1,
        is_rep_prefix(s, p),
        0 <= m <= s.len(),
        rep_full(m, p.len() as int) == m,
    ensures
        is_rep_prefix(s.skip(m), p),
    decreases m,
{
    let k = p.len() as int;
    if m == 0 {
        assert(s.skip(0) =~= s);
    } else {
        assert(m >= k);
        assert(s.skip(m) =~= s.skip(k).skip(m - k));
        lemma_rep_prefix_skip(s.skip(k), p, m - k);
    }
}

/// The chunk matcher on a repetition prefix finds one match per whole period,
/// the last of them starting one period before the end of the whole periods.
pub proof fn lemma_rep_chunk_count(s: Seq<u8>, p: Seq<u8>)
    requires
        p.len() >= 1,
        is_rep_prefix(s, p),
    ensures
        count_from(s, p, 0) == rep_count(s.len() as int, p.len() as int),
        count_from(s, p, 0) > 0 ==> last_match_start_from(s, p, 0) == rep_full(
            s.len() as int,
            p.len() as int,
        ) - p.len(),
    decreases s.len(),
{
    let k = p.len() as int;
    if s.len() < k {
        lemma_count_upper(s, p, 0);
    } else {
        assert(match_at(s, p, 0)) by {
            assert forall|j: int| 0 <= j < k implies s[j] == p[j] by {
                assert(s.subrange(0, k)[j] == s[j]);
            }
        }
        lemma_rep_chunk_count(s.skip(k), p);
        lemma_scan_skip(s, p, k, k);
        assert(count_from(s, p, 0) == 1 + count_from(s, p, k));
        if count_from(s, p, k) == 0 {
            assert(rep_count(s.len() - k, k) == 0);
            assert(s.len() - k < k);
            assert(rep_full(s.len() - k, k) == 0);
        } else {
            assert(last_match_start_from(s, p, 0) == last_match_start_from(s, p, k));
        }
    }
}

/// The bounded scan over a repetition prefix counts one match per whole
/// period, across all buffer boundaries.
pub proof fn lemma_scan_rep_prefix(s: Seq<u8>, p: Seq<u8>)
    requires
        1 <= p.len() <= BUFFER_SIZE,
        is_rep_prefix(s, p),
    ensures
        chunked_count_from(s, p, 0) == rep_count(s.len() as int, p.len() as int),
    decreases s.len(),
{
    let k = p.len() as int;
    if s.len() == 0 {
    } else {
        let l = if s.len() >= BUFFER_SIZE {
            BUFFER_SIZE as int
        } else {
            s.len() as int
        };
        let chunk = s.subrange(0, l);
        lemma_rep_prefix_truncate(s, p, l);
        lemma_rep_chunk_count(chunk, p);
        lemma_rep_full_facts(l, k);
        assert(chunked_count_from(s, p, 0) == count_from(chunk, p, 0) + chunked_count_from(
            s,
            p,
            next_offset(0, chunk, p),
        ));
        if s.len() < k {
            assert(count_from(chunk, p, 0) == 0);
            assert(pos_after_last(chunk, p) == 0);
            assert(next_offset(0, chunk, p) == l);
            assert(chunked_count_from(s, p, l) == 0);
        } else {
            assert(l >= k);
            assert(count_from(chunk, p, 0) == rep_count(l, k));
            assert(rep_count(l, k) >= 1);
            let m = rep_full(l, k);
            assert(pos_after_last(chunk, p) == m);
            assert(boundary_correction(chunk, p) == l - m);
            assert(next_offset(0, chunk, p) == m);
            lemma_chunked_count_skip(s, p, m);
            lemma_rep_prefix_skip(s, p, m);
            lemma_scan_rep_prefix(s.skip(m), p);
            lemma_rep_count_split(s.len() as int, m, k);
            assert(rep_count(m, k) == rep_count(l, k));
        }
    }
}

/// Repeating the pattern yields a repetition prefix of as many whole periods.
pub proof fn lemma_repeat_pattern_facts(p: Seq<u8>, n: nat)
    requires
        p.len() >= 1,
    ensures
        is_rep_prefix(repeat_pattern(p, n), p),
        rep_count(repeat_pattern(p, n).len() as int, p.len() as int) == n,
    decreases n,
{
    let k = p.len() as int;
    if n == 0 {
    } else {
        let s = repeat_pattern(p, n);
        let rest = repeat_pattern(p, (n - 1) as nat);
        lemma_repeat_pattern_facts(p, (n - 1) as nat);
        assert(s.subrange(0, k) =~= p);
        assert(s.skip(k) =~= rest);
    }
}

/// Content that is exactly `n` back-to-back copies of the pattern, and nothing
/// else, is counted by the bounded scan as exactly `n` matches, whether or not
/// the copies align with the buffer boundaries. A pattern longer than the
/// buffer can never fit inside one read, so no repetition of it is counted.
pub proof fn lemma_scan_repeated(p: Seq<u8>, n: nat)
    requires
        1 <= p.len() <= BUFFER_SIZE,
    ensures
        chunked_count_from(repeat_pattern(p, n), p, 0) == n,
{
    lemma_repeat_pattern_facts(p, n);
    lemma_scan_rep_prefix(repeat_pattern(p, n), p);
}

} // verus!
