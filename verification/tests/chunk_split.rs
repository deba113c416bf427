use toolbox::chunk::{chunk_bytes_from, parse_usize, split, Chunk, DEFAULT_CHUNK_BYTES};

/// Doc of `n` lines, each `len` 'a's plus a trailing newline.
fn uniform(n: usize, len: usize) -> String {
    let mut s = String::new();
    for _ in 0..n {
        s.push_str(&"a".repeat(len));
        s.push('\n');
    }
    s
}

/// Independent oracle: line starts within [start, end).
fn line_starts_in(doc: &str, start: usize, end: usize) -> Vec<usize> {
    let mut v = vec![start];
    for (i, _) in doc[start..end].match_indices('\n') {
        let ls = start + i + 1;
        if ls < end {
            v.push(ls);
        }
    }
    v
}

/// Invariants for a completed scan (final chunk reaches range_end).
fn assert_invariants(doc: &str, chunks: &[Chunk], range_start: usize, range_end: usize) {
    assert!(!chunks.is_empty());
    assert_eq!(chunks[0].start, range_start);
    assert_eq!(chunks[0].exclusive_start, range_start);
    assert_eq!(chunks[0].context_lines, 0);
    for (n, c) in chunks.iter().enumerate() {
        if n > 0 {
            assert_eq!(c.exclusive_start, chunks[n - 1].end, "exclusive zones tile, chunk {n}");
        }
        assert!(c.start < c.end, "chunk {n} is non-empty");
        assert!(c.start >= range_start && c.end <= range_end, "chunk {n} within range");
        assert_eq!(c.text, &doc[c.start..c.end], "chunk {n} text");
        assert_eq!(c.line_starts, line_starts_in(doc, c.start, c.end), "line_starts, chunk {n}");
        assert_eq!(
            c.context_lines,
            c.line_starts.partition_point(|&x| x < c.exclusive_start),
            "context_lines counts lines, chunk {n}"
        );
        if c.start > 0 {
            assert_eq!(doc.as_bytes()[c.start - 1], b'\n', "start line-aligned, chunk {n}");
        }
        if c.end < range_end {
            assert_eq!(doc.as_bytes()[c.end - 1], b'\n', "end line-aligned, chunk {n}");
        }
    }
    assert_eq!(chunks.last().unwrap().end, range_end, "final chunk reaches range_end");
}

#[test]
fn exclusive_zones_tile_exactly() {
    let doc = uniform(20, 7); // 20 lines x 8 bytes = 160 bytes
    let chunks = split(&doc, 0, None, 32, 64);
    assert_invariants(&doc, &chunks, 0, doc.len());
    let zones: usize = chunks.iter().map(|c| c.end - c.exclusive_start).sum();
    assert_eq!(zones, doc.len(), "exclusive zones cover the scan exactly once");
}

#[test]
fn starts_and_ends_are_line_aligned_on_ragged_doc() {
    let mut doc = String::new();
    for len in 1..=12 {
        doc.push_str(&"b".repeat(len));
        doc.push('\n');
    }
    let chunks = split(&doc, 0, None, 20, 64);
    assert_invariants(&doc, &chunks, 0, doc.len());
}

#[test]
fn context_lines_counts_lines_not_bytes() {
    // line pitch 5, C = 48 -> O = 6 > pitch, so the overlap spans 2 lines
    let doc = uniform(30, 4);
    let chunks = split(&doc, 0, None, 48, 64);
    assert_invariants(&doc, &chunks, 0, doc.len());
    for c in chunks.iter().skip(1) {
        let overlap = &doc[c.start..c.exclusive_start];
        assert_eq!(c.context_lines, overlap.matches('\n').count());
        assert_eq!(c.context_lines, 2, "expected a two-line overlap");
    }
}

#[test]
fn final_chunk_ends_exactly_at_range_end_even_mid_line() {
    let doc = uniform(10, 10); // 100 bytes, line pitch 11
    let chunks = split(&doc, 0, Some(37), 20, 64);
    assert_invariants(&doc, &chunks, 0, 37);
    assert_eq!(chunks.last().unwrap().end, 37, "final cut may be mid-line");
}

#[test]
fn tail_smaller_than_overlap_is_carried_by_final_chunk() {
    let mut doc = String::new();
    doc.push_str(&"a".repeat(60));
    doc.push('\n');
    doc.push_str("bbbbb");
    doc.push('\n'); // 67 bytes; C = 64, O = 8, tail [64, 67) = 3 < O
    let chunks = split(&doc, 0, None, 64, 64);
    assert_eq!(chunks.len(), 1);
    assert_invariants(&doc, &chunks, 0, doc.len());
}

#[test]
fn mid_line_from_snaps_back_to_line_start() {
    let doc = uniform(10, 8); // line pitch 9
    let chunks = split(&doc, 13, None, 20, 64); // inside line [9, 18)
    assert_invariants(&doc, &chunks, 9, doc.len());
    let chunks = split(&doc, 9, None, 20, 64); // exactly a line start
    assert_invariants(&doc, &chunks, 9, doc.len());
}

#[test]
fn from_beyond_end_and_zero_limit_yield_no_chunks() {
    let doc = uniform(5, 10);
    assert!(split(&doc, 0, Some(0), 20, 64).is_empty());
    assert!(split(&doc, doc.len(), None, 20, 64).is_empty());
    assert!(split(&doc, doc.len() + 100, None, 20, 64).is_empty());
}

#[test]
fn mid_character_from_does_not_panic_and_snaps_to_enclosing_line() {
    // "héé\n" = 6 bytes per line; byte 8 is mid-character in line 1 [6, 12)
    let doc = "héé\n".repeat(10);
    let chunks = split(&doc, 8, None, 20, 64);
    assert_invariants(&doc, &chunks, 6, doc.len());
}

#[test]
fn zero_overlap_with_c_below_8_tiles_exactly() {
    // C = 4 < 8 -> O = 0: start_N must equal exclusive_start_N exactly
    let doc = uniform(20, 1); // one char per line, pitch 2
    let chunks = split(&doc, 0, None, 4, 64);
    assert_invariants(&doc, &chunks, 0, doc.len());
    assert_eq!(chunks.len(), 10);
    for c in chunks.iter().skip(1) {
        assert_eq!(c.start, c.exclusive_start, "no overlap: start == exclusive_start");
    }
}

#[test]
fn max_chunks_stops_the_scan_early() {
    let doc = uniform(50, 10); // 500 bytes
    let chunks = split(&doc, 0, None, 20, 3);
    assert_eq!(chunks.len(), 3);
    for (n, c) in chunks.iter().enumerate() {
        if n > 0 {
            assert_eq!(c.exclusive_start, chunks[n - 1].end);
        }
    }
    assert!(chunks.last().unwrap().end < doc.len(), "stopped before range end");
}

#[test]
fn limit_none_and_huge_limit_agree() {
    let doc = uniform(5, 10);
    let a = split(&doc, 0, Some(usize::MAX), 20, 64);
    let b = split(&doc, 0, None, 20, 64);
    assert_eq!(a.len(), b.len());
    assert_eq!(a.last().unwrap().end, doc.len());
}

// ----- further cases -----

#[test]
fn same_inputs_give_same_chunk_offsets() {
    let doc = uniform(40, 6);
    let a = split(&doc, 17, Some(200), 30, 64);
    let b = split(&doc, 17, Some(200), 30, 64);
    assert_eq!(a.len(), b.len());
    for (x, y) in a.iter().zip(b.iter()) {
        assert_eq!((x.start, x.exclusive_start, x.end), (y.start, y.exclusive_start, y.end));
        assert_eq!((x.text, &x.line_starts, x.context_lines), (y.text, &y.line_starts, y.context_lines));
    }
    let none = split(&doc, 3, None, 30, 64);
    let max = split(&doc, 3, Some(usize::MAX), 30, 64);
    assert_eq!(none.len(), max.len());
    for (x, y) in none.iter().zip(max.iter()) {
        assert_eq!((x.start, x.exclusive_start, x.end, x.text), (y.start, y.exclusive_start, y.end, y.text));
        assert_eq!((&x.line_starts, x.context_lines), (&y.line_starts, y.context_lines));
    }
}

#[test]
fn every_scanned_byte_is_in_exactly_one_zone() {
    let doc = uniform(33, 5);
    let chunks = split(&doc, 4, None, 40, 64);
    let lo = chunks[0].start;
    for p in lo..chunks.last().unwrap().end {
        let owners = chunks.iter().filter(|c| c.exclusive_start <= p && p < c.end).count();
        assert_eq!(owners, 1, "byte {p}");
    }
}

#[test]
fn chunk_size_setting_parses_like_usize() {
    assert_eq!(parse_usize("4096"), Some(4096));
    assert_eq!(parse_usize("+17"), Some(17));
    assert_eq!(parse_usize("007"), Some(7));
    assert_eq!(parse_usize(""), None);
    assert_eq!(parse_usize("+"), None);
    assert_eq!(parse_usize("-5"), None);
    assert_eq!(parse_usize("12a"), None);
    assert_eq!(parse_usize(" 12"), None);
    assert_eq!(parse_usize("18446744073709551615"), Some(usize::MAX));
    assert_eq!(parse_usize("18446744073709551616"), None);
    for s in ["0", "1", "65536", "99999999999", "+0", "x", "1_000"] {
        assert_eq!(parse_usize(s), s.parse::<usize>().ok(), "{s}");
    }
}

#[test]
fn chunk_size_setting_falls_back_to_default() {
    assert_eq!(DEFAULT_CHUNK_BYTES, 256 * 1024);
    assert_eq!(chunk_bytes_from(None), 262144);
    assert_eq!(chunk_bytes_from(Some("abc")), 262144);
    assert_eq!(chunk_bytes_from(Some("")), 262144);
    assert_eq!(chunk_bytes_from(Some("1024")), 1024);
}

#[test]
fn later_chunks_repeat_at_least_an_eighth() {
    let doc = uniform(40, 5); // pitch 6
    for cb in [8usize, 16, 48, 100] {
        let chunks = split(&doc, 0, None, cb, 64);
        assert_eq!(chunks[0].context_lines, 0);
        for c in chunks.iter().skip(1) {
            assert!(c.start + cb / 8 <= c.exclusive_start, "chunk_bytes {cb}");
            assert!(c.exclusive_start < c.end);
        }
    }
}
