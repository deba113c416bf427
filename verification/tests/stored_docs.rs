use toolbox::fetch_url::{fetch_response, INLINE_LIMIT, PREVIEW_BYTES};
use toolbox::read_doc::{read_chunk, DEFAULT_LIMIT};
use toolbox::search_doc::{bytes_contain, check_pattern, find_lines, search_report, MAX_MATCHES};
use toolbox::store::{check_doc_id, doc_id, sidecar_name};

#[test]
fn doc_id_is_sha256_hex_of_url() {
    // SHA-256 of the empty string and of "abc" (FIPS 180-4 test vectors)
    assert_eq!(doc_id(""), "e3b0c44298fc1c149afbf4c8996fb92427ae41e4649b934ca495991b7852b855");
    assert_eq!(doc_id("abc"), "ba7816bf8f01cfea414140de5dae2223b00361a396177a9cb410ff61f20015ad");
    let id = doc_id("https://example.com/");
    assert_eq!(id.len(), 64);
    assert!(check_doc_id(&id).is_ok());
}

#[test]
fn only_full_lowercase_hex_ids_are_accepted() {
    let good = "a".repeat(64);
    assert!(check_doc_id(&good).is_ok());
    assert_eq!(check_doc_id(&"a".repeat(63)).unwrap_err(), "invalid document id");
    assert_eq!(check_doc_id(&"A".repeat(64)).unwrap_err(), "invalid document id");
    assert_eq!(check_doc_id("../../etc/passwd").unwrap_err(), "invalid document id");
    assert_eq!(check_doc_id("").unwrap_err(), "invalid document id");
    assert_eq!(sidecar_name(&good), format!("{good}.json"));
}

#[test]
fn small_fetch_is_inline() {
    let out = fetch_response("http://x/", "ID", "text/plain", b"hello");
    assert_eq!(out, "[stored: ID (5 bytes, text/plain)]\nhello");
}

#[test]
fn large_fetch_is_a_preview() {
    let body = vec![b'z'; INLINE_LIMIT];
    let out = fetch_response("http://x/", "ID", "text/html", &body);
    let expected_head = format!(
        "Document stored: ID ({} bytes, text/html)\nurl: http://x/\nPreview (first 2048 bytes):\n",
        INLINE_LIMIT
    );
    assert!(out.starts_with(&expected_head), "{out}");
    assert_eq!(out.len(), expected_head.len() + PREVIEW_BYTES);
    let just_below = vec![b'z'; INLINE_LIMIT - 1];
    assert!(fetch_response("u", "ID", "t", &just_below).starts_with("[stored: ID (32767 bytes, t)]\n"));
}

#[test]
fn invalid_utf8_is_replaced_in_fetch_and_read() {
    let out = fetch_response("u", "ID", "t", &[b'a', 0xff, b'b']);
    assert!(out.ends_with("a\u{fffd}b"), "{out}");
    let r = read_chunk("ID", &[b'a', 0xff, b'b'], 0, 10);
    assert!(r.ends_with("a\u{fffd}b"), "{r}");
}

#[test]
fn read_pages_through_the_document() {
    let body: Vec<u8> = (0..250u32).map(|i| b'a' + (i % 26) as u8).collect();
    let r = read_chunk("ID", &body, 0, 100);
    assert!(r.starts_with("Document ID (250 bytes total)\nbytes 0..100:\n"), "{r}");
    assert!(r.ends_with("\n[more: bytes 100..250 available]"), "{r}");
    let r = read_chunk("ID", &body, 200, 100);
    assert!(r.starts_with("Document ID (250 bytes total)\nbytes 200..250:\n"), "{r}");
    assert!(!r.contains("[more:"));
    let r = read_chunk("ID", &body, 999, 100);
    assert_eq!(r, "Document ID (250 bytes total)\nbytes 250..250:\n");
    let r = read_chunk("ID", &body, 10, usize::MAX);
    assert!(r.starts_with("Document ID (250 bytes total)\nbytes 10..250:\n"));
    assert_eq!(DEFAULT_LIMIT, 4096);
}

#[test]
fn search_is_case_insensitive_and_line_oriented() {
    let body = "Alpha\nbeta APPLE\r\ngamma\napple pie\n";
    let m = find_lines(body, "apple");
    assert_eq!(m.len(), 2);
    assert_eq!(m[0], (6, 2, "beta APPLE".to_string()));
    assert_eq!(m[1], (24, 4, "apple pie".to_string()));
    for (offset, _, snippet) in &m {
        assert!(body[*offset..].to_lowercase().starts_with(&snippet.to_lowercase()));
    }
    assert_eq!(find_lines("a\r\nb", "B"), vec![(3, 2, "b".to_string())]);
}

#[test]
fn search_report_counts_and_caps_matches() {
    let mut body = String::new();
    for i in 0..25 {
        body.push_str(&format!("x{i} needle\n"));
    }
    let out = search_report("ID", "NEEDLE", body.as_bytes());
    assert!(out.starts_with("Search for 'NEEDLE' in ID: 25 match(es)\nline 1, byte 0: x0 needle\n"), "{out}");
    assert_eq!(out.matches("\nline ").count(), MAX_MATCHES);
    assert!(out.ends_with("... and 5 more matches"), "{out}");
    let none = search_report("ID", "zzz", body.as_bytes());
    assert_eq!(none, "Search for 'zzz' in ID: 0 match(es)\n");
}

#[test]
fn search_snippets_keep_200_characters() {
    let line = "é".repeat(300);
    let m = find_lines(&line, "é");
    assert_eq!(m.len(), 1);
    assert_eq!(m[0].2.chars().count(), 200);
}

#[test]
fn empty_pattern_is_refused() {
    assert_eq!(check_pattern("").unwrap_err(), "empty pattern");
    assert!(check_pattern("a").is_ok());
}

#[test]
fn byte_containment() {
    assert!(bytes_contain(b"hello", b"ll"));
    assert!(bytes_contain(b"hello", b""));
    assert!(!bytes_contain(b"hello", b"lo!"));
    assert!(!bytes_contain(b"", b"a"));
}
