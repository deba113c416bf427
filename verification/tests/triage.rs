use toolbox::chunk::split;
use toolbox::llm::json_object_text;
use toolbox::triage_doc::{
    chunk_prompt, clamp_max_hits, max_tokens_for, prepare, region_hits, snippet_for, system_prompt,
    ChunkReply, RegionFields, Score, TriageArgs, TriageScan, DEFAULT_MAX_HITS, MAX_CHUNKS,
    SNIPPET_BYTES,
};

/// `total` bytes of one-char lines (line starts at every even offset).
fn uniform(total: usize) -> String {
    "a\n".repeat(total / 2)
}

/// `n` lines of "line NN filler\n" (15 bytes each).
fn numbered(n: usize) -> String {
    (0..n).map(|i| format!("line {i:02} filler\n")).collect()
}

fn score(v: f64) -> Score {
    Score { bits: v.to_bits(), text: format!("{}", v) }
}

/// A region with every field present and well typed.
fn region(line_start: u64, line_end: u64, s: f64, note: &str) -> RegionFields {
    RegionFields {
        line_start: Some(line_start),
        line_end: Some(line_end),
        score: Some(score(s)),
        note: Some(note.to_string()),
    }
}

fn regions(rs: Vec<RegionFields>) -> Option<Vec<RegionFields>> {
    Some(rs)
}

#[test]
fn small_doc_yields_one_chunk_covering_the_range() {
    let doc = "hello\nworld\n";
    let chunks = prepare(&doc, 0, None, 64).unwrap();
    assert_eq!(chunks.len(), 1);
    assert_eq!(chunks[0].start, 0);
    assert_eq!(chunks[0].end, doc.len());
    assert_eq!(chunks[0].text, doc);
}

#[test]
fn offset_at_or_past_end_is_nothing_to_scan() {
    let doc = "hello\nworld\n";
    for offset in [doc.len(), doc.len() + 100] {
        let err = prepare(&doc, offset, None, 64).unwrap_err();
        assert!(err.contains("nothing to scan"), "unexpected: {err}");
    }
}

#[test]
fn zero_limit_is_nothing_to_scan() {
    let doc = "hello\nworld\n";
    let err = prepare(&doc, 0, Some(0), 64).unwrap_err();
    assert!(err.contains("nothing to scan"), "unexpected: {err}");
}

#[test]
fn over_cap_is_an_error() {
    // c = 32: 64 chunks cover ~1.8 KB, and the doc is bigger.
    let doc = uniform(64 * 32 + 256);
    let err = prepare(&doc, 0, None, 32).unwrap_err();
    assert!(err.contains("too large"), "unexpected: {err}");
}

#[test]
fn small_limited_window_is_not_over_cap() {
    let doc = uniform(64 * 32 + 256);
    let chunks = prepare(&doc, 0, Some(32), 32).unwrap();
    assert_eq!(chunks.len(), 1);
    assert!(chunks.last().unwrap().end < doc.len(), "window ends before doc end");
}

#[test]
fn window_filling_exactly_64_chunks_is_not_over_cap() {
    // c = 32: 64 chunks advance 63 * (32 - 4) = 1764 bytes past the
    // first chunk's end (32), so a 1796-byte window fits exactly.
    let doc = uniform(2 * 1796);
    let chunks = prepare(&doc, 0, Some(1796), 32).unwrap();
    assert_eq!(chunks.len(), MAX_CHUNKS);
    assert!(chunks.last().unwrap().end < doc.len());
}

// --- snippet_for ---

#[test]
fn snippet_snaps_back_to_last_complete_line() {
    let doc = "aaaaaaaa\n".repeat(21) + "b"; // 190 bytes, trailing partial line
    let s = snippet_for(&doc, 0);
    assert_eq!(s.len(), 189, "21 complete lines, no trailing b");
    assert!(s.ends_with('\n'));
}

#[test]
fn snippet_long_line_is_cut_at_window_end() {
    let doc = "x".repeat(300); // no newline anywhere
    let s = snippet_for(&doc, 0);
    assert_eq!(s.len(), SNIPPET_BYTES);
}

#[test]
fn snippet_at_or_past_end_is_empty() {
    let doc = "hello\nworld\n";
    assert_eq!(snippet_for(&doc, doc.len()), "");
    assert_eq!(snippet_for(&doc, doc.len() + 1000), "");
}

#[test]
fn snippet_floors_multi_byte_window_end() {
    let doc = "中".repeat(100); // 300 bytes, 3-byte chars, no newline
    let s = snippet_for(&doc, 0);
    assert_eq!(s.len(), 255, "256 lands mid-character");
    assert_eq!(s.chars().count(), 85);
}

#[test]
fn snippet_floors_mid_char_start() {
    let doc = "ab中c\ntail\n"; // 中 spans bytes 2..5
    let s = snippet_for(&doc, 3);
    assert!(s.starts_with('中'));
}

// --- region_hits ---

#[test]
fn valid_region_maps_to_doc_coordinates() {
    let doc = numbered(22);
    let chunks = split(&doc, 0, None, 64, 64);
    // chunk 0: bytes 0..75, lines 1..5
    let value = regions(vec![region(2, 3, 9.0, "two filler lines")]);
    let hits = region_hits(&chunks[0], 0, &doc, &value, 10);
    assert_eq!(hits.len(), 1);
    let h = &hits[0];
    assert_eq!(h.line_start, 2);
    assert_eq!(h.line_end, 3);
    assert_eq!(h.byte_start, 15);
    assert_eq!(h.byte_end, 45); // end of line 3 = start of line 4
    assert_eq!(f64::from_bits(h.score.bits), 9.0);
    assert_eq!(h.score.text, "9");
    assert_eq!(h.note, "two filler lines");
    assert!(h.snippet.starts_with("line 01 filler\n"));
    assert!(h.snippet.ends_with("line 17 filler\n"));
    assert!(!h.snippet.contains("line 18"));
}

#[test]
fn second_chunk_lines_are_rebased_with_lines_before() {
    let doc = numbered(22);
    let chunks = split(&doc, 0, None, 64, 64);
    let c = &chunks[1];
    assert_eq!(c.start, 60); // 5th line (1-based) -> 4 lines before
    let value = regions(vec![region(2, 2, 4.0, "n")]);
    let hits = region_hits(c, 4, &doc, &value, 10);
    assert_eq!(hits.len(), 1);
    assert_eq!(hits[0].line_start, 6); // 4 + 2
    assert_eq!(hits[0].line_end, 6);
    assert_eq!(hits[0].byte_start, 75);
}

#[test]
fn exclusive_zone_boundary() {
    let doc = numbered(22);
    let chunks = split(&doc, 0, None, 64, 64);
    let c = &chunks[1]; // exclusive_start 75; chunk line 1 (byte 60) is overlap
    assert_eq!(c.exclusive_start, 75);
    let value = regions(vec![region(1, 1, 8.0, "in the overlap"), region(2, 2, 7.0, "at the zone start")]);
    let hits = region_hits(c, 4, &doc, &value, 10);
    assert_eq!(hits.len(), 1);
    assert_eq!(hits[0].note, "at the zone start");
}

#[test]
fn region_on_last_chunk_line_ends_at_chunk_end() {
    let doc = numbered(22);
    let chunks = split(&doc, 0, None, 64, 64);
    let c = &chunks[0]; // 5 lines
    let value = regions(vec![region(5, 5, 1.0, "last")]);
    let hits = region_hits(c, 0, &doc, &value, 10);
    assert_eq!(hits.len(), 1);
    assert_eq!(hits[0].byte_start, 60);
    assert_eq!(hits[0].byte_end, c.end); // no next line start -> chunk.end
}

#[test]
fn max_regions_truncates_in_doc_order() {
    let doc = numbered(22);
    let chunks = split(&doc, 0, None, 64, 64);
    let value = regions(vec![region(1, 1, 2.0, "first"), region(2, 2, 9.0, "second"), region(3, 3, 5.0, "third")]);
    let hits = region_hits(&chunks[0], 0, &doc, &value, 2);
    assert_eq!(hits.len(), 2);
    assert_eq!(hits[0].note, "first");
    assert_eq!(hits[1].note, "second");
}

#[test]
fn invalid_regions_are_dropped() {
    let doc = numbered(22);
    let chunks = split(&doc, 0, None, 64, 64);
    let no_score = RegionFields { line_start: Some(1), line_end: Some(1), score: None, note: Some("n".to_string()) };
    let no_note = RegionFields { line_start: Some(1), line_end: Some(1), score: Some(score(5.0)), note: None };
    let not_an_object = RegionFields { line_start: None, line_end: None, score: None, note: None };
    let cases: Vec<(&str, Option<Vec<RegionFields>>)> = vec![
        ("zero-based line_start", regions(vec![region(0, 1, 5.0, "n")])),
        ("line_end past chunk", regions(vec![region(4, 6, 5.0, "n")])),
        ("line_start after line_end", regions(vec![region(3, 2, 5.0, "n")])),
        ("score above 10", regions(vec![region(1, 1, 11.0, "n")])),
        ("negative score", regions(vec![region(1, 1, -1.0, "n")])),
        ("score as string", regions(vec![no_score])),
        ("missing note", regions(vec![no_note])),
        ("empty note", regions(vec![region(1, 1, 5.0, "")])),
        ("regions not an array", None),
        ("missing regions key", None),
        ("region not an object", regions(vec![not_an_object])),
    ];
    for (name, value) in &cases {
        let hits = region_hits(&chunks[0], 0, &doc, value, 10);
        assert!(hits.is_empty(), "{name}: expected no hits, got {}", hits.len());
    }
}

#[test]
fn valid_region_survives_among_invalid_ones() {
    let doc = numbered(22);
    let chunks = split(&doc, 0, None, 64, 64);
    let value = regions(vec![region(99, 99, 9.0, "out of range"), region(2, 2, 3.0, "ok")]);
    let hits = region_hits(&chunks[0], 0, &doc, &value, 10);
    assert_eq!(hits.len(), 1);
    assert_eq!(hits[0].note, "ok");
}

// --- the scan, with the model's replies given ---

/// What the model's reply becomes for the scan: a parsed object's regions,
/// or the reason it could not be read.
fn reply_from_text(text: &str, rs: Vec<RegionFields>) -> ChunkReply {
    match json_object_text(text) {
        Ok(_) => ChunkReply::Replied { regions: Some(rs) },
        Err(reason) => ChunkReply::Failed { reason },
    }
}

#[test]
fn triage_loop_renders_pinned_format() {
    let doc = numbered(10); // 150 bytes, 15-byte lines
    let scan = TriageScan::start(&doc, 0, None, 64, 5).unwrap();
    assert_eq!(scan.chunk_count(), 3);
    let replies = vec![
        ChunkReply::Replied {
            regions: regions(vec![
                region(4, 4, 9.0, "high score here"),
                region(2, 3, 7.0, "first chunk region"),
                region(9, 9, 10.0, "past the chunk end"),
            ]),
        },
        reply_from_text("I cannot analyze this text.", vec![]),
        ChunkReply::Replied {
            regions: regions(vec![region(1, 1, 10.0, "in the overlap"), region(2, 2, 9.0, "last line region")]),
        },
    ];
    let out = scan.report("what filler is here", &replies);
    let expected = r#"Triage for 'what filler is here': 3 hit(s), scanned 3 chunk(s), bytes 0..150
   untriaged: bytes 60..135 (no JSON object found)
1. [9] high score here
   line 4..4, bytes 45..60
   |line 03 filler
   |line 04 filler
   |line 05 filler
   |line 06 filler
   |line 07 filler
   |line 08 filler
   |line 09 filler
2. [9] last line region
   line 10..10, bytes 135..150
   |line 09 filler
3. [7] first chunk region
   line 2..3, bytes 15..45
   |line 01 filler
   |line 02 filler
   |line 03 filler
   |line 04 filler
   |line 05 filler
   |line 06 filler
   |line 07 filler
   |line 08 filler
   |line 09 filler
"#;
    assert_eq!(out, expected);
}

#[test]
fn triage_loop_caps_output_at_max_hits() {
    let doc = numbered(10);
    let scan = TriageScan::start(&doc, 0, None, 64, 2).unwrap();
    let replies = vec![
        ChunkReply::Replied {
            regions: regions(vec![region(4, 4, 9.0, "high score here"), region(2, 3, 7.0, "first chunk region")]),
        },
        reply_from_text("I cannot analyze this text.", vec![]),
        ChunkReply::Replied { regions: regions(vec![region(2, 2, 9.0, "last line region")]) },
    ];
    let out = scan.report("filler", &replies);
    assert!(out.contains("2 hit(s)"), "unexpected: {out}");
    // Ties keep doc order: chunk 0's 9 ranks before chunk 2's 9.
    assert!(out.contains("1. [9] high score here"), "unexpected: {out}");
    assert!(out.contains("2. [9] last line region"), "unexpected: {out}");
    assert!(!out.contains("first chunk region"), "7-score hit must be cut at max_hits 2: {out}");
    assert!(out.contains("untriaged: bytes 60..135"), "unexpected: {out}");
}

#[test]
fn system_prompt_pins_relevance_rules() {
    let doc = numbered(3);
    let chunks = prepare(&doc, 0, None, 64).unwrap();
    let (system, _user) = chunk_prompt("what is rust", None, &chunks[0], 5);
    let expected = [
        "Find the parts of this document chunk that are relevant to the query.\n",
        "Respond with a JSON object only: {\"regions\": [{\"line_start\": n, \"line_end\": n, \"score\": s, \"note\": t}]}",
        "\n- line numbers are 1-based within the chunk, line_end >= line_start\n",
        "- lines before line 1 are repeated context from the previous chunk, for orientation only: never report them, and never use them to skip content; report relevant regions in the remaining lines even if they continue a topic visible in the context\n",
        "- first interpret the query: a query about specific things (e.g. \"mentions of X\", \"where does X appear\") asks for mentions; a query about a theme, property, question, or subject (e.g. \"the character of X\", \"views on X\") asks for treatments of it\n",
        "- a mention query: a region qualifies only if it directly mentions the queried things; never report a region that merely touches their general theme\n",
        "- a theme query: a region qualifies if it bears on the queried subject, by describing, discussing, or clearly exemplifying it, even when the passage's main topic is something else; never report a region that merely grazes the subject\n",
        "- breadth: if the query explicitly asks for anything even possibly or tangentially relevant, include peripheral bearings; otherwise include only clearly non-incidental bearings\n",
        "- report at most 5 regions, most relevant first, and never more than the number of qualifying regions you found; padding with weak regions is wrong\n",
        "- if the chunk contains no qualifying region, respond with {\"regions\": []}\n",
        "- score: 1-10, ordinal priority within this document, not calibrated confidence; 1 is still a real, passing mention of the queried subject\n",
        "- note: at most 15 words describing why the region matters; do not paraphrase the text\n",
    ]
    .concat();
    assert_eq!(system, expected);
}

// ----- further cases -----

#[test]
fn user_prompt_numbers_lines_with_padding_and_context() {
    let doc = numbered(12);
    let chunks = prepare(&doc, 0, None, 1024).unwrap();
    let (_system, user) = chunk_prompt("q", Some("ctx"), &chunks[0], 3);
    assert!(user.starts_with(
        "Query: q\nDocument context (orientation only; the chunk text is authoritative):\nctx\nChunk:\n"
    ));
    assert!(user.contains("\n 1\tline 00 filler\n"));
    assert!(user.contains("\n12\tline 11 filler\n"));
}

#[test]
fn system_prompt_names_the_first_exclusive_line() {
    let s = system_prompt(3, 7);
    assert!(s.contains("- lines before line 3 are repeated context"));
    assert!(s.contains("- report at most 7 regions"));
}

#[test]
fn hit_cap_is_clamped_and_sets_the_output_budget() {
    assert_eq!(clamp_max_hits(0), 1);
    assert_eq!(clamp_max_hits(5), 5);
    assert_eq!(clamp_max_hits(1000), 1000);
    assert_eq!(clamp_max_hits(5000), 1000);
    assert_eq!(max_tokens_for(5), 128 + 64 * 5);
    assert_eq!(max_tokens_for(1000), 64128);
}

#[test]
fn scan_prompt_uses_clamped_cap() {
    let doc = numbered(10);
    let scan = TriageScan::start(&doc, 0, None, 64, 0).unwrap();
    let (system, user, budget) = scan.prompt(1, "q", None);
    assert!(system.contains("- lines before line 2 are repeated context"));
    assert!(system.contains("- report at most 1 regions"));
    assert!(user.contains("1\tline 04 filler\n"));
    assert_eq!(budget, 192);
}

#[test]
fn scan_errors_name_the_range_problem() {
    let doc = numbered(10);
    let err = TriageScan::start(&doc, 500, None, 64, 5).err().unwrap();
    assert_eq!(err, "nothing to scan (offset/limit leave an empty range)");
    let big = uniform(64 * 32 + 256);
    let err = TriageScan::start(&big, 0, None, 32, 5).err().unwrap();
    assert!(err.starts_with("document too large for one triage (64 chunks, ended at byte "), "{err}");
    assert!(err.ends_with(&format!(" of {}); narrow with offset/limit", big.len())), "{err}");
}

#[test]
fn all_untriaged_scan_reports_zero_hits() {
    let doc = numbered(4);
    let scan = TriageScan::start(&doc, 0, None, 1024, 5).unwrap();
    let replies = vec![ChunkReply::Failed { reason: "llm call timed out".to_string() }];
    let out = scan.report("x", &replies);
    assert_eq!(out, "Triage for 'x': 0 hit(s), scanned 1 chunk(s), bytes 0..60\n   untriaged: bytes 0..60 (llm call timed out)\n");
}

#[test]
fn reply_without_regions_yields_no_hits() {
    let doc = numbered(4);
    let scan = TriageScan::start(&doc, 0, None, 1024, 5).unwrap();
    let replies = vec![ChunkReply::Replied { regions: None }];
    let out = scan.report("x", &replies);
    assert_eq!(out, "Triage for 'x': 0 hit(s), scanned 1 chunk(s), bytes 0..60\n");
}

#[test]
fn negative_zero_ranks_below_zero() {
    let doc = numbered(4);
    let scan = TriageScan::start(&doc, 0, None, 1024, 5).unwrap();
    let replies = vec![ChunkReply::Replied {
        regions: regions(vec![region(1, 1, -0.0, "minus"), region(2, 2, 0.0, "plus"), region(3, 3, 10.0, "top")]),
    }];
    let out = scan.report("x", &replies);
    let top = out.find("1. [10] top").unwrap();
    let plus = out.find("2. [0] plus").unwrap();
    let minus = out.find("3. [-0] minus").unwrap();
    assert!(top < plus && plus < minus, "{out}");
}

#[test]
fn triage_args_defaults_and_checks() {
    let args = TriageArgs {
        id: "x".to_string(),
        context: None,
        max_hits: None,
        query: String::new(),
        offset: None,
        limit: None,
    };
    assert_eq!(args.check().unwrap_err(), "empty query");
    assert_eq!(args.scan_offset(), 0);
    assert_eq!(args.requested_hits(), DEFAULT_MAX_HITS);
    let args = TriageArgs { query: "q".to_string(), offset: Some(7), max_hits: Some(12), ..args };
    assert!(args.check().is_ok());
    assert_eq!(args.scan_offset(), 7);
    assert_eq!(args.requested_hits(), 12);
}

#[test]
fn overlap_line_is_reported_by_one_chunk_only() {
    let doc = numbered(10);
    let scan = TriageScan::start(&doc, 0, None, 64, 10).unwrap();
    // byte 60 (line 5) is chunk 0's last line and chunk 1's first (overlap) line
    let replies = vec![
        ChunkReply::Replied { regions: regions(vec![region(5, 5, 8.0, "seen by chunk 0")]) },
        ChunkReply::Replied { regions: regions(vec![region(1, 1, 8.0, "seen by chunk 1")]) },
        ChunkReply::Replied { regions: None },
    ];
    let out = scan.report("x", &replies);
    assert!(out.contains("1 hit(s)"), "{out}");
    assert!(out.contains("seen by chunk 0"), "{out}");
    assert!(!out.contains("seen by chunk 1"), "{out}");
}
