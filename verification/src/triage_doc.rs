//! Triage of a stored document: which chunks to show the model, how each
//! reported region maps back to the document, how hits are ranked, and the
//! report the tool returns.
//!
//! Each chunk's model call is made by the caller; this module prepares the
//! chunks and prompts and turns the replies into the final report.

use vstd::prelude::*;
use vstd::utf8::*;
use vstd::string::*;
use crate::chunk::{Chunk, split, split_result, scan_end, law_exclusive_zones_tile, lists_line_starts};
use crate::rank::{entry_at, holds_top, lemma_rank_injective, lemma_rank_onto, lemma_rank_order, lemma_top_entries, rank, top_indices};
use crate::text::{at_boundary, floor_boundary, floor_char_boundary, lemma_floor_boundary,
    lemma_floor_boundary_ge, lemma_after_ascii_is_boundary, str_range_to_string, text_of,
    decimal, usize_to_string, starts_with};

verus! {

broadcast use vstd::utf8::group_utf8_lib;

/// Most chunks one triage scans.
pub const MAX_CHUNKS: usize = 64;

/// Bytes of document text shown with each hit (before line snapping).
pub const SNIPPET_BYTES: usize = 256;

/// Largest number of hits one triage returns.
pub const MAX_HITS_CAP: usize = 1000;

/// IEEE-754 bits of the double 10.0.
pub const TEN_BITS: u64 = 0x4024_0000_0000_0000;

/// IEEE-754 bits of the double -0.0.
pub const NEG_ZERO_BITS: u64 = 0x8000_0000_0000_0000;

/// A relevance score as the model reported it: the IEEE-754 bits of the
/// double and its decimal rendering (Rust's `{}` of that double).
pub struct Score {
    pub bits: u64,
    pub text: String,
}

/// The fields of one region of a model reply, each `None` when the reply
/// lacks it or gives it with the wrong JSON type (`line_start`/`line_end`
/// must be non-negative integers, `score` a number, `note` a string).
pub struct RegionFields {
    pub line_start: Option<u64>,
    pub line_end: Option<u64>,
    pub score: Option<Score>,
    pub note: Option<String>,
}

/// One validated region of a chunk, in document coordinates.
pub struct Hit {
    pub score: Score,
    pub note: String,
    /// First line, 1-based, counted from the start of the document.
    pub line_start: usize,
    pub line_end: usize,
    pub byte_start: usize,
    /// End of the region's last line.
    pub byte_end: usize,
    pub snippet: String,
}

/// The abstract value of a hit.
pub struct HitModel {
    pub key: u64,
    pub score_text: Seq<char>,
    pub note: Seq<char>,
    pub line_start: int,
    pub line_end: int,
    pub byte_start: int,
    pub byte_end: int,
    pub snippet: Seq<char>,
}

/// Ranking key of a valid score: the order of `f64::total_cmp`, in which
/// -0.0 sorts just below +0.0 and non-negative doubles follow their bits.
pub open spec fn score_key(bits: u64) -> u64 {
    if bits == NEG_ZERO_BITS || bits == u64::MAX {
        0
    } else {
        (bits + 1) as u64
    }
}

/// The double with these bits is finite and lies in `0.0..=10.0`: the
/// non-negative doubles up to 10.0 are exactly the bit patterns up to that
/// of 10.0, and -0.0 compares equal to 0.0.
pub open spec fn score_in_range(bits: u64) -> bool {
    bits <= TEN_BITS || bits == NEG_ZERO_BITS
}

/// The double with bits `a` comes before the one with bits `b` in
/// `f64::total_cmp`, for doubles in `-0.0..=10.0`: -0.0 comes first, and
/// non-negative doubles are ordered as their bit patterns.
pub open spec fn score_before(a: u64, b: u64) -> bool {
    if a == NEG_ZERO_BITS {
        b != NEG_ZERO_BITS
    } else {
        b != NEG_ZERO_BITS && a < b
    }
}

/// Ranking keys follow scores exactly: among valid scores, a score that
/// comes before another (in `f64::total_cmp`) has a smaller key, and equal
/// keys mean equal scores. So a higher score always ranks first, and only
/// equal scores tie.
pub proof fn law_keys_follow_scores(a: u64, b: u64)
    requires
        score_in_range(a),
        score_in_range(b),
    ensures
        score_before(a, b) ==> score_key(a) < score_key(b),
        score_key(a) == score_key(b) ==> a == b,
{
}

impl View for Hit {
    type V = HitModel;

    open spec fn view(&self) -> HitModel {
        HitModel {
            key: score_key(self.score.bits),
            score_text: self.score.text@,
            note: self.note@,
            line_start: self.line_start as int,
            line_end: self.line_end as int,
            byte_start: self.byte_start as int,
            byte_end: self.byte_end as int,
            snippet: self.snippet@,
        }
    }
}

// ----- snippets -----

/// Start of the snippet for a region starting at byte `p`.
pub open spec fn snippet_start(b: Seq<u8>, p: int) -> int {
    floor_boundary(b, if p < b.len() { p } else { b.len() as int })
}

/// Position just past the last newline in `b[s..e]`, or `s` if none.
pub open spec fn after_last_newline(b: Seq<u8>, s: int, e: int) -> int
    decreases e - s,
{
    if e <= s {
        s
    } else if b[e - 1] == 10u8 {
        e
    } else {
        after_last_newline(b, s, e - 1)
    }
}

/// End of the snippet that starts at `s`: `SNIPPET_BYTES` on (floored to a
/// character boundary, clamped to the text), cut back to the end of the
/// last complete line when the window holds a newline.
pub open spec fn snippet_end(b: Seq<u8>, s: int) -> int {
    let cap = if s + SNIPPET_BYTES < b.len() { s + SNIPPET_BYTES } else { b.len() as int };
    let e0 = floor_boundary(b, cap);
    let k = after_last_newline(b, s, e0);
    if k > s {
        k
    } else {
        e0
    }
}

/// The snippet shown for a region starting at byte `p`.
pub open spec fn snippet_text(b: Seq<u8>, p: int) -> Seq<char> {
    let s = snippet_start(b, p);
    text_of(b, s, snippet_end(b, s))
}

proof fn lemma_after_last_newline(b: Seq<u8>, s: int, e: int)
    requires
        0 <= s <= e <= b.len(),
    ensures
        s <= after_last_newline(b, s, e) <= e,
        after_last_newline(b, s, e) > s ==> b[after_last_newline(b, s, e) - 1] == 10u8,
        forall|q: int| after_last_newline(b, s, e) <= q < e ==> b[q] != 10u8,
    decreases e - s,
{
    if e > s && b[e - 1] != 10u8 {
        lemma_after_last_newline(b, s, e - 1);
    }
}

/// The snippet of a region starting at byte `p`: the text of a window of
/// the document that starts at the character boundary at or before `p`
/// (the document end when `p` lies past it), spans at most
/// `SNIPPET_BYTES` bytes, and ends just after a newline when the window
/// holds one, with no newline between that end and the window's end.
pub proof fn law_snippet_window(b: Seq<u8>, p: int)
    requires
        0 <= p,
        valid_utf8(b),
    ensures
        ({
            let s = snippet_start(b, p);
            let e = snippet_end(b, s);
            let cap = if s + 256 < b.len() { s + 256 } else { b.len() as int };
            let w = floor_boundary(b, cap);
            &&& s <= p || s == b.len()
            &&& at_boundary(b, s) && forall|j: int| s < j <= p && j <= b.len() ==> !at_boundary(b, j)
            &&& s <= e <= w <= s + 256 && w <= b.len()
            &&& snippet_text(b, p) == decode_utf8(b.subrange(s, e))
            &&& (e == w || (e > s && b[e - 1] == 10u8))
            &&& forall|q: int| e <= q < w ==> b[q] != 10u8
        }),
{
    let x = if p < b.len() { p } else { b.len() as int };
    lemma_floor_boundary(b, x);
    let s = snippet_start(b, p);
    let cap = if s + 256 < b.len() { s + 256 } else { b.len() as int };
    lemma_floor_boundary(b, cap);
    lemma_floor_boundary_ge(b, cap, s);
    let w = floor_boundary(b, cap);
    lemma_after_last_newline(b, s, w);
    assert forall|j: int| s < j <= p && j <= b.len() implies !at_boundary(b, j) by {
        if at_boundary(b, j) {
            lemma_floor_boundary_ge(b, x, j);
        }
    }
}

/// The text shown with a hit: from the character boundary at or before
/// `byte_start`, about `SNIPPET_BYTES` bytes, ending at a line end when the
/// window holds one. Empty at or past the end of the document.
pub fn snippet_for(doc: &str, byte_start: usize) -> (s: String)
    ensures
        s@ == snippet_text(doc.spec_bytes(), byte_start as int),
{
    let b = doc.as_bytes();
    let ghost bs = b@;
    let len = b.len();
    let p = if byte_start < len { byte_start } else { len };
    let start = floor_char_boundary(b, p);
    proof {
        lemma_floor_boundary(bs, p as int);
    }
    let cap = if SNIPPET_BYTES < len - start { start + SNIPPET_BYTES } else { len };
    let end0 = floor_char_boundary(b, cap);
    proof {
        lemma_floor_boundary(bs, cap as int);
        lemma_floor_boundary_ge(bs, cap as int, start as int);
    }
    let mut k = end0;
    while k > start && b[k - 1] != 10u8
        invariant
            start <= k <= end0 <= len == bs.len(),
            bs == b@,
            after_last_newline(bs, start as int, k as int) == after_last_newline(
                bs,
                start as int,
                end0 as int,
            ),
        decreases k,
    {
        k = k - 1;
    }
    let end = if k > start { k } else { end0 };
    proof {
        if k > start {
            lemma_after_ascii_is_boundary(bs, k as int);
        }
    }
    str_range_to_string(doc, start, end)
}


// ----- regions -----

/// What a chunk handed to `region_hits` satisfies: its offsets are ordered
/// within the document and its line starts increase within it.
pub open spec fn chunk_shape(b: Seq<u8>, c: Chunk) -> bool {
    &&& c.start <= c.exclusive_start <= c.end <= b.len()
    &&& forall|k: int| 0 <= k < c.line_starts@.len() ==> c.start <= #[trigger] c.line_starts@[k] < c.end
    &&& forall|k: int, l: int|
        0 <= k < l < c.line_starts@.len() ==> #[trigger] c.line_starts@[k] < #[trigger] c.line_starts@[l]
}

/// The hit a region yields, if it is valid: lines 1-based within the chunk
/// with `line_start <= line_end <= lines of the chunk`, a score in
/// `0..=10`, a non-empty note, and a first line inside the exclusive zone.
pub open spec fn region_model(b: Seq<u8>, c: Chunk, lines_before: int, r: RegionFields) -> Option<HitModel> {
    match (r.line_start, r.line_end, r.score, r.note) {
        (Some(ls), Some(le), Some(sc), Some(note)) => {
            let n = c.line_starts@.len();
            if ls < 1 || le > n || ls > le || !score_in_range(sc.bits) || note@.len() == 0 {
                None
            } else if c.line_starts@[ls - 1] < c.exclusive_start {
                None
            } else {
                let bs = c.line_starts@[ls - 1] as int;
                Some(
                    HitModel {
                        key: score_key(sc.bits),
                        score_text: sc.text@,
                        note: note@,
                        line_start: lines_before + ls,
                        line_end: lines_before + le,
                        byte_start: bs,
                        byte_end: if le < n { c.line_starts@[le as int] as int } else { c.end as int },
                        snippet: snippet_text(b, bs),
                    },
                )
            }
        },
        _ => None,
    }
}

/// Which regions become hits, and where: a region yields a hit exactly
/// when it has all four fields, `1 <= line_start <= line_end <= ` the
/// chunk's line count, a score that is -0.0 or a double in `0.0..=10.0`, a
/// non-empty note, and a first line that starts in the exclusive zone; the
/// hit's lines are the region's shifted by `lines_before`, it starts where
/// its first line starts and ends where the line after its last starts (or
/// at the chunk end), with the region's note and score text.
pub proof fn law_region_validity(b: Seq<u8>, c: Chunk, lines_before: int, r: RegionFields)
    ensures
        ({
            let n = c.line_starts@.len();
            region_model(b, c, lines_before, r) is Some <==> (r.line_start is Some && r.line_end is Some && r.score is Some
                && r.note is Some && 1 <= r.line_start.unwrap() && r.line_start.unwrap() <= r.line_end.unwrap()
                && r.line_end.unwrap() <= n && (r.score.unwrap().bits <= 0x4024_0000_0000_0000u64
                || r.score.unwrap().bits == 0x8000_0000_0000_0000u64) && r.note.unwrap()@.len() > 0
                && c.line_starts@[r.line_start.unwrap() - 1] >= c.exclusive_start)
        }),
        region_model(b, c, lines_before, r) is Some ==> ({
            let h = region_model(b, c, lines_before, r).unwrap();
            let ls = r.line_start.unwrap() as int;
            let le = r.line_end.unwrap() as int;
            &&& h.line_start == lines_before + ls && h.line_end == lines_before + le
            &&& h.byte_start == c.line_starts@[ls - 1]
            &&& h.byte_end == if le < c.line_starts@.len() { c.line_starts@[le] as int } else { c.end as int }
            &&& h.note == r.note.unwrap()@ && h.score_text == r.score.unwrap().text@
            &&& h.key == score_key(r.score.unwrap().bits)
            &&& h.snippet == snippet_text(b, h.byte_start)
        }),
{
}

/// The hits of the valid regions among `rs`, in reply order.
pub open spec fn valid_models(b: Seq<u8>, c: Chunk, lines_before: int, rs: Seq<RegionFields>) -> Seq<HitModel>
    decreases rs.len(),
{
    if rs.len() == 0 {
        Seq::empty()
    } else {
        let prev = valid_models(b, c, lines_before, rs.drop_last());
        match region_model(b, c, lines_before, rs.last()) {
            Some(h) => prev.push(h),
            None => prev,
        }
    }
}

/// The first `n` entries of `s` (all of `s` when it is shorter).
pub open spec fn first_n<A>(s: Seq<A>, n: int) -> Seq<A> {
    if s.len() <= n {
        s
    } else {
        s.take(n)
    }
}

/// The hits one chunk contributes: the first `max_regions` valid regions of
/// its reply; none when the reply has no `regions` array.
pub open spec fn chunk_hit_models(
    b: Seq<u8>,
    c: Chunk,
    lines_before: int,
    regions: Option<Vec<RegionFields>>,
    max_regions: int,
) -> Seq<HitModel> {
    match regions {
        Some(rs) => first_n(valid_models(b, c, lines_before, rs@), max_regions),
        None => Seq::empty(),
    }
}

/// A strictly increasing list of offsets in `[s, e)` has at most `e - s`
/// entries.
proof fn lemma_increasing_len(ls: Seq<usize>, s: int, e: int)
    requires
        forall|k: int| 0 <= k < ls.len() ==> s <= #[trigger] ls[k] < e,
        forall|k: int, l: int| 0 <= k < l < ls.len() ==> #[trigger] ls[k] < #[trigger] ls[l],
    ensures
        ls.len() <= if e - s > 0 { e - s } else { 0 },
    decreases ls.len(),
{
    if ls.len() > 0 {
        let init = ls.drop_last();
        assert forall|k: int, l: int| 0 <= k < l < init.len() implies #[trigger] init[k] < #[trigger] init[l] by {
            assert(init[k] == ls[k] && init[l] == ls[l]);
        }
        lemma_increasing_len(init, s, ls.last() as int);
        if init.len() > 0 {
            assert(init[0] == ls[0]);
        }
    }
}

fn clone_score(sc: &Score) -> (r: Score)
    ensures
        r.bits == sc.bits,
        r.text@ == sc.text@,
{
    Score { bits: sc.bits, text: sc.text.clone() }
}

/// The hit region `r` of chunk `c` yields, if it is valid.
fn region_from(c: &Chunk, lines_before: usize, doc: &str, r: &RegionFields) -> (h: Option<Hit>)
    requires
        chunk_shape(doc.spec_bytes(), *c),
        lines_before + c.line_starts@.len() <= usize::MAX,
    ensures
        match h {
            Some(h) => region_model(doc.spec_bytes(), *c, lines_before as int, *r) == Some(h@),
            None => region_model(doc.spec_bytes(), *c, lines_before as int, *r) is None,
        },
{
    let ls = match r.line_start { Some(v) => v, None => return None };
    let le = match r.line_end { Some(v) => v, None => return None };
    let sc = match &r.score { Some(v) => v, None => return None };
    let note = match &r.note { Some(v) => v, None => return None };
    let n = c.line_starts.len();
    proof {
        lemma_increasing_len(c.line_starts@, c.start as int, c.end as int);
    }
    if ls < 1 || le > n as u64 || ls > le {
        return None;
    }
    if !(sc.bits <= TEN_BITS || sc.bits == NEG_ZERO_BITS) {
        return None;
    }
    if note.as_str().is_empty() {
        return None;
    }
    let byte_start = c.line_starts[(ls - 1) as usize];
    if byte_start < c.exclusive_start {
        return None;
    }
    let byte_end = if (le as usize) < n { c.line_starts[le as usize] } else { c.end };
    let snippet = snippet_for(doc, byte_start);
    Some(Hit {
        score: clone_score(sc),
        note: note.clone(),
        line_start: lines_before + ls as usize,
        line_end: lines_before + le as usize,
        byte_start,
        byte_end,
        snippet,
    })
}

/// The hits of a chunk's reply: each valid region (see `region_model`)
/// mapped to document coordinates, in reply order, at most `max_regions`
/// of them; no hits when the reply has no `regions` array.
pub fn region_hits(
    chunk: &Chunk,
    lines_before: usize,
    doc: &str,
    regions: &Option<Vec<RegionFields>>,
    max_regions: usize,
) -> (hits: Vec<Hit>)
    requires
        chunk_shape(doc.spec_bytes(), *chunk),
        lines_before + chunk.line_starts@.len() <= usize::MAX,
    ensures
        hits@.map_values(|h: Hit| h@) == chunk_hit_models(
            doc.spec_bytes(),
            *chunk,
            lines_before as int,
            *regions,
            max_regions as int,
        ),
{
    let ghost b = doc.spec_bytes();
    let mut hits: Vec<Hit> = Vec::new();
    let rs = match regions {
        Some(rs) => rs,
        None => return hits,
    };
    let mut i: usize = 0;
    while i < rs.len()
        invariant
            i <= rs@.len(),
            b == doc.spec_bytes(),
            chunk_shape(b, *chunk),
            lines_before + chunk.line_starts@.len() <= usize::MAX,
            hits@.map_values(|h: Hit| h@) == first_n(
                valid_models(b, *chunk, lines_before as int, rs@.take(i as int)),
                max_regions as int,
            ),
        decreases rs@.len() - i,
    {
        let ghost prev = valid_models(b, *chunk, lines_before as int, rs@.take(i as int));
        assert(rs@.take(i + 1).drop_last() =~= rs@.take(i as int));
        assert(rs@.take(i + 1).last() == rs@[i as int]);
        let h = region_from(chunk, lines_before, doc, &rs[i]);
        match h {
            Some(h) => {
                if hits.len() < max_regions {
                    let ghost old_hits = hits@;
                    hits.push(h);
                    assert(hits@.map_values(|h: Hit| h@) =~= old_hits.map_values(|h: Hit| h@).push(
                        h@,
                    ));
                }
            },
            None => {},
        }
        i = i + 1;
    }
    assert(rs@.take(rs@.len() as int) =~= rs@);
    hits
}


// ----- the scan -----

/// Error for a scan range that holds no bytes.
pub open spec fn nothing_to_scan_message() -> Seq<char> {
    "nothing to scan (offset/limit leave an empty range)"@
}

/// Error for a document that the chunk cap does not let one triage cover.
pub open spec fn too_large_message(ended_at: int, total: int) -> Seq<char> {
    "document too large for one triage (64 chunks, ended at byte "@ + decimal(ended_at as nat)
        + " of "@ + decimal(total as nat) + "); narrow with offset/limit"@
}

/// The chunks of one triage: those of `split` with the chunk cap, unless
/// the range is empty or the cap stops the scan before the range end.
pub fn prepare<'a>(doc: &'a str, offset: usize, limit: Option<usize>, chunk_bytes: usize) -> (r: Result<
    Vec<Chunk<'a>>,
    String,
>)
    ensures
        ({
            let b = doc.spec_bytes();
            let hi = scan_end(b, offset as int, limit);
            match r {
                Ok(cs) => {
                    &&& split_result(b, offset as int, limit, chunk_bytes as int, MAX_CHUNKS as int, cs@)
                    &&& cs@.len() > 0
                    &&& !(cs@.len() == MAX_CHUNKS && cs@.last().end < hi)
                },
                Err(msg) => exists|cs: Seq<Chunk<'a>>|
                    split_result(b, offset as int, limit, chunk_bytes as int, MAX_CHUNKS as int, cs)
                        && ((cs.len() == 0 && msg@ == nothing_to_scan_message()) || (cs.len()
                        == MAX_CHUNKS && cs.last().end < hi && msg@ == too_large_message(
                        cs.last().end as int,
                        b.len() as int,
                    ))),
            }
        }),
{
    let b = doc.as_bytes();
    let total = b.len();
    let lim = match limit {
        Some(l) => l,
        None => usize::MAX,
    };
    let req = if offset >= total {
        total
    } else if lim >= total - offset {
        total
    } else {
        offset + lim
    };
    let range_end = floor_char_boundary(b, req);
    let chunks = split(doc, offset, limit, chunk_bytes, MAX_CHUNKS);
    if chunks.len() == 0 {
        let mut msg = String::new();
        msg.append("nothing to scan (offset/limit leave an empty range)");
        return Err(msg);
    }
    let last_end = chunks[chunks.len() - 1].end;
    if chunks.len() == MAX_CHUNKS && last_end < range_end {
        let mut msg = String::new();
        msg.append("document too large for one triage (64 chunks, ended at byte ");
        let a = usize_to_string(last_end);
        msg.append(a.as_str());
        msg.append(" of ");
        let t = usize_to_string(total);
        msg.append(t.as_str());
        msg.append("); narrow with offset/limit");
        return Err(msg);
    }
    Ok(chunks)
}


// ----- prompts -----

/// System prompt text before the first line of the chunk's own zone.
pub const PROMPT_HEAD: &'static str = "Find the parts of this document chunk that are relevant to the query.\nRespond with a JSON object only: {\"regions\": [{\"line_start\": n, \"line_end\": n, \"score\": s, \"note\": t}]}\n- line numbers are 1-based within the chunk, line_end >= line_start\n- lines before line ";

/// System prompt text between the zone's first line and the region cap.
pub const PROMPT_MIDDLE: &'static str = " are repeated context from the previous chunk, for orientation only: never report them, and never use them to skip content; report relevant regions in the remaining lines even if they continue a topic visible in the context\n- first interpret the query: a query about specific things (e.g. \"mentions of X\", \"where does X appear\") asks for mentions; a query about a theme, property, question, or subject (e.g. \"the character of X\", \"views on X\") asks for treatments of it\n- a mention query: a region qualifies only if it directly mentions the queried things; never report a region that merely touches their general theme\n- a theme query: a region qualifies if it bears on the queried subject, by describing, discussing, or clearly exemplifying it, even when the passage's main topic is something else; never report a region that merely grazes the subject\n- breadth: if the query explicitly asks for anything even possibly or tangentially relevant, include peripheral bearings; otherwise include only clearly non-incidental bearings\n- report at most ";

/// System prompt text after the region cap.
pub const PROMPT_TAIL: &'static str = " regions, most relevant first, and never more than the number of qualifying regions you found; padding with weak regions is wrong\n- if the chunk contains no qualifying region, respond with {\"regions\": []}\n- score: 1-10, ordinal priority within this document, not calibrated confidence; 1 is still a real, passing mention of the queried subject\n- note: at most 15 words describing why the region matters; do not paraphrase the text\n";

/// The system prompt for a chunk whose exclusive zone starts at chunk line
/// `exclusive_line` (1-based), asking for at most `max_hits` regions.
pub open spec fn system_prompt_text(exclusive_line: nat, max_hits: nat) -> Seq<char> {
    PROMPT_HEAD@ + decimal(exclusive_line) + PROMPT_MIDDLE@ + decimal(max_hits) + PROMPT_TAIL@
}

pub fn system_prompt(exclusive_line: usize, max_hits: usize) -> (s: String)
    ensures
        s@ == system_prompt_text(exclusive_line as nat, max_hits as nat),
{
    let mut s = String::new();
    s.append(PROMPT_HEAD);
    let e = usize_to_string(exclusive_line);
    s.append(e.as_str());
    s.append(PROMPT_MIDDLE);
    let m = usize_to_string(max_hits);
    s.append(m.as_str());
    s.append(PROMPT_TAIL);
    s
}

/// `k` spaces.
pub open spec fn spaces(k: nat) -> Seq<char>
    decreases k,
{
    if k == 0 {
        Seq::empty()
    } else {
        spaces((k - 1) as nat) + " "@
    }
}

/// `s` right-aligned in a field of `width` characters (Rust's `{:width$}`
/// for a number).
pub open spec fn pad_left(s: Seq<char>, width: nat) -> Seq<char> {
    if s.len() >= width {
        s
    } else {
        spaces((width - s.len()) as nat) + s
    }
}

/// Index of the first newline in `b`, or its length.
pub open spec fn first_newline(b: Seq<u8>) -> int
    decreases b.len(),
{
    if b.len() == 0 {
        0
    } else if b[0] == 10u8 {
        0
    } else {
        1 + first_newline(b.drop_first())
    }
}

/// The text `tb` with each of its lines (newline included) prefixed by its
/// 1-based number, counted from `first`, padded to `width`, and a tab.
pub open spec fn numbered_lines(tb: Seq<u8>, first: nat, width: nat) -> Seq<char>
    decreases tb.len(),
{
    if tb.len() == 0 {
        Seq::empty()
    } else {
        let k = first_newline(tb);
        proof {
            lemma_first_newline(tb);
        }
        let piece_end = if k < tb.len() { k + 1 } else { tb.len() as int };
        pad_left(decimal(first), width) + "\t"@ + decode_utf8(tb.subrange(0, piece_end))
            + numbered_lines(tb.subrange(piece_end, tb.len() as int), first + 1, width)
    }
}

/// The user prompt for chunk text `tb` with `n` lines.
pub open spec fn user_prompt_text(query: Seq<char>, context: Option<Seq<char>>, tb: Seq<u8>, n: nat) -> Seq<char> {
    let ctx = match context {
        Some(c) => "Document context (orientation only; the chunk text is authoritative):\n"@ + c + "\n"@,
        None => Seq::empty(),
    };
    "Query: "@ + query + "\n"@ + ctx + "Chunk:\n"@ + numbered_lines(tb, 1, decimal(n).len())
}

pub proof fn lemma_first_newline(b: Seq<u8>)
    ensures
        0 <= first_newline(b) <= b.len(),
        first_newline(b) < b.len() ==> b[first_newline(b)] == 10u8,
        forall|q: int| 0 <= q < first_newline(b) ==> b[q] != 10u8,
    decreases b.len(),
{
    if b.len() > 0 && b[0] != 10u8 {
        lemma_first_newline(b.drop_first());
        assert forall|q: int| 0 <= q < first_newline(b) implies b[q] != 10u8 by {
            if q > 0 {
                assert(b[q] == b.drop_first()[q - 1]);
            }
        }
    }
}

/// Appends `k` spaces.
fn push_spaces(s: &mut String, k: usize)
    ensures
        final(s)@ == old(s)@ + spaces(k as nat),
{
    let mut i: usize = 0;
    while i < k
        invariant
            i <= k,
            s@ == old(s)@ + spaces(i as nat),
        decreases k - i,
    {
        s.append(" ");
        assert(spaces((i + 1) as nat) == spaces(i as nat) + " "@);
        i = i + 1;
    }
}

/// Appends `n` right-aligned in a field of `width` characters.
fn push_padded(out: &mut String, n: usize, width: usize)
    ensures
        final(out)@ == old(out)@ + pad_left(decimal(n as nat), width as nat),
{
    let num = usize_to_string(n);
    let len = num.as_str().unicode_len();
    if len < width {
        push_spaces(out, width - len);
    }
    out.append(num.as_str());
}

/// Position of the first newline at or after `pos`, or the length.
pub fn find_newline(b: &[u8], pos: usize) -> (k: usize)
    requires
        pos <= b@.len(),
    ensures
        k - pos == first_newline(b@.subrange(pos as int, b@.len() as int)),
        pos <= k <= b@.len(),
        k < b@.len() ==> b@[k as int] == 10u8,
        forall|q: int| pos <= q < k ==> b@[q] != 10u8,
{
    let len = b.len();
    let mut k = pos;
    while k < len && b[k] != 10u8
        invariant
            pos <= k <= len == b@.len(),
            forall|q: int| pos <= q < k ==> b@[q] != 10u8,
        decreases len - k,
    {
        k = k + 1;
    }
    let ghost rest = b@.subrange(pos as int, len as int);
    proof {
        lemma_first_newline(rest);
        assert forall|q: int| 0 <= q < k - pos implies rest[q] != 10u8 by {
            assert(rest[q] == b@[pos + q]);
        }
        if k < len {
            assert(rest[k - pos] == b@[k as int]);
        }
    }
    k
}

/// One step of `numbered_lines`.
proof fn lemma_numbered_lines_step(t: Seq<u8>, pos: int, k: int, first: nat, width: nat)
    requires
        0 <= pos < t.len(),
        k - pos == first_newline(t.subrange(pos, t.len() as int)),
        pos <= k <= t.len(),
    ensures
        ({
            let pe = if k < t.len() { k + 1 } else { t.len() as int };
            numbered_lines(t.subrange(pos, t.len() as int), first, width) == pad_left(decimal(first), width)
                + "\t"@ + decode_utf8(t.subrange(pos, pe)) + numbered_lines(
                t.subrange(pe, t.len() as int),
                first + 1,
                width,
            )
        }),
{
    let rest = t.subrange(pos, t.len() as int);
    let pe = if k < t.len() { k + 1 } else { t.len() as int };
    assert(rest.subrange(0, pe - pos) =~= t.subrange(pos, pe));
    assert(rest.subrange(pe - pos, rest.len() as int) =~= t.subrange(pe, t.len() as int));
}

/// Appends `text` with each line numbered (see `numbered_lines`).
fn push_numbered_lines(out: &mut String, text: &str, width: usize)
    requires
        text.spec_bytes().len() < usize::MAX,
    ensures
        final(out)@ == old(out)@ + numbered_lines(text.spec_bytes(), 1, width as nat),
{
    let tb = text.as_bytes();
    let ghost t = tb@;
    let len = tb.len();
    let mut pos: usize = 0;
    let mut line: usize = 1;
    assert(t.subrange(0, len as int) =~= t);
    while pos < len
        invariant
            t == tb@,
            t == text.spec_bytes(),
            len == t.len() < usize::MAX,
            pos <= len,
            1 <= line <= pos + 1,
            at_boundary(t, pos as int),
            out@ + numbered_lines(t.subrange(pos as int, len as int), line as nat, width as nat) == old(
                out,
            )@ + numbered_lines(t, 1, width as nat),
        decreases len - pos,
    {
        let k = find_newline(tb, pos);
        let piece_end = if k < len { k + 1 } else { len };
        proof {
            if k < len {
                lemma_after_ascii_is_boundary(t, piece_end as int);
            }
            lemma_numbered_lines_step(t, pos as int, k as int, line as nat, width as nat);
        }
        let ghost before = out@;
        push_padded(out, line, width);
        out.append("\t");
        let piece = str_range_to_string(text, pos, piece_end);
        out.append(piece.as_str());
        assert(out@ == before + pad_left(decimal(line as nat), width as nat) + "\t"@ + decode_utf8(
            t.subrange(pos as int, piece_end as int),
        ));
        pos = piece_end;
        line = line + 1;
    }
    assert(t.subrange(len as int, len as int) =~= Seq::<u8>::empty());
}

/// The system and user prompts for one chunk: the user prompt quotes the
/// query, the optional document context, and the chunk text with numbered
/// lines; the system prompt names the chunk's first exclusive line.
pub fn chunk_prompt(query: &str, context: Option<&str>, c: &Chunk, max_hits: usize) -> (r: (String, String))
    requires
        c.context_lines < usize::MAX,
        c.text.spec_bytes().len() < usize::MAX,
    ensures
        r.0@ == system_prompt_text((c.context_lines + 1) as nat, max_hits as nat),
        r.1@ == user_prompt_text(
            query@,
            match context {
                Some(x) => Some(x@),
                None => None,
            },
            c.text.spec_bytes(),
            c.line_starts@.len(),
        ),
{
    let system = system_prompt(c.context_lines + 1, max_hits);
    let n = c.line_starts.len();
    let digits = usize_to_string(n);
    let width = digits.as_str().unicode_len();
    let mut user = String::new();
    user.append("Query: ");
    user.append(query);
    user.append("\n");
    match context {
        Some(ctx) => {
            user.append("Document context (orientation only; the chunk text is authoritative):\n");
            user.append(ctx);
            user.append("\n");
        },
        None => {},
    }
    user.append("Chunk:\n");
    push_numbered_lines(&mut user, c.text, width);
    (system, user)
}

/// The hit cap of one triage: `max_hits` clamped to `1..=MAX_HITS_CAP`.
pub fn clamp_max_hits(max_hits: usize) -> (r: usize)
    ensures
        r == if max_hits < 1 { 1 } else if max_hits > MAX_HITS_CAP { MAX_HITS_CAP } else { max_hits },
{
    if max_hits < 1 {
        1
    } else if max_hits > MAX_HITS_CAP {
        MAX_HITS_CAP
    } else {
        max_hits
    }
}

/// Output budget of one chunk call: 128 tokens plus 64 per allowed hit.
pub fn max_tokens_for(max_hits: usize) -> (r: u32)
    requires
        max_hits <= MAX_HITS_CAP,
    ensures
        r == 128 + 64 * max_hits,
{
    (128 + 64 * max_hits) as u32
}


// ----- the report -----

/// The outcome of one chunk's model call.
pub enum ChunkReply {
    /// The call or the parse of its reply failed; the chunk is untriaged.
    Failed { reason: String },
    /// The reply parsed; `regions` is `None` when it has no `regions` array.
    Replied { regions: Option<Vec<RegionFields>> },
}

/// Number of newlines in `b[..p]`.
pub open spec fn newlines_before(b: Seq<u8>, p: int) -> nat
    decreases p,
{
    if p <= 0 {
        0
    } else {
        newlines_before(b, p - 1) + if b[p - 1] == 10u8 { 1nat } else { 0nat }
    }
}

/// The hits one chunk's reply yields.
pub open spec fn reply_hits(b: Seq<u8>, c: Chunk, reply: ChunkReply, max_hits: int) -> Seq<HitModel> {
    match reply {
        ChunkReply::Failed { .. } => Seq::empty(),
        ChunkReply::Replied { regions } => chunk_hit_models(
            b,
            c,
            newlines_before(b, c.start as int) as int,
            regions,
            max_hits,
        ),
    }
}

/// The hits of the first `n` chunks, in scan order.
pub open spec fn all_hits(b: Seq<u8>, cs: Seq<Chunk>, rs: Seq<ChunkReply>, max_hits: int, n: int) -> Seq<
    HitModel,
>
    decreases n,
{
    if n <= 0 {
        Seq::empty()
    } else {
        all_hits(b, cs, rs, max_hits, n - 1) + reply_hits(b, cs[n - 1], rs[n - 1], max_hits)
    }
}

/// One report line per untriaged chunk among the first `n`, in scan order.
pub open spec fn untriaged_lines(cs: Seq<Chunk>, rs: Seq<ChunkReply>, n: int) -> Seq<char>
    decreases n,
{
    if n <= 0 {
        Seq::empty()
    } else {
        untriaged_lines(cs, rs, n - 1) + match rs[n - 1] {
            ChunkReply::Failed { reason } => "   untriaged: bytes "@ + decimal(cs[n - 1].start as nat)
                + ".."@ + decimal(cs[n - 1].end as nat) + " ("@ + reason@ + ")\n"@,
            ChunkReply::Replied { .. } => Seq::empty(),
        }
    }
}

pub open spec fn hit_keys(hs: Seq<HitModel>) -> Seq<u64> {
    hs.map_values(|h: HitModel| h.key)
}

/// The first `n` hits in the order of a stable sort by score, highest first.
pub open spec fn top_hits(hs: Seq<HitModel>, n: int) -> Seq<HitModel> {
    Seq::new(
        (if n < hs.len() { n } else { hs.len() as int }) as nat,
        |k: int| hs[entry_at(hit_keys(hs), k)],
    )
}

/// Each line of `sb` (Rust's `str::lines`: split at `\n`, a `\r` before
/// it dropped, no empty line after a final `\n`) quoted as `   |line\n`.
pub open spec fn quoted_lines(sb: Seq<u8>) -> Seq<char>
    decreases sb.len(),
{
    if sb.len() == 0 {
        Seq::empty()
    } else {
        let k = first_newline(sb);
        proof {
            lemma_first_newline(sb);
        }
        if k >= sb.len() {
            "   |"@ + decode_utf8(sb) + "\n"@
        } else {
            let e = if k > 0 && sb[k - 1] == 13u8 { k - 1 } else { k };
            "   |"@ + decode_utf8(sb.subrange(0, e)) + "\n"@ + quoted_lines(sb.subrange(k + 1, sb.len() as int))
        }
    }
}

/// How hit number `pos` (1-based) is rendered.
pub open spec fn hit_text(pos: nat, h: HitModel) -> Seq<char> {
    decimal(pos) + ". ["@ + h.score_text + "] "@ + h.note + "\n"@ + "   line "@ + decimal(
        h.line_start as nat,
    ) + ".."@ + decimal(h.line_end as nat) + ", bytes "@ + decimal(h.byte_start as nat) + ".."@
        + decimal(h.byte_end as nat) + "\n"@ + quoted_lines(encode_utf8(h.snippet))
}

/// The first `n` hits of `top`, rendered.
pub open spec fn hits_text(top: Seq<HitModel>, n: int) -> Seq<char>
    decreases n,
{
    if n <= 0 {
        Seq::empty()
    } else {
        hits_text(top, n - 1) + hit_text(n as nat, top[n - 1])
    }
}

/// The triage report for the chunks `cs` of `b`, given each chunk's reply.
pub open spec fn report_text(
    b: Seq<u8>,
    query: Seq<char>,
    cs: Seq<Chunk>,
    rs: Seq<ChunkReply>,
    max_hits: int,
) -> Seq<char> {
    let top = top_hits(all_hits(b, cs, rs, max_hits, cs.len() as int), max_hits);
    "Triage for '"@ + query + "': "@ + decimal(top.len()) + " hit(s), scanned "@ + decimal(cs.len())
        + " chunk(s), bytes "@ + decimal(cs[0].start as nat) + ".."@ + decimal(cs.last().end as nat)
        + "\n"@ + untriaged_lines(cs, rs, cs.len() as int) + hits_text(top, top.len() as int)
}

fn push_usize(out: &mut String, n: usize)
    ensures
        final(out)@ == old(out)@ + decimal(n as nat),
{
    let d = usize_to_string(n);
    out.append(d.as_str());
}

/// One step of `quoted_lines`.
proof fn lemma_quoted_lines_step(t: Seq<u8>, pos: int, k: int)
    requires
        0 <= pos < t.len(),
        k - pos == first_newline(t.subrange(pos, t.len() as int)),
        pos <= k <= t.len(),
    ensures
        ({
            let rest = t.subrange(pos, t.len() as int);
            if k >= t.len() {
                quoted_lines(rest) == "   |"@ + decode_utf8(rest) + "\n"@
            } else {
                let e = if k > pos && t[k - 1] == 13u8 { k - 1 } else { k };
                quoted_lines(rest) == "   |"@ + decode_utf8(t.subrange(pos, e)) + "\n"@ + quoted_lines(
                    t.subrange(k + 1, t.len() as int),
                )
            }
        }),
{
    let rest = t.subrange(pos, t.len() as int);
    lemma_first_newline(rest);
    if k < t.len() {
        let e = if k > pos && t[k - 1] == 13u8 { k - 1 } else { k };
        if k > pos {
            assert(rest[k - pos - 1] == t[k - 1]);
        }
        assert(rest.subrange(0, e - pos) =~= t.subrange(pos, e));
        assert(rest.subrange(k - pos + 1, rest.len() as int) =~= t.subrange(k + 1, t.len() as int));
    }
}

/// Appends each line of `text` quoted (see `quoted_lines`).
fn push_quoted_lines(out: &mut String, text: &str)
    ensures
        final(out)@ == old(out)@ + quoted_lines(text.spec_bytes()),
{
    let tb = text.as_bytes();
    let ghost t = tb@;
    let len = tb.len();
    let mut pos: usize = 0;
    assert(t.subrange(0, len as int) =~= t);
    while pos < len
        invariant
            t == tb@,
            t == text.spec_bytes(),
            len == t.len(),
            pos <= len,
            at_boundary(t, pos as int),
            out@ + quoted_lines(t.subrange(pos as int, len as int)) == old(out)@ + quoted_lines(t),
        decreases len - pos,
    {
        let k = find_newline(tb, pos);
        proof {
            lemma_quoted_lines_step(t, pos as int, k as int);
        }
        if k >= len {
            out.append("   |");
            let piece = str_range_to_string(text, pos, len);
            out.append(piece.as_str());
            out.append("\n");
            pos = len;
        } else {
            let e = if k > pos && tb[k - 1] == 13u8 { k - 1 } else { k };
            out.append("   |");
            let piece = str_range_to_string(text, pos, e);
            out.append(piece.as_str());
            out.append("\n");
            proof {
                lemma_after_ascii_is_boundary(t, k + 1);
            }
            pos = k + 1;
        }
    }
    assert(t.subrange(len as int, len as int) =~= Seq::<u8>::empty());
}

/// Appends the rendering of hit number `pos`.
fn push_hit(out: &mut String, pos: usize, h: &Hit)
    ensures
        final(out)@ == old(out)@ + hit_text(pos as nat, h@),
{
    push_usize(out, pos);
    out.append(". [");
    out.append(h.score.text.as_str());
    out.append("] ");
    out.append(h.note.as_str());
    out.append("\n");
    out.append("   line ");
    push_usize(out, h.line_start);
    out.append("..");
    push_usize(out, h.line_end);
    out.append(", bytes ");
    push_usize(out, h.byte_start);
    out.append("..");
    push_usize(out, h.byte_end);
    out.append("\n");
    push_quoted_lines(out, h.snippet.as_str());
}


proof fn lemma_newlines_before_le(b: Seq<u8>, p: int)
    requires
        0 <= p,
    ensures
        newlines_before(b, p) <= p,
    decreases p,
{
    if p > 0 {
        lemma_newlines_before_le(b, p - 1);
    }
}

/// Every chunk of a scan satisfies `chunk_shape`, and its text and line
/// count fit in the document.
pub proof fn lemma_split_chunks_shaped<'a>(
    b: Seq<u8>,
    from: usize,
    limit: Option<usize>,
    chunk_bytes: usize,
    max_chunks: usize,
    cs: Seq<Chunk<'a>>,
)
    requires
        split_result(b, from as int, limit, chunk_bytes as int, max_chunks as int, cs),
        cs.len() > 0,
    ensures
        forall|i: int|
            0 <= i < cs.len() ==> chunk_shape(b, #[trigger] cs[i]) && cs[i].text.spec_bytes().len()
                <= b.len() && cs[i].context_lines <= b.len(),
{
    law_exclusive_zones_tile(b, from, limit, chunk_bytes, max_chunks, cs);
    assert forall|i: int| 0 <= i < cs.len() implies chunk_shape(b, #[trigger] cs[i])
        && cs[i].text.spec_bytes().len() <= b.len() && cs[i].context_lines <= b.len() by {
        let c = cs[i];
        assert(crate::chunk::chunk_contents(
            b,
            crate::chunk::line_start_of(b, from as int),
            scan_end(b, from as int, limit),
            c,
        ));
        lemma_increasing_len(c.line_starts@, c.start as int, c.end as int);
    }
}

/// The hit key of a score, as `score_key` defines it.
fn key_of(bits: u64) -> (k: u64)
    ensures
        k == score_key(bits),
{
    if bits == NEG_ZERO_BITS || bits == u64::MAX {
        0
    } else {
        bits + 1
    }
}

/// The report's first line: the query verbatim, the number of hits shown
/// (all valid hits, capped at `max_hits`), the number of chunks scanned
/// and the scanned byte range, from the first chunk's start to the last
/// chunk's end.
pub proof fn law_report_header(b: Seq<u8>, query: Seq<char>, cs: Seq<Chunk>, rs: Seq<ChunkReply>, max_hits: int)
    requires
        0 <= max_hits,
        cs.len() > 0,
    ensures
        ({
            let hs = all_hits(b, cs, rs, max_hits, cs.len() as int);
            let shown = if max_hits < hs.len() { max_hits } else { hs.len() as int };
            starts_with(
                report_text(b, query, cs, rs, max_hits),
                "Triage for '"@ + query + "': "@ + decimal(shown as nat) + " hit(s), scanned "@ + decimal(cs.len())
                    + " chunk(s), bytes "@ + decimal(cs[0].start as nat) + ".."@ + decimal(cs[cs.len() - 1].end as nat)
                    + "\n"@,
            )
        }),
{
    let hs = all_hits(b, cs, rs, max_hits, cs.len() as int);
    let top = top_hits(hs, max_hits);
    let head = "Triage for '"@ + query + "': "@ + decimal(top.len()) + " hit(s), scanned "@ + decimal(cs.len())
        + " chunk(s), bytes "@ + decimal(cs[0].start as nat) + ".."@ + decimal(cs.last().end as nat) + "\n"@;
    let rest = untriaged_lines(cs, rs, cs.len() as int) + hits_text(top, top.len() as int);
    assert(report_text(b, query, cs, rs, max_hits) =~= head + rest);
    crate::text::lemma_concat_ends(head, rest);
}

// ----- the call -----

/// Hits returned when the caller names no `max_hits`.
pub const DEFAULT_MAX_HITS: usize = 5;

/// The arguments of a triage call.
pub struct TriageArgs {
    /// The stored document to triage.
    pub id: String,
    /// Orientation text given to every chunk's analysis.
    pub context: Option<String>,
    pub max_hits: Option<usize>,
    pub query: String,
    /// Start of the scan, in bytes.
    pub offset: Option<usize>,
    /// Most bytes to scan.
    pub limit: Option<usize>,
}

/// Message for a triage call with an empty query.
pub open spec fn empty_query_message() -> Seq<char> {
    "empty query"@
}

impl TriageArgs {
    /// A triage needs a non-empty query.
    pub fn check(&self) -> (r: Result<(), String>)
        ensures
            match r {
                Ok(()) => self.query@.len() > 0,
                Err(msg) => self.query@.len() == 0 && msg@ == empty_query_message(),
            },
    {
        if self.query.as_str().unicode_len() == 0 {
            let mut msg = String::new();
            msg.append("empty query");
            Err(msg)
        } else {
            Ok(())
        }
    }

    /// Where the scan starts: the offset given, or the start of the document.
    pub fn scan_offset(&self) -> (o: usize)
        ensures
            o == match self.offset {
                Some(v) => v,
                None => 0,
            },
    {
        match self.offset {
            Some(v) => v,
            None => 0,
        }
    }

    /// The hit count asked for: the one given, or `DEFAULT_MAX_HITS`.
    pub fn requested_hits(&self) -> (n: usize)
        ensures
            n == match self.max_hits {
                Some(v) => v,
                None => DEFAULT_MAX_HITS,
            },
    {
        match self.max_hits {
            Some(v) => v,
            None => DEFAULT_MAX_HITS,
        }
    }
}

// ----- laws of a triage -----

/// Where a hit of chunk `c` lies: it starts in the chunk's exclusive zone,
/// ends after it starts and within the chunk, and its lines are ordered.
pub open spec fn hit_in_zone(c: Chunk, h: HitModel) -> bool {
    &&& c.exclusive_start <= h.byte_start < h.byte_end <= c.end
    &&& h.line_start <= h.line_end
}

proof fn lemma_valid_models_in_zone(b: Seq<u8>, c: Chunk, lines_before: int, rs: Seq<RegionFields>)
    requires
        chunk_shape(b, c),
    ensures
        forall|k: int|
            0 <= k < valid_models(b, c, lines_before, rs).len() ==> hit_in_zone(
                c,
                #[trigger] valid_models(b, c, lines_before, rs)[k],
            ),
    decreases rs.len(),
{
    if rs.len() > 0 {
        lemma_valid_models_in_zone(b, c, lines_before, rs.drop_last());
        let prev = valid_models(b, c, lines_before, rs.drop_last());
        match region_model(b, c, lines_before, rs.last()) {
            Some(h) => {
                let r = rs.last();
                let ls = r.line_start.unwrap();
                let le = r.line_end.unwrap();
                let n = c.line_starts@.len();
                assert(c.start <= c.line_starts@[ls - 1] < c.end);
                if le < n {
                    assert(c.line_starts@[ls - 1] < c.line_starts@[le as int]);
                    assert(c.line_starts@[le as int] < c.end);
                }
                assert(hit_in_zone(c, h));
                assert forall|k: int| 0 <= k < prev.push(h).len() implies hit_in_zone(c, #[trigger] prev.push(h)[k]) by {
                    if k < prev.len() {
                        assert(prev.push(h)[k] == prev[k]);
                    }
                }
            },
            None => {},
        }
    }
}

/// Triage keeps only regions that start in their chunk's exclusive zone:
/// every hit a chunk's reply yields starts in that zone and ends within
/// the chunk, and a reply yields at most `max_regions` hits.
pub proof fn law_hits_start_in_exclusive_zone(
    b: Seq<u8>,
    c: Chunk,
    lines_before: int,
    regions: Option<Vec<RegionFields>>,
    max_regions: int,
)
    requires
        chunk_shape(b, c),
        0 <= max_regions,
    ensures
        chunk_hit_models(b, c, lines_before, regions, max_regions).len() <= max_regions,
        forall|k: int|
            0 <= k < chunk_hit_models(b, c, lines_before, regions, max_regions).len() ==> hit_in_zone(
                c,
                #[trigger] chunk_hit_models(b, c, lines_before, regions, max_regions)[k],
            ),
{
    match regions {
        Some(rs) => {
            lemma_valid_models_in_zone(b, c, lines_before, rs@);
            let vm = valid_models(b, c, lines_before, rs@);
            let hs = first_n(vm, max_regions);
            assert forall|k: int| 0 <= k < hs.len() implies hit_in_zone(c, #[trigger] hs[k]) by {
                assert(hs[k] == vm[k]);
            }
        },
        None => {},
    }
}

proof fn lemma_valid_models_filter_map(b: Seq<u8>, c: Chunk, lines_before: int, rs: Seq<RegionFields>)
    ensures
        valid_models(b, c, lines_before, rs) == rs.filter_map(
            |r: RegionFields| region_model(b, c, lines_before, r),
        ),
    decreases rs.len(),
{
    if rs.len() > 0 {
        lemma_valid_models_filter_map(b, c, lines_before, rs.drop_last());
        let f = |r: RegionFields| region_model(b, c, lines_before, r);
        let prev = valid_models(b, c, lines_before, rs.drop_last());
        match region_model(b, c, lines_before, rs.last()) {
            Some(h) => {
                assert(prev.push(h) =~= rs.drop_last().filter_map(f) + seq![h]);
            },
            None => {},
        }
    }
}

/// A chunk's hits are its reply's regions mapped through `region_model`
/// with the invalid ones dropped, in reply order (not re-sorted), cut to
/// the first `max_regions`; a reply without a `regions` array has none.
pub proof fn law_region_hits_keep_reply_order(
    b: Seq<u8>,
    c: Chunk,
    lines_before: int,
    regions: Option<Vec<RegionFields>>,
    max_regions: int,
)
    requires
        0 <= max_regions,
    ensures
        match regions {
            Some(rs) => {
                let valid = rs@.filter_map(|r: RegionFields| region_model(b, c, lines_before, r));
                chunk_hit_models(b, c, lines_before, regions, max_regions) == valid.take(
                    if max_regions < valid.len() { max_regions } else { valid.len() as int },
                )
            },
            None => chunk_hit_models(b, c, lines_before, regions, max_regions).len() == 0,
        },
{
    match regions {
        Some(rs) => {
            lemma_valid_models_filter_map(b, c, lines_before, rs@);
            let valid = rs@.filter_map(|r: RegionFields| region_model(b, c, lines_before, r));
            if valid.len() <= max_regions {
                assert(valid.take(valid.len() as int) =~= valid);
            }
        },
        None => {},
    }
}

/// No region is reported twice: the hits of an earlier chunk of a scan all
/// start before those of a later chunk, since each starts in its own
/// chunk's exclusive zone and the zones follow one another.
pub proof fn law_chunks_report_disjoint_regions<'a>(
    b: Seq<u8>,
    from: usize,
    limit: Option<usize>,
    chunk_bytes: usize,
    max_chunks: usize,
    cs: Seq<Chunk<'a>>,
    rs: Seq<ChunkReply>,
    max_hits: int,
)
    requires
        split_result(b, from as int, limit, chunk_bytes as int, max_chunks as int, cs),
        rs.len() == cs.len(),
        0 <= max_hits,
    ensures
        forall|i: int, j: int, p: int, q: int|
            0 <= i < j < cs.len() && 0 <= p < reply_hits(b, cs[i], rs[i], max_hits).len() && 0 <= q
                < reply_hits(b, cs[j], rs[j], max_hits).len() ==> (#[trigger] reply_hits(
                b,
                cs[i],
                rs[i],
                max_hits,
            )[p]).byte_start < (#[trigger] reply_hits(b, cs[j], rs[j], max_hits)[q]).byte_start,
{
    if cs.len() > 0 {
        law_exclusive_zones_tile(b, from, limit, chunk_bytes, max_chunks, cs);
        lemma_split_chunks_shaped(b, from, limit, chunk_bytes, max_chunks, cs);
        assert forall|i: int, j: int, p: int, q: int|
            0 <= i < j < cs.len() && 0 <= p < reply_hits(b, cs[i], rs[i], max_hits).len() && 0 <= q
                < reply_hits(b, cs[j], rs[j], max_hits).len() implies (#[trigger] reply_hits(
                b,
                cs[i],
                rs[i],
                max_hits,
            )[p]).byte_start < (#[trigger] reply_hits(b, cs[j], rs[j], max_hits)[q]).byte_start by {
            let lbi = newlines_before(b, cs[i].start as int) as int;
            let lbj = newlines_before(b, cs[j].start as int) as int;
            match rs[i] {
                ChunkReply::Replied { regions } => {
                    law_hits_start_in_exclusive_zone(b, cs[i], lbi, regions, max_hits);
                },
                ChunkReply::Failed { .. } => {},
            }
            match rs[j] {
                ChunkReply::Replied { regions } => {
                    law_hits_start_in_exclusive_zone(b, cs[j], lbj, regions, max_hits);
                },
                ChunkReply::Failed { .. } => {},
            }
            assert(cs[i].end <= cs[j].exclusive_start);
        }
    }
}

/// The reported hits are the best ones, best first: `top_hits` takes
/// `min(n, hs.len())` distinct hits of `hs`, in non-increasing key order,
/// equal keys in scan order, and every hit left out has a key no larger
/// than any hit taken.
pub proof fn law_top_hits_ranked(hs: Seq<HitModel>, n: int)
    requires
        0 <= n,
    ensures
        top_hits(hs, n).len() == if n < hs.len() { n } else { hs.len() as int },
        forall|k: int|
            0 <= k < top_hits(hs, n).len() ==> 0 <= #[trigger] entry_at(hit_keys(hs), k) < hs.len()
                && top_hits(hs, n)[k] == hs[entry_at(hit_keys(hs), k)],
        forall|k1: int, k2: int|
            0 <= k1 < k2 < top_hits(hs, n).len() ==> #[trigger] entry_at(hit_keys(hs), k1) != #[trigger] entry_at(
                hit_keys(hs),
                k2,
            ) && top_hits(hs, n)[k1].key >= top_hits(hs, n)[k2].key && (top_hits(hs, n)[k1].key
                == top_hits(hs, n)[k2].key ==> entry_at(hit_keys(hs), k1) < entry_at(hit_keys(hs), k2)),
        forall|i: int, k: int|
            0 <= i < hs.len() && 0 <= k < top_hits(hs, n).len() && (forall|l: int|
                0 <= l < top_hits(hs, n).len() ==> #[trigger] entry_at(hit_keys(hs), l) != i)
                ==> (#[trigger] top_hits(hs, n)[k]).key >= (#[trigger] hs[i]).key,
{
    let ks = hit_keys(hs);
    let top = top_hits(hs, n);
    let m = top.len() as int;
    assert forall|k: int| 0 <= k < m implies 0 <= #[trigger] entry_at(ks, k) < hs.len() && top[k] == hs[entry_at(ks, k)] by {
        lemma_rank_onto(ks, k);
    }
    assert forall|k1: int, k2: int| 0 <= k1 < k2 < m implies #[trigger] entry_at(ks, k1) != #[trigger] entry_at(ks, k2)
        && top[k1].key >= top[k2].key && (top[k1].key == top[k2].key ==> entry_at(ks, k1) < entry_at(ks, k2)) by {
        lemma_rank_onto(ks, k1);
        lemma_rank_onto(ks, k2);
        let a = entry_at(ks, k1);
        let c = entry_at(ks, k2);
        lemma_rank_order(ks, a, c);
        assert(ks[a] == hs[a].key && ks[c] == hs[c].key);
    }
    assert forall|i: int, k: int|
        0 <= i < hs.len() && 0 <= k < m && (forall|l: int| 0 <= l < m ==> #[trigger] entry_at(ks, l) != i)
            implies (#[trigger] top[k]).key >= (#[trigger] hs[i]).key by {
        lemma_rank_onto(ks, k);
        let a = entry_at(ks, k);
        let r = rank(ks, i) as int;
        crate::rank::lemma_count_below_self(ks, i, ks.len() as int);
        if r < m {
            lemma_rank_onto(ks, r);
            let e = entry_at(ks, r);
            if e != i {
                lemma_rank_injective(ks, e, i);
            }
            assert(entry_at(ks, r) != i);
        }
        assert(rank(ks, a) < rank(ks, i));
        lemma_rank_order(ks, a, i);
        assert(ks[a] == hs[a].key && ks[i] == hs[i].key);
    }
}

/// A triage of one document: its chunks and hit cap, between the model
/// calls the caller makes for each chunk.
pub struct TriageScan<'a> {
    doc: &'a str,
    chunks: Vec<Chunk<'a>>,
    max_hits: usize,
}

impl<'a> TriageScan<'a> {
    #[verifier::type_invariant]
    spec fn wf(&self) -> bool {
        &&& 1 <= self.chunks@.len()
        &&& 1 <= self.max_hits <= MAX_HITS_CAP
        &&& self.doc.spec_bytes().len() < usize::MAX
        &&& forall|i: int|
            0 <= i < self.chunks@.len() ==> chunk_shape(self.doc.spec_bytes(), #[trigger] self.chunks@[i])
                && self.chunks@[i].text.spec_bytes().len() < usize::MAX && self.chunks@[i].context_lines
                < usize::MAX
    }

    /// The bytes of the document being triaged.
    pub closed spec fn doc_bytes(&self) -> Seq<u8> {
        self.doc.spec_bytes()
    }

    /// The chunks, in scan order.
    pub closed spec fn chunk_seq(&self) -> Seq<Chunk<'a>> {
        self.chunks@
    }

    /// The hit cap, after clamping.
    pub closed spec fn hit_cap(&self) -> int {
        self.max_hits as int
    }

    /// Plans the triage of `doc` from `offset` (see `prepare`), with the
    /// hit cap `max_hits` clamped to `1..=MAX_HITS_CAP`.
    pub fn start(doc: &'a str, offset: usize, limit: Option<usize>, chunk_bytes: usize, max_hits: usize) -> (r:
        Result<Self, String>)
        requires
            doc.spec_bytes().len() < usize::MAX,
        ensures
            ({
                let b = doc.spec_bytes();
                let hi = scan_end(b, offset as int, limit);
                match r {
                    Ok(scan) => {
                        &&& scan.doc_bytes() == b
                        &&& scan.hit_cap() == if max_hits < 1 { 1 } else if max_hits > MAX_HITS_CAP {
                            MAX_HITS_CAP as int
                        } else {
                            max_hits as int
                        }
                        &&& split_result(b, offset as int, limit, chunk_bytes as int, MAX_CHUNKS as int, scan.chunk_seq())
                        &&& scan.chunk_seq().len() > 0
                        &&& !(scan.chunk_seq().len() == MAX_CHUNKS && scan.chunk_seq().last().end < hi)
                    },
                    Err(msg) => exists|cs: Seq<Chunk<'a>>|
                        split_result(b, offset as int, limit, chunk_bytes as int, MAX_CHUNKS as int, cs)
                            && ((cs.len() == 0 && msg@ == nothing_to_scan_message()) || (cs.len()
                            == MAX_CHUNKS && cs.last().end < hi && msg@ == too_large_message(
                            cs.last().end as int,
                            b.len() as int,
                        ))),
                }
            }),
    {
        let chunks = match prepare(doc, offset, limit, chunk_bytes) {
            Ok(cs) => cs,
            Err(msg) => return Err(msg),
        };
        proof {
            lemma_split_chunks_shaped(
                doc.spec_bytes(),
                offset,
                limit,
                chunk_bytes,
                MAX_CHUNKS,
                chunks@,
            );
        }
        Ok(TriageScan { doc, chunks, max_hits: clamp_max_hits(max_hits) })
    }

    /// Number of chunks to triage.
    pub fn chunk_count(&self) -> (n: usize)
        ensures
            n == self.chunk_seq().len(),
            n >= 1,
    {
        proof {
            use_type_invariant(self);
        }
        self.chunks.len()
    }

    /// Chunk `i`.
    pub fn chunk(&self, i: usize) -> (c: &Chunk<'a>)
        requires
            i < self.chunk_seq().len(),
        ensures
            *c == self.chunk_seq()[i as int],
    {
        &self.chunks[i]
    }

    /// The system prompt, user prompt and output budget for chunk `i`.
    pub fn prompt(&self, i: usize, query: &str, context: Option<&str>) -> (r: (String, String, u32))
        requires
            i < self.chunk_seq().len(),
        ensures
            r.0@ == system_prompt_text((self.chunk_seq()[i as int].context_lines + 1) as nat, self.hit_cap() as nat),
            r.1@ == user_prompt_text(
                query@,
                match context {
                    Some(x) => Some(x@),
                    None => None,
                },
                self.chunk_seq()[i as int].text.spec_bytes(),
                self.chunk_seq()[i as int].line_starts@.len(),
            ),
            r.2 == 128 + 64 * self.hit_cap(),
    {
        proof {
            use_type_invariant(self);
        }
        let c = &self.chunks[i];
        let (system, user) = chunk_prompt(query, context, c, self.max_hits);
        (system, user, max_tokens_for(self.max_hits))
    }

    /// The report of the scan, given the reply to each chunk's call in
    /// scan order: a header with the hit count, the chunk count and the
    /// scanned bytes; one line per untriaged chunk; then the top hits by
    /// score (ties in scan order), each with its location and snippet.
    pub fn report(&self, query: &str, replies: &Vec<ChunkReply>) -> (r: String)
        requires
            replies@.len() == self.chunk_seq().len(),
        ensures
            r@ == report_text(self.doc_bytes(), query@, self.chunk_seq(), replies@, self.hit_cap()),
    {
        proof {
            use_type_invariant(self);
        }
        let ghost b = self.doc.spec_bytes();
        let ghost cs = self.chunks@;
        let ghost rs = replies@;
        let ghost cap = self.max_hits as int;
        let bytes = self.doc.as_bytes();
        let n = self.chunks.len();
        let mut all: Vec<Hit> = Vec::new();
        let mut keys: Vec<u64> = Vec::new();
        let mut counted_to: usize = 0;
        let mut lines: usize = 0;
        let mut i: usize = 0;
        while i < n
            invariant
                b == self.doc.spec_bytes(),
                b == bytes@,
                cs == self.chunks@,
                rs == replies@,
                cap == self.max_hits,
                n == cs.len() == rs.len(),
                i <= n,
                forall|j: int| 0 <= j < cs.len() ==> chunk_shape(b, #[trigger] cs[j]),
                counted_to <= b.len(),
                lines == newlines_before(b, counted_to as int),
                all@.map_values(|h: Hit| h@) == all_hits(b, cs, rs, cap, i as int),
                keys@ == hit_keys(all_hits(b, cs, rs, cap, i as int)),
            decreases n - i,
        {
            let c = &self.chunks[i];
            assert(chunk_shape(b, cs[i as int]));
            if c.start < counted_to {
                counted_to = 0;
                lines = 0;
            }
            while counted_to < c.start
                invariant
                    b == bytes@,
                    counted_to <= c.start <= b.len(),
                    lines == newlines_before(b, counted_to as int),
                decreases c.start - counted_to,
            {
                proof {
                    lemma_newlines_before_le(b, counted_to as int);
                }
                if bytes[counted_to] == 10u8 {
                    lines = lines + 1;
                }
                counted_to = counted_to + 1;
            }
            proof {
                lemma_newlines_before_le(b, counted_to as int);
            }
            let ghost before = all_hits(b, cs, rs, cap, i as int);
            match &replies[i] {
                ChunkReply::Failed { .. } => {
                    assert(all_hits(b, cs, rs, cap, i + 1) =~= before);
                },
                ChunkReply::Replied { regions } => {
                    proof {
                        lemma_increasing_len(c.line_starts@, c.start as int, c.end as int);
                    }
                    let mut hs = region_hits(c, lines, self.doc, regions, self.max_hits);
                    let ghost hs_models = hs@.map_values(|h: Hit| h@);
                    assert(hs_models == reply_hits(b, cs[i as int], rs[i as int], cap));
                    let mut j: usize = 0;
                    while j < hs.len()
                        invariant
                            j <= hs@.len(),
                            hs_models == hs@.map_values(|h: Hit| h@),
                            keys@ == hit_keys(before) + hit_keys(hs_models.take(j as int)),
                        decreases hs@.len() - j,
                    {
                        assert(hs_models.take(j + 1) =~= hs_models.take(j as int).push(hs@[j as int]@));
                        keys.push(key_of(hs[j].score.bits));
                        j = j + 1;
                    }
                    let ghost old_all = all@;
                    all.append(&mut hs);
                    proof {
                        assert(hs_models.take(hs_models.len() as int) =~= hs_models);
                        assert(all@.map_values(|h: Hit| h@) =~= old_all.map_values(|h: Hit| h@) + hs_models);
                        assert(hit_keys(before + hs_models) =~= hit_keys(before) + hit_keys(hs_models));
                    }
                },
            }
            i = i + 1;
        }
        let ghost all_models = all_hits(b, cs, rs, cap, n as int);
        let top = top_indices(&keys, self.max_hits);
        proof {
            lemma_top_entries(keys@, cap, top@);
        }
        let ghost top_models = top_hits(all_models, cap);
        assert(top_models.len() == top@.len());

        let mut out = String::new();
        out.append("Triage for '");
        out.append(query);
        out.append("': ");
        push_usize(&mut out, top.len());
        out.append(" hit(s), scanned ");
        push_usize(&mut out, n);
        out.append(" chunk(s), bytes ");
        push_usize(&mut out, self.chunks[0].start);
        out.append("..");
        push_usize(&mut out, self.chunks[n - 1].end);
        out.append("\n");
        let ghost head = out@;

        let mut i: usize = 0;
        while i < n
            invariant
                cs == self.chunks@,
                rs == replies@,
                n == cs.len() == rs.len(),
                i <= n,
                out@ == head + untriaged_lines(cs, rs, i as int),
            decreases n - i,
        {
            match &replies[i] {
                ChunkReply::Failed { reason } => {
                    out.append("   untriaged: bytes ");
                    push_usize(&mut out, self.chunks[i].start);
                    out.append("..");
                    push_usize(&mut out, self.chunks[i].end);
                    out.append(" (");
                    out.append(reason.as_str());
                    out.append(")\n");
                },
                ChunkReply::Replied { .. } => {},
            }
            i = i + 1;
        }
        let ghost mid = out@;

        let mut k: usize = 0;
        while k < top.len()
            invariant
                k <= top@.len() == top_models.len(),
                all@.map_values(|h: Hit| h@) == all_models,
                keys@ == hit_keys(all_models),
                holds_top(keys@, cap, top@),
                forall|j: int| 0 <= j < top@.len() ==> #[trigger] top@[j] as int == entry_at(keys@, j),
                top_models == top_hits(all_models, cap),
                out@ == mid + hits_text(top_models, k as int),
            decreases top@.len() - k,
        {
            let h = &all[top[k]];
            assert(h@ == top_models[k as int]);
            push_hit(&mut out, k + 1, h);
            k = k + 1;
        }
        out
    }
}

} // verus!
