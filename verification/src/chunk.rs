//! Line-aligned, overlapping chunks of a document with exclusive zones.
//!
//! A scan covers the byte range `[lo, hi)` of a document: `lo` is the start
//! of the line holding the requested offset, `hi` the requested end floored
//! to a character boundary. Chunks are `chunk_bytes` long, snapped to line
//! boundaries, and each one repeats about `chunk_bytes / 8` bytes of its
//! predecessor as context. The part after that context, the exclusive zone,
//! starts exactly where the previous chunk ended, so the zones tile the scan.

use vstd::prelude::*;
use vstd::utf8::*;
use vstd::string::*;
use crate::text::{at_boundary, floor_boundary, floor_char_boundary, lemma_floor_boundary, lemma_after_ascii_is_boundary, str_slice};

verus! {

broadcast use vstd::utf8::group_utf8_lib;

/// One chunk of a scan. Offsets are byte offsets into the document.
#[derive(Debug)]
pub struct Chunk<'a> {
    pub start: usize,
    pub end: usize,
    /// First byte that this chunk owns; the bytes before it repeat the
    /// previous chunk (equal to `start` for the first chunk).
    pub exclusive_start: usize,
    /// The document text `start..end`.
    pub text: &'a str,
    /// Byte offset of every line that starts inside `start..end`, in order.
    pub line_starts: Vec<usize>,
    /// Number of lines of `line_starts` that begin before `exclusive_start`.
    pub context_lines: usize,
}

// ----- the model -----

pub open spec fn newline() -> u8 {
    10u8
}

/// `p` starts a line of the scan range `[lo, hi)`.
pub open spec fn is_line_start(b: Seq<u8>, lo: int, hi: int, p: int) -> bool {
    ||| p == lo
    ||| (lo < p < hi && b[p - 1] == newline())
}

/// Start of the line holding byte `from`: just past the last newline before it.
pub open spec fn line_start_of(b: Seq<u8>, from: int) -> int
    decreases from,
{
    if from <= 0 {
        0
    } else if b[from - 1] == newline() {
        from
    } else {
        line_start_of(b, from - 1)
    }
}

/// The last line start at or before `x`.
pub open spec fn snap_back_spec(b: Seq<u8>, lo: int, hi: int, x: int) -> int
    decreases x - lo,
{
    if x <= lo {
        lo
    } else if is_line_start(b, lo, hi, x) {
        x
    } else {
        snap_back_spec(b, lo, hi, x - 1)
    }
}

/// The first line start at or after `x`, or `hi` when there is none.
pub open spec fn snap_forward_spec(b: Seq<u8>, lo: int, hi: int, x: int) -> int
    decreases hi - x,
{
    if x >= hi {
        hi
    } else if is_line_start(b, lo, hi, x) {
        x
    } else {
        snap_forward_spec(b, lo, hi, x + 1)
    }
}

/// `min(a + d, hi)`, the raw cut of a chunk that reaches `d` bytes past `a`.
pub open spec fn capped(a: int, d: int, hi: int) -> int {
    if a + d < hi {
        a + d
    } else {
        hi
    }
}

/// End of the byte range a scan from `from` with `limit` covers: the
/// requested end (saturating, clamped to the document) floored to a
/// character boundary.
pub open spec fn scan_end(b: Seq<u8>, from: int, limit: Option<usize>) -> int {
    let lim: int = match limit {
        Some(l) => l as int,
        None => usize::MAX as int,
    };
    let sum = if from + lim > usize::MAX { usize::MAX as int } else { from + lim };
    let req = if sum < b.len() { sum } else { b.len() as int };
    floor_boundary(b, req)
}

pub open spec fn overlap_of(chunk_bytes: int) -> int {
    chunk_bytes / 8
}

/// End of the first chunk of a scan of `[lo, hi)`.
pub open spec fn first_end(b: Seq<u8>, lo: int, hi: int, chunk_bytes: int) -> int {
    snap_forward_spec(b, lo, hi, capped(lo, chunk_bytes, hi))
}

/// Start of the chunk that follows a chunk ending at `prev_end`.
pub open spec fn next_start(b: Seq<u8>, lo: int, hi: int, chunk_bytes: int, prev_end: int) -> int {
    snap_back_spec(b, lo, hi, prev_end - overlap_of(chunk_bytes))
}

/// End of the chunk that follows a chunk ending at `prev_end`.
pub open spec fn next_end(b: Seq<u8>, lo: int, hi: int, chunk_bytes: int, prev_end: int) -> int {
    snap_forward_spec(b, lo, hi, capped(prev_end, chunk_bytes - overlap_of(chunk_bytes), hi))
}

/// `ls` lists, in increasing order, exactly the line starts in `[s, e)`.
pub open spec fn lists_line_starts(b: Seq<u8>, lo: int, hi: int, s: int, e: int, ls: Seq<usize>) -> bool {
    &&& forall|k: int| 0 <= k < ls.len() ==> s <= #[trigger] ls[k] < e && is_line_start(b, lo, hi, ls[k] as int)
    &&& forall|k: int, l: int| 0 <= k < l < ls.len() ==> #[trigger] ls[k] < #[trigger] ls[l]
    &&& forall|p: int| s <= p < e && #[trigger] is_line_start(b, lo, hi, p) ==> ls.contains(p as usize)
}

/// `n` is the number of entries of the increasing list `ls` below `x`.
pub open spec fn counts_below(ls: Seq<usize>, x: int, n: int) -> bool {
    &&& 0 <= n <= ls.len()
    &&& forall|k: int| 0 <= k < n ==> #[trigger] ls[k] < x
    &&& forall|k: int| n <= k < ls.len() ==> #[trigger] ls[k] >= x
}

/// The contents of one chunk `c` given its offsets.
pub open spec fn chunk_contents(b: Seq<u8>, lo: int, hi: int, c: Chunk) -> bool {
    &&& c.text.spec_bytes() == b.subrange(c.start as int, c.end as int)
    &&& lists_line_starts(b, lo, hi, c.start as int, c.end as int, c.line_starts@)
    &&& counts_below(c.line_starts@, c.exclusive_start as int, c.context_lines as int)
}

/// The chunks of a scan of `[lo, hi)` with the given chunk size and cap.
pub open spec fn chunk_layout(
    b: Seq<u8>,
    lo: int,
    hi: int,
    chunk_bytes: int,
    max_chunks: int,
    cs: Seq<Chunk>,
) -> bool {
    &&& cs.len() >= 1
    &&& cs[0].start == lo
    &&& cs[0].exclusive_start == lo
    &&& cs[0].end == first_end(b, lo, hi, chunk_bytes)
    &&& forall|i: int|
        1 <= i < cs.len() ==> {
            &&& #[trigger] cs[i].exclusive_start == cs[i - 1].end
            &&& cs[i].start == next_start(b, lo, hi, chunk_bytes, cs[i - 1].end as int)
            &&& cs[i].end == next_end(b, lo, hi, chunk_bytes, cs[i - 1].end as int)
        }
    &&& forall|i: int| 0 <= i < cs.len() ==> chunk_contents(b, lo, hi, #[trigger] cs[i])
    &&& forall|i: int| 0 <= i < cs.len() - 1 ==> #[trigger] cs[i].end < hi && i + 1 < max_chunks
    &&& cs.last().end >= hi || cs.len() >= max_chunks
}

/// What `split` returns for document bytes `b`.
pub open spec fn split_result(
    b: Seq<u8>,
    from: int,
    limit: Option<usize>,
    chunk_bytes: int,
    max_chunks: int,
    cs: Seq<Chunk>,
) -> bool {
    let hi = scan_end(b, from, limit);
    if hi <= from {
        cs.len() == 0
    } else {
        chunk_layout(b, line_start_of(b, from), hi, chunk_bytes, max_chunks, cs)
    }
}

// ----- facts about the model -----

pub proof fn lemma_line_start_of(b: Seq<u8>, from: int)
    requires
        0 <= from <= b.len(),
    ensures
        0 <= line_start_of(b, from) <= from,
        line_start_of(b, from) == 0 || b[line_start_of(b, from) - 1] == newline(),
        forall|q: int| line_start_of(b, from) <= q < from ==> b[q] != newline(),
    decreases from,
{
    if from > 0 && b[from - 1] != newline() {
        lemma_line_start_of(b, from - 1);
    }
}

pub proof fn lemma_snap_back_bounds(b: Seq<u8>, lo: int, hi: int, x: int)
    requires
        lo <= x,
    ensures
        lo <= snap_back_spec(b, lo, hi, x) <= x,
        is_line_start(b, lo, hi, snap_back_spec(b, lo, hi, x)),
    decreases x - lo,
{
    if x > lo && !is_line_start(b, lo, hi, x) {
        lemma_snap_back_bounds(b, lo, hi, x - 1);
    }
}

pub proof fn lemma_snap_forward_bounds(b: Seq<u8>, lo: int, hi: int, x: int)
    requires
        lo <= x <= hi,
    ensures
        x <= snap_forward_spec(b, lo, hi, x) <= hi,
        snap_forward_spec(b, lo, hi, x) == hi || is_line_start(b, lo, hi, snap_forward_spec(b, lo, hi, x)),
    decreases hi - x,
{
    if x < hi && !is_line_start(b, lo, hi, x) {
        lemma_snap_forward_bounds(b, lo, hi, x + 1);
    }
}

proof fn lemma_snap_back_is(b: Seq<u8>, lo: int, hi: int, x: int, p: int)
    requires
        lo <= p <= x,
        is_line_start(b, lo, hi, p),
        forall|q: int| p < q <= x ==> !#[trigger] is_line_start(b, lo, hi, q),
    ensures
        snap_back_spec(b, lo, hi, x) == p,
    decreases x - p,
{
    if x > p {
        assert(!is_line_start(b, lo, hi, x));
        lemma_snap_back_is(b, lo, hi, x - 1, p);
    }
}

proof fn lemma_snap_forward_is(b: Seq<u8>, lo: int, hi: int, x: int, p: int)
    requires
        lo < hi,
        lo <= x <= p <= hi,
        p == hi || is_line_start(b, lo, hi, p),
        forall|q: int| x <= q < p ==> !#[trigger] is_line_start(b, lo, hi, q),
    ensures
        snap_forward_spec(b, lo, hi, x) == p,
    decreases p - x,
{
    if x < p {
        assert(!is_line_start(b, lo, hi, x));
        lemma_snap_forward_is(b, lo, hi, x + 1, p);
    }
}

// ----- the line table -----

/// Every line start of `[lo, hi)`, in order.
fn build_line_table(b: &[u8], lo: usize, hi: usize) -> (t: Vec<usize>)
    requires
        lo < hi <= b@.len(),
    ensures
        lists_line_starts(b@, lo as int, hi as int, lo as int, hi as int, t@),
        t@.len() >= 1,
        t@[0] == lo,
{
    let mut t: Vec<usize> = Vec::new();
    t.push(lo);
    let mut i: usize = lo;
    while i < hi
        invariant
            lo <= i <= hi <= b@.len(),
            t@.len() >= 1,
            t@[0] == lo,
            lists_line_starts(b@, lo as int, hi as int, lo as int, i + 1, t@),
            forall|k: int| 0 <= k < t@.len() ==> #[trigger] t@[k] <= i,
        decreases hi - i,
    {
        let ghost old_t = t@;
        if b[i] == 10u8 && i + 1 < hi {
            t.push(i + 1);
            assert(t@.last() == i + 1);
        }
        proof {
            assert forall|p: int|
                lo <= p < i + 2 && #[trigger] is_line_start(b@, lo as int, hi as int, p) implies t@.contains(
                p as usize,
            ) by {
                if p < i + 1 {
                    assert(old_t.contains(p as usize));
                    let k = choose|k: int| 0 <= k < old_t.len() && old_t[k] == p as usize;
                    assert(t@[k] == old_t[k]);
                } else {
                    assert(t@[t@.len() - 1] == p as usize);
                }
            }
        }
        i = i + 1;
    }
    t
}

/// Number of entries of the increasing list `t` below `v`.
fn count_below(t: &Vec<usize>, v: usize) -> (k: usize)
    requires
        forall|a: int, c: int| 0 <= a < c < t@.len() ==> #[trigger] t@[a] < #[trigger] t@[c],
    ensures
        counts_below(t@, v as int, k as int),
{
    let mut lo: usize = 0;
    let mut hi: usize = t.len();
    while lo < hi
        invariant
            0 <= lo <= hi <= t@.len(),
            forall|a: int, c: int| 0 <= a < c < t@.len() ==> #[trigger] t@[a] < #[trigger] t@[c],
            forall|k: int| 0 <= k < lo ==> #[trigger] t@[k] < v,
            forall|k: int| hi <= k < t@.len() ==> #[trigger] t@[k] >= v,
        decreases hi - lo,
    {
        let mid = lo + (hi - lo) / 2;
        if t[mid] < v {
            assert forall|k: int| 0 <= k < mid + 1 implies #[trigger] t@[k] < v by {
                if k < mid {
                    assert(t@[k] < t@[mid as int]);
                }
            }
            lo = mid + 1;
        } else {
            assert forall|k: int| mid <= k < t@.len() implies #[trigger] t@[k] >= v by {
                if k > mid {
                    assert(t@[mid as int] < t@[k]);
                }
            }
            hi = mid;
        }
    }
    lo
}

/// Number of entries of the increasing list `t` at or below `v`.
fn count_at_most(t: &Vec<usize>, v: usize) -> (k: usize)
    requires
        forall|a: int, c: int| 0 <= a < c < t@.len() ==> #[trigger] t@[a] < #[trigger] t@[c],
    ensures
        0 <= k <= t@.len(),
        forall|j: int| 0 <= j < k ==> #[trigger] t@[j] <= v,
        forall|j: int| k <= j < t@.len() ==> #[trigger] t@[j] > v,
{
    let mut lo: usize = 0;
    let mut hi: usize = t.len();
    while lo < hi
        invariant
            0 <= lo <= hi <= t@.len(),
            forall|a: int, c: int| 0 <= a < c < t@.len() ==> #[trigger] t@[a] < #[trigger] t@[c],
            forall|k: int| 0 <= k < lo ==> #[trigger] t@[k] <= v,
            forall|k: int| hi <= k < t@.len() ==> #[trigger] t@[k] > v,
        decreases hi - lo,
    {
        let mid = lo + (hi - lo) / 2;
        if t[mid] <= v {
            assert forall|k: int| 0 <= k < mid + 1 implies #[trigger] t@[k] <= v by {
                if k < mid {
                    assert(t@[k] < t@[mid as int]);
                }
            }
            lo = mid + 1;
        } else {
            assert forall|k: int| mid <= k < t@.len() implies #[trigger] t@[k] > v by {
                if k > mid {
                    assert(t@[mid as int] < t@[k]);
                }
            }
            hi = mid;
        }
    }
    lo
}

/// The last line start at or before `x`.
fn snap_back(x: usize, t: &Vec<usize>, Ghost(b): Ghost<Seq<u8>>, Ghost(lo): Ghost<int>, Ghost(hi): Ghost<int>) -> (r: usize)
    requires
        lo < hi,
        lo <= x,
        t@.len() >= 1,
        t@[0] == lo,
        lists_line_starts(b, lo, hi, lo, hi, t@),
    ensures
        r == snap_back_spec(b, lo, hi, x as int),
{
    let k = count_at_most(t, x);
    let p = t[k - 1];
    proof {
        assert forall|q: int| p < q <= x implies !#[trigger] is_line_start(b, lo, hi, q) by {
            if is_line_start(b, lo, hi, q) {
                assert(q < hi);
                assert(t@.contains(q as usize));
                let j = choose|j: int| 0 <= j < t@.len() && t@[j] == q as usize;
                if j < k {
                    if j < k - 1 {
                        assert(t@[j] < t@[k - 1]);
                    }
                } else {
                    assert(t@[j] > x);
                }
            }
        }
        lemma_snap_back_is(b, lo, hi, x as int, p as int);
    }
    p
}

/// The first line start at or after `x`, or `hi` when there is none.
fn snap_forward(x: usize, t: &Vec<usize>, hi: usize, Ghost(b): Ghost<Seq<u8>>, Ghost(lo): Ghost<int>) -> (r: usize)
    requires
        lo < hi,
        lo <= x <= hi,
        lists_line_starts(b, lo, hi as int, lo, hi as int, t@),
    ensures
        r == snap_forward_spec(b, lo, hi as int, x as int),
{
    let k = count_below(t, x);
    if k < t.len() {
        let p = t[k];
        proof {
            assert forall|q: int| x <= q < p implies !#[trigger] is_line_start(b, lo, hi as int, q) by {
                if is_line_start(b, lo, hi as int, q) {
                    assert(t@.contains(q as usize));
                    let j = choose|j: int| 0 <= j < t@.len() && t@[j] == q as usize;
                    if j < k {
                        assert(t@[j] < x);
                    } else if j > k {
                        assert(t@[k as int] < t@[j]);
                    }
                }
            }
            lemma_snap_forward_is(b, lo, hi as int, x as int, p as int);
        }
        p
    } else {
        proof {
            assert forall|q: int| x <= q < hi implies !#[trigger] is_line_start(b, lo, hi as int, q) by {
                if is_line_start(b, lo, hi as int, q) {
                    assert(t@.contains(q as usize));
                    let j = choose|j: int| 0 <= j < t@.len() && t@[j] == q as usize;
                    assert(t@[j] < x);
                }
            }
            lemma_snap_forward_is(b, lo, hi as int, x as int, hi as int);
        }
        hi
    }
}


/// The entries of the increasing table `t` that fall in `[s, e)` are the line
/// starts of `[s, e)`.
proof fn lemma_sub_table(b: Seq<u8>, lo: int, hi: int, t: Seq<usize>, s: int, e: int, i: int, j: int)
    requires
        0 <= lo <= s <= e <= hi <= usize::MAX,
        lists_line_starts(b, lo, hi, lo, hi, t),
        counts_below(t, s, i),
        counts_below(t, e, j),
    ensures
        i <= j,
        lists_line_starts(b, lo, hi, s, e, t.subrange(i, j)),
{
    if j < i {
        assert(t[j] >= e);
        assert(t[j] < s);
    }
    let sub = t.subrange(i, j);
    assert forall|k: int| 0 <= k < sub.len() implies s <= #[trigger] sub[k] < e && is_line_start(
        b,
        lo,
        hi,
        sub[k] as int,
    ) by {
        assert(sub[k] == t[i + k]);
    }
    assert forall|k: int, l: int| 0 <= k < l < sub.len() implies #[trigger] sub[k] < #[trigger] sub[l] by {
        assert(sub[k] == t[i + k]);
        assert(sub[l] == t[i + l]);
    }
    assert forall|p: int| s <= p < e && #[trigger] is_line_start(b, lo, hi, p) implies sub.contains(
        p as usize,
    ) by {
        assert(t.contains(p as usize));
        let k = choose|k: int| 0 <= k < t.len() && t[k] == p as usize;
        assert(i <= k < j);
        assert(sub[k - i] == p as usize);
    }
}

/// Counting below `x` within the sub-table `t[i..j]`.
proof fn lemma_sub_count(t: Seq<usize>, x: int, i: int, j: int, n: int)
    requires
        0 <= i <= n <= j <= t.len(),
        counts_below(t, x, n),
    ensures
        counts_below(t.subrange(i, j), x, n - i),
{
    let sub = t.subrange(i, j);
    assert forall|k: int| 0 <= k < n - i implies #[trigger] sub[k] < x by {
        assert(sub[k] == t[i + k]);
    }
    assert forall|k: int| n - i <= k < sub.len() implies #[trigger] sub[k] >= x by {
        assert(sub[k] == t[i + k]);
    }
}

fn copy_range(t: &Vec<usize>, i: usize, j: usize) -> (r: Vec<usize>)
    requires
        i <= j <= t@.len(),
    ensures
        r@ == t@.subrange(i as int, j as int),
{
    let mut r: Vec<usize> = Vec::new();
    let mut k = i;
    while k < j
        invariant
            i <= k <= j <= t@.len(),
            r@ == t@.subrange(i as int, k as int),
        decreases j - k,
    {
        r.push(t[k]);
        assert(r@ =~= t@.subrange(i as int, k + 1));
        k = k + 1;
    }
    r
}

/// A position that is the start of a line of the scan, or its end, is a
/// character boundary.
proof fn lemma_line_start_boundary(b: Seq<u8>, lo: int, hi: int, p: int)
    requires
        valid_utf8(b),
        0 <= lo < hi <= b.len(),
        lo == 0 || b[lo - 1] == newline(),
        at_boundary(b, hi),
        is_line_start(b, lo, hi, p) || p == hi,
    ensures
        at_boundary(b, p),
{
    if p != hi && p > 0 {
        lemma_after_ascii_is_boundary(b, p);
    }
}

/// Builds the chunk `[start, end)` whose exclusive zone begins at `excl`.
fn make_chunk<'a>(
    doc: &'a str,
    t: &Vec<usize>,
    start: usize,
    excl: usize,
    end: usize,
    Ghost(lo): Ghost<int>,
    Ghost(hi): Ghost<int>,
) -> (c: Chunk<'a>)
    requires
        0 <= lo <= start <= excl <= end <= hi <= doc.spec_bytes().len(),
        hi <= usize::MAX,
        lo < hi,
        lo == 0 || doc.spec_bytes()[lo - 1] == newline(),
        at_boundary(doc.spec_bytes(), hi),
        is_line_start(doc.spec_bytes(), lo, hi, start as int),
        is_line_start(doc.spec_bytes(), lo, hi, end as int) || end == hi,
        lists_line_starts(doc.spec_bytes(), lo, hi, lo, hi, t@),
    ensures
        c.start == start,
        c.end == end,
        c.exclusive_start == excl,
        chunk_contents(doc.spec_bytes(), lo, hi, c),
{
    let ghost b = doc.spec_bytes();
    proof {
        lemma_line_start_boundary(b, lo, hi, start as int);
        lemma_line_start_boundary(b, lo, hi, end as int);
    }
    let i = count_below(t, start);
    let j = count_below(t, end);
    let e = count_below(t, excl);
    proof {
        lemma_sub_table(b, lo, hi, t@, start as int, end as int, i as int, j as int);
        lemma_sub_table(b, lo, hi, t@, start as int, excl as int, i as int, e as int);
        lemma_sub_table(b, lo, hi, t@, excl as int, end as int, e as int, j as int);
        lemma_sub_count(t@, excl as int, i as int, j as int, e as int);
    }
    let line_starts = copy_range(t, i, j);
    let text = str_slice(doc, start, end);
    Chunk { start, end, exclusive_start: excl, text, line_starts, context_lines: e - i }
}

/// Splits the byte range `from .. from + limit` of `doc` (to its end when
/// `limit` is `None`) into at most `max_chunks` line-aligned chunks of about
/// `chunk_bytes` bytes that overlap by `chunk_bytes / 8`. An empty range
/// gives no chunks; a scan stopped by `max_chunks` ends before the range end.
#[verifier::spinoff_prover]
#[verifier::rlimit(40)]
pub fn split<'a>(
    doc: &'a str,
    from: usize,
    limit: Option<usize>,
    chunk_bytes: usize,
    max_chunks: usize,
) -> (chunks: Vec<Chunk<'a>>)
    ensures
        split_result(doc.spec_bytes(), from as int, limit, chunk_bytes as int, max_chunks as int, chunks@),
{
    let b = doc.as_bytes();
    let ghost bs = b@;
    let total = b.len();
    let lim = match limit {
        Some(l) => l,
        None => usize::MAX,
    };
    let req = if from >= total {
        total
    } else if lim >= total - from {
        total
    } else {
        from + lim
    };
    let range_end = floor_char_boundary(b, req);
    proof {
        lemma_floor_boundary(bs, req as int);
    }
    assert(range_end == scan_end(bs, from as int, limit));

    let mut chunks: Vec<Chunk<'a>> = Vec::new();
    if range_end <= from {
        return chunks;
    }

    // the start of the line holding `from`
    let mut lo = from;
    while lo > 0 && b[lo - 1] != 10u8
        invariant
            lo <= from < range_end <= total == bs.len(),
            bs == b@,
            line_start_of(bs, lo as int) == line_start_of(bs, from as int),
        decreases lo,
    {
        lo = lo - 1;
    }
    proof {
        lemma_line_start_of(bs, from as int);
    }
    let ghost hi = range_end as int;
    let table = build_line_table(b, lo, range_end);
    let overlap = chunk_bytes / 8;

    let raw = if chunk_bytes >= range_end - lo { range_end } else { lo + chunk_bytes };
    let mut prev_end = snap_forward(raw, &table, range_end, Ghost(bs), Ghost(lo as int));
    proof {
        lemma_snap_forward_bounds(bs, lo as int, hi, raw as int);
    }
    let first = make_chunk(doc, &table, lo, lo, prev_end, Ghost(lo as int), Ghost(hi));
    chunks.push(first);

    while prev_end < range_end && chunks.len() < max_chunks
        invariant
            lo < range_end <= total == bs.len(),
            bs == doc.spec_bytes(),
            hi == range_end,
            at_boundary(bs, hi),
            lo == line_start_of(bs, from as int),
            lo == 0 || bs[lo - 1] == newline(),
            overlap == overlap_of(chunk_bytes as int),
            lists_line_starts(bs, lo as int, hi, lo as int, hi, table@),
            table@.len() >= 1,
            table@[0] == lo,
            lo <= prev_end <= range_end,
            prev_end == range_end || (is_line_start(bs, lo as int, hi, prev_end as int) && prev_end
                >= lo + chunk_bytes),
            chunks@.len() >= 1,
            prev_end == chunks@.last().end,
            chunks@[0].start == lo,
            chunks@[0].exclusive_start == lo,
            chunks@[0].end == first_end(bs, lo as int, hi, chunk_bytes as int),
            forall|i: int|
                1 <= i < chunks@.len() ==> {
                    &&& #[trigger] chunks@[i].exclusive_start == chunks@[i - 1].end
                    &&& chunks@[i].start == next_start(
                        bs,
                        lo as int,
                        hi,
                        chunk_bytes as int,
                        chunks@[i - 1].end as int,
                    )
                    &&& chunks@[i].end == next_end(
                        bs,
                        lo as int,
                        hi,
                        chunk_bytes as int,
                        chunks@[i - 1].end as int,
                    )
                },
            forall|i: int| 0 <= i < chunks@.len() ==> chunk_contents(bs, lo as int, hi, #[trigger] chunks@[i]),
            forall|i: int|
                0 <= i < chunks@.len() - 1 ==> #[trigger] chunks@[i].end < hi && i + 1 < max_chunks,
        decreases max_chunks - chunks@.len(),
    {
        let start = snap_back(prev_end - overlap, &table, Ghost(bs), Ghost(lo as int), Ghost(hi));
        proof {
            lemma_snap_back_bounds(bs, lo as int, hi, prev_end - overlap);
        }
        let step = chunk_bytes - overlap;
        let raw = if step >= range_end - prev_end { range_end } else { prev_end + step };
        let end = snap_forward(raw, &table, range_end, Ghost(bs), Ghost(lo as int));
        proof {
            lemma_snap_forward_bounds(bs, lo as int, hi, raw as int);
        }
        let c = make_chunk(doc, &table, start, prev_end, end, Ghost(lo as int), Ghost(hi));
        let ghost old_chunks = chunks@;
        chunks.push(c);
        proof {
            assert forall|i: int| 0 <= i < chunks@.len() implies chunk_contents(
                bs,
                lo as int,
                hi,
                #[trigger] chunks@[i],
            ) by {
                if i < old_chunks.len() {
                    assert(chunks@[i] == old_chunks[i]);
                }
            }
            assert forall|i: int| 1 <= i < chunks@.len() implies {
                &&& #[trigger] chunks@[i].exclusive_start == chunks@[i - 1].end
                &&& chunks@[i].start == next_start(bs, lo as int, hi, chunk_bytes as int, chunks@[i - 1].end as int)
                &&& chunks@[i].end == next_end(bs, lo as int, hi, chunk_bytes as int, chunks@[i - 1].end as int)
            } by {
                if i < old_chunks.len() {
                    assert(chunks@[i] == old_chunks[i]);
                    assert(chunks@[i - 1] == old_chunks[i - 1]);
                }
            }
            assert forall|i: int| 0 <= i < chunks@.len() - 1 implies #[trigger] chunks@[i].end < hi && i + 1
                < max_chunks by {
                assert(chunks@[i] == old_chunks[i]);
            }
        }
        prev_end = end;
    }
    chunks
}


// ----- laws -----

/// Where chunk `i` of a layout lies.
proof fn lemma_chunk_bounds<'a>(
    b: Seq<u8>,
    lo: int,
    hi: int,
    chunk_bytes: int,
    max_chunks: int,
    cs: Seq<Chunk<'a>>,
    i: int,
)
    requires
        chunk_layout(b, lo, hi, chunk_bytes, max_chunks, cs),
        0 <= lo < hi,
        chunk_bytes >= 0,
        0 <= i < cs.len(),
    ensures
        lo <= cs[i].start <= cs[i].exclusive_start <= cs[i].end <= hi,
        is_line_start(b, lo, hi, cs[i].start as int),
        cs[i].end == hi || is_line_start(b, lo, hi, cs[i].end as int),
        cs[i].end < hi ==> cs[i].end >= lo + chunk_bytes,
        chunk_bytes >= 1 && cs[i].exclusive_start < hi ==> cs[i].exclusive_start < cs[i].end,
    decreases i,
{
    let o = overlap_of(chunk_bytes);
    if i == 0 {
        lemma_snap_forward_bounds(b, lo, hi, capped(lo, chunk_bytes, hi));
    } else {
        lemma_chunk_bounds(b, lo, hi, chunk_bytes, max_chunks, cs, i - 1);
        let prev = cs[i - 1].end as int;
        assert(prev < hi);
        assert(cs[i].exclusive_start == prev);
        lemma_snap_back_bounds(b, lo, hi, prev - o);
        lemma_snap_forward_bounds(b, lo, hi, capped(prev, chunk_bytes - o, hi));
    }
}

/// Zones of earlier chunks end at or before the zones of later chunks begin.
proof fn lemma_zones_ordered<'a>(
    b: Seq<u8>,
    lo: int,
    hi: int,
    chunk_bytes: int,
    max_chunks: int,
    cs: Seq<Chunk<'a>>,
    i: int,
    j: int,
)
    requires
        chunk_layout(b, lo, hi, chunk_bytes, max_chunks, cs),
        0 <= lo < hi,
        chunk_bytes >= 0,
        0 <= i < j < cs.len(),
    ensures
        cs[i].end <= cs[j].exclusive_start,
    decreases j - i,
{
    if j > i + 1 {
        lemma_zones_ordered(b, lo, hi, chunk_bytes, max_chunks, cs, i, j - 1);
        lemma_chunk_bounds(b, lo, hi, chunk_bytes, max_chunks, cs, j - 1);
    }
}

/// Every byte between the scan start and the end of chunk `n - 1` lies in
/// the exclusive zone of one of the first `n` chunks.
proof fn lemma_zones_cover<'a>(
    b: Seq<u8>,
    lo: int,
    hi: int,
    chunk_bytes: int,
    max_chunks: int,
    cs: Seq<Chunk<'a>>,
    n: int,
    p: int,
)
    requires
        chunk_layout(b, lo, hi, chunk_bytes, max_chunks, cs),
        0 <= lo < hi,
        chunk_bytes >= 0,
        1 <= n <= cs.len(),
        lo <= p < cs[n - 1].end,
    ensures
        exists|k: int| 0 <= k < n && cs[k].exclusive_start <= p < #[trigger] cs[k].end,
    decreases n,
{
    if n > 1 && p < cs[n - 2].end {
        lemma_zones_cover(b, lo, hi, chunk_bytes, max_chunks, cs, n - 1, p);
        let k = choose|k: int| 0 <= k < n - 1 && cs[k].exclusive_start <= p < #[trigger] cs[k].end;
        assert(0 <= k < n && cs[k].exclusive_start <= p < cs[k].end);
    } else {
        assert(cs[n - 1].exclusive_start <= p < cs[n - 1].end);
    }
}

/// Byte `p` lies in the exclusive zone of some chunk of `cs`.
pub open spec fn in_some_zone<'a>(cs: Seq<Chunk<'a>>, p: int) -> bool {
    exists|k: int| 0 <= k < cs.len() && cs[k].exclusive_start <= p < #[trigger] cs[k].end
}

/// The exclusive zones of a scan tile its range: every chunk lies in
/// `[lo, hi)` and starts on a line, at or before its own zone; the first
/// zone starts at `lo`; each later zone starts where the previous chunk
/// ended; zones never overlap; every byte before the last chunk's end
/// belongs to a zone; and unless the chunk cap stopped the scan, the last
/// chunk ends exactly at `hi`. With a positive chunk size every zone that
/// starts before `hi` is non-empty, so each chunk advances the scan.
pub proof fn law_exclusive_zones_tile<'a>(
    b: Seq<u8>,
    from: usize,
    limit: Option<usize>,
    chunk_bytes: usize,
    max_chunks: usize,
    cs: Seq<Chunk<'a>>,
)
    requires
        split_result(b, from as int, limit, chunk_bytes as int, max_chunks as int, cs),
        cs.len() > 0,
    ensures
        ({
            let lo = line_start_of(b, from as int);
            let hi = scan_end(b, from as int, limit);
            &&& lo <= from < hi <= b.len()
            &&& cs[0].start == lo && cs[0].exclusive_start == lo
            &&& forall|i: int|
                0 <= i < cs.len() ==> lo <= #[trigger] cs[i].start <= cs[i].exclusive_start <= cs[i].end
                    <= hi && is_line_start(b, lo, hi, cs[i].start as int)
            &&& forall|i: int| 1 <= i < cs.len() ==> #[trigger] cs[i].exclusive_start == cs[i - 1].end
            &&& forall|i: int, j: int|
                0 <= i < j < cs.len() ==> #[trigger] cs[i].end <= #[trigger] cs[j].exclusive_start
            &&& forall|p: int| lo <= p < cs.last().end ==> #[trigger] in_some_zone(cs, p)
            &&& cs.len() < max_chunks ==> cs.last().end == hi
            &&& chunk_bytes >= 1 ==> forall|i: int|
                0 <= i < cs.len() && #[trigger] cs[i].exclusive_start < hi ==> cs[i].exclusive_start
                    < cs[i].end
        }),
{
    let lo = line_start_of(b, from as int);
    let hi = scan_end(b, from as int, limit);
    let lim: int = match limit {
        Some(l) => l as int,
        None => usize::MAX as int,
    };
    let sum = if from + lim > usize::MAX { usize::MAX as int } else { from + lim };
    let req = if sum < b.len() { sum } else { b.len() as int };
    lemma_floor_boundary(b, req);
    lemma_line_start_of(b, from as int);
    let n = cs.len() as int;
    assert forall|i: int|
        0 <= i < cs.len() implies lo <= #[trigger] cs[i].start <= cs[i].exclusive_start <= cs[i].end
        <= hi && is_line_start(b, lo, hi, cs[i].start as int) by {
        lemma_chunk_bounds(b, lo, hi, chunk_bytes as int, max_chunks as int, cs, i);
    }
    assert forall|i: int, j: int| 0 <= i < j < cs.len() implies #[trigger] cs[i].end
        <= #[trigger] cs[j].exclusive_start by {
        lemma_zones_ordered(b, lo, hi, chunk_bytes as int, max_chunks as int, cs, i, j);
    }
    assert forall|p: int| lo <= p < cs.last().end implies #[trigger] in_some_zone(cs, p) by {
        lemma_zones_cover(b, lo, hi, chunk_bytes as int, max_chunks as int, cs, n, p);
    }
    if cs.len() < max_chunks {
        lemma_chunk_bounds(b, lo, hi, chunk_bytes as int, max_chunks as int, cs, n - 1);
    }
    if chunk_bytes >= 1 {
        assert forall|i: int|
            0 <= i < cs.len() && #[trigger] cs[i].exclusive_start < hi implies cs[i].exclusive_start
            < cs[i].end by {
            lemma_chunk_bounds(b, lo, hi, chunk_bytes as int, max_chunks as int, cs, i);
        }
    }
}

/// Chunk offsets of two layouts of the same scan agree up to `n`.
proof fn lemma_layout_offsets_agree<'a>(
    b: Seq<u8>,
    lo: int,
    hi: int,
    chunk_bytes: int,
    max_chunks: int,
    cs1: Seq<Chunk<'a>>,
    cs2: Seq<Chunk<'a>>,
    n: int,
)
    requires
        chunk_layout(b, lo, hi, chunk_bytes, max_chunks, cs1),
        chunk_layout(b, lo, hi, chunk_bytes, max_chunks, cs2),
        0 <= n < cs1.len(),
        n < cs2.len(),
    ensures
        forall|i: int|
            0 <= i <= n ==> #[trigger] cs1[i].start == cs2[i].start && cs1[i].end == cs2[i].end
                && cs1[i].exclusive_start == cs2[i].exclusive_start,
    decreases n,
{
    if n > 0 {
        lemma_layout_offsets_agree(b, lo, hi, chunk_bytes, max_chunks, cs1, cs2, n - 1);
        assert(cs1[n - 1].end == cs2[n - 1].end);
    }
}

/// Two results of `split` on the same inputs have their chunks at the same
/// offsets.
proof fn lemma_split_offsets_determined<'a>(
    b: Seq<u8>,
    from: usize,
    limit: Option<usize>,
    chunk_bytes: usize,
    max_chunks: usize,
    cs1: Seq<Chunk<'a>>,
    cs2: Seq<Chunk<'a>>,
)
    requires
        split_result(b, from as int, limit, chunk_bytes as int, max_chunks as int, cs1),
        split_result(b, from as int, limit, chunk_bytes as int, max_chunks as int, cs2),
    ensures
        cs1.len() == cs2.len(),
        forall|i: int|
            0 <= i < cs1.len() ==> #[trigger] cs1[i].start == cs2[i].start && cs1[i].end == cs2[i].end
                && cs1[i].exclusive_start == cs2[i].exclusive_start,
{
    let hi = scan_end(b, from as int, limit);
    if hi > from {
        let lo = line_start_of(b, from as int);
        let m = if cs1.len() < cs2.len() { cs1.len() as int } else { cs2.len() as int };
        lemma_layout_offsets_agree(b, lo, hi, chunk_bytes as int, max_chunks as int, cs1, cs2, m - 1);
        if cs1.len() < cs2.len() {
            assert(m == cs1.len());
            assert(0 <= m - 1 < cs2.len() - 1);
            assert(chunk_layout(b, lo, hi, chunk_bytes as int, max_chunks as int, cs2));
            assert(cs2[m - 1].end < hi);
            assert(m < max_chunks);
        } else if cs2.len() < cs1.len() {
            assert(m == cs2.len());
            assert(0 <= m - 1 < cs1.len() - 1);
            assert(chunk_layout(b, lo, hi, chunk_bytes as int, max_chunks as int, cs1));
            assert(cs1[m - 1].end < hi);
            assert(m < max_chunks);
        }
    }
}

/// Two strictly increasing lists with the same members are the same list.
proof fn lemma_sorted_unique(a: Seq<usize>, b: Seq<usize>)
    requires
        forall|k: int, l: int| 0 <= k < l < a.len() ==> #[trigger] a[k] < #[trigger] a[l],
        forall|k: int, l: int| 0 <= k < l < b.len() ==> #[trigger] b[k] < #[trigger] b[l],
        forall|x: usize| a.contains(x) <==> b.contains(x),
    ensures
        a == b,
    decreases a.len(),
{
    if a.len() == 0 {
        if b.len() > 0 {
            assert(b.contains(b[0]));
        }
        assert(a =~= b);
    } else {
        assert(a.contains(a[0]));
        assert(b.len() > 0);
        assert(b.contains(b[0]));
        let i = choose|i: int| 0 <= i < a.len() && a[i] == b[0];
        let j = choose|j: int| 0 <= j < b.len() && b[j] == a[0];
        if i > 0 {
            assert(a[0] < a[i]);
        }
        if j > 0 {
            assert(b[0] < b[j]);
        }
        assert(a[0] == b[0]);
        let a1 = a.drop_first();
        let b1 = b.drop_first();
        assert forall|x: usize| a1.contains(x) <==> b1.contains(x) by {
            if a1.contains(x) {
                let k = choose|k: int| 0 <= k < a1.len() && a1[k] == x;
                assert(a[k + 1] == x && a[0] < a[k + 1]);
                assert(b.contains(x));
                let m = choose|m: int| 0 <= m < b.len() && b[m] == x;
                assert(m != 0);
                assert(b1[m - 1] == x);
            }
            if b1.contains(x) {
                let k = choose|k: int| 0 <= k < b1.len() && b1[k] == x;
                assert(b[k + 1] == x && b[0] < b[k + 1]);
                assert(a.contains(x));
                let m = choose|m: int| 0 <= m < a.len() && a[m] == x;
                assert(m != 0);
                assert(a1[m - 1] == x);
            }
        }
        assert forall|k: int, l: int| 0 <= k < l < a1.len() implies #[trigger] a1[k] < #[trigger] a1[l] by {
            assert(a[k + 1] < a[l + 1]);
        }
        assert forall|k: int, l: int| 0 <= k < l < b1.len() implies #[trigger] b1[k] < #[trigger] b1[l] by {
            assert(b[k + 1] < b[l + 1]);
        }
        lemma_sorted_unique(a1, b1);
        assert(a =~= b) by {
            assert forall|k: int| 0 <= k < a.len() implies a[k] == b[k] by {
                if k > 0 {
                    assert(a[k] == a1[k - 1] && b[k] == b1[k - 1]);
                }
            }
        }
    }
}

/// A chunk's contents are fixed by its offsets: two chunks at the same
/// offsets of the same scan have the same text, line starts and context
/// line count.
proof fn lemma_contents_determined<'a>(b: Seq<u8>, lo: int, hi: int, c1: Chunk<'a>, c2: Chunk<'a>)
    requires
        chunk_contents(b, lo, hi, c1),
        chunk_contents(b, lo, hi, c2),
        c1.start == c2.start,
        c1.end == c2.end,
        c1.exclusive_start == c2.exclusive_start,
    ensures
        c1.text@ == c2.text@,
        c1.line_starts@ == c2.line_starts@,
        c1.context_lines == c2.context_lines,
{
    assert(c1.text@ == decode_utf8(c1.text.spec_bytes()));
    assert(c2.text@ == decode_utf8(c2.text.spec_bytes()));
    let a = c1.line_starts@;
    let d = c2.line_starts@;
    assert forall|x: usize| a.contains(x) <==> d.contains(x) by {
        if a.contains(x) {
            let k = choose|k: int| 0 <= k < a.len() && a[k] == x;
            assert(c1.start <= a[k] < c1.end && is_line_start(b, lo, hi, a[k] as int));
            assert(is_line_start(b, lo, hi, x as int));
        }
        if d.contains(x) {
            let k = choose|k: int| 0 <= k < d.len() && d[k] == x;
            assert(c2.start <= d[k] < c2.end && is_line_start(b, lo, hi, d[k] as int));
            assert(is_line_start(b, lo, hi, x as int));
        }
    }
    lemma_sorted_unique(a, d);
    let n1 = c1.context_lines as int;
    let n2 = c2.context_lines as int;
    if n1 < n2 {
        assert(a[n1] < c1.exclusive_start);
    } else if n2 < n1 {
        assert(a[n2] < c1.exclusive_start);
    }
}

/// A scan is a function of its inputs: any two results of `split` for the
/// same document, offset, limit, chunk size and cap have the same number
/// of chunks, at the same offsets, with the same text, line starts and
/// context line counts.
pub proof fn law_split_is_determined<'a>(
    b: Seq<u8>,
    from: usize,
    limit: Option<usize>,
    chunk_bytes: usize,
    max_chunks: usize,
    cs1: Seq<Chunk<'a>>,
    cs2: Seq<Chunk<'a>>,
)
    requires
        split_result(b, from as int, limit, chunk_bytes as int, max_chunks as int, cs1),
        split_result(b, from as int, limit, chunk_bytes as int, max_chunks as int, cs2),
    ensures
        cs1.len() == cs2.len(),
        forall|i: int|
            0 <= i < cs1.len() ==> #[trigger] cs1[i].start == cs2[i].start && cs1[i].end == cs2[i].end
                && cs1[i].exclusive_start == cs2[i].exclusive_start && cs1[i].text@ == cs2[i].text@
                && cs1[i].line_starts@ == cs2[i].line_starts@ && cs1[i].context_lines == cs2[i].context_lines,
{
    lemma_split_offsets_determined(b, from, limit, chunk_bytes, max_chunks, cs1, cs2);
    let hi = scan_end(b, from as int, limit);
    if hi > from {
        let lo = line_start_of(b, from as int);
        assert forall|i: int| 0 <= i < cs1.len() implies #[trigger] cs1[i].start == cs2[i].start && cs1[i].end
            == cs2[i].end && cs1[i].exclusive_start == cs2[i].exclusive_start && cs1[i].text@ == cs2[i].text@
            && cs1[i].line_starts@ == cs2[i].line_starts@ && cs1[i].context_lines == cs2[i].context_lines by {
            lemma_contents_determined(b, lo, hi, cs1[i], cs2[i]);
        }
    }
}

/// Scanning without a limit gives the same chunks as scanning with the
/// largest limit.
pub proof fn law_no_limit_same_chunks<'a>(
    b: Seq<u8>,
    from: usize,
    chunk_bytes: usize,
    max_chunks: usize,
    cs1: Seq<Chunk<'a>>,
    cs2: Seq<Chunk<'a>>,
)
    requires
        split_result(b, from as int, None, chunk_bytes as int, max_chunks as int, cs1),
        split_result(b, from as int, Some(usize::MAX), chunk_bytes as int, max_chunks as int, cs2),
    ensures
        cs1.len() == cs2.len(),
        forall|i: int|
            0 <= i < cs1.len() ==> #[trigger] cs1[i].start == cs2[i].start && cs1[i].end == cs2[i].end
                && cs1[i].exclusive_start == cs2[i].exclusive_start && cs1[i].text@ == cs2[i].text@
                && cs1[i].line_starts@ == cs2[i].line_starts@ && cs1[i].context_lines == cs2[i].context_lines,
{
    law_no_limit_is_largest_limit(b, from);
    assert(split_result(b, from as int, Some(usize::MAX), chunk_bytes as int, max_chunks as int, cs1));
    law_split_is_determined(b, from, Some(usize::MAX), chunk_bytes, max_chunks, cs1, cs2);
}

/// Each chunk after the first repeats at least `chunk_bytes / 8` bytes of
/// its predecessor before its own zone; the first chunk repeats nothing
/// and has no context lines; and with a positive chunk size every zone is
/// non-empty and every chunk lies in `[lo, hi)` with the document's text
/// between its offsets.
pub proof fn law_chunks_overlap_and_advance<'a>(
    b: Seq<u8>,
    from: usize,
    limit: Option<usize>,
    chunk_bytes: usize,
    max_chunks: usize,
    cs: Seq<Chunk<'a>>,
)
    requires
        split_result(b, from as int, limit, chunk_bytes as int, max_chunks as int, cs),
        cs.len() > 0,
        chunk_bytes >= 1,
    ensures
        ({
            let lo = line_start_of(b, from as int);
            let hi = scan_end(b, from as int, limit);
            &&& cs[0].start == lo && cs[0].exclusive_start == lo && cs[0].context_lines == 0
            &&& forall|i: int|
                1 <= i < cs.len() ==> #[trigger] cs[i].exclusive_start == cs[i - 1].end && cs[i].start
                    + chunk_bytes / 8 <= cs[i].exclusive_start
            &&& forall|i: int|
                0 <= i < cs.len() ==> lo <= #[trigger] cs[i].start <= cs[i].exclusive_start < cs[i].end <= hi
                    && cs[i].text.spec_bytes() == b.subrange(cs[i].start as int, cs[i].end as int)
        }),
{
    law_exclusive_zones_tile(b, from, limit, chunk_bytes, max_chunks, cs);
    let lo = line_start_of(b, from as int);
    let hi = scan_end(b, from as int, limit);
    let o = overlap_of(chunk_bytes as int);
    assert(chunk_contents(b, lo, hi, cs[0]));
    let ls0 = cs[0].line_starts@;
    if cs[0].context_lines > 0 {
        assert(ls0[0] < cs[0].exclusive_start);
        assert(cs[0].start <= ls0[0]);
    }
    assert forall|i: int| 1 <= i < cs.len() implies #[trigger] cs[i].exclusive_start == cs[i - 1].end
        && cs[i].start + chunk_bytes / 8 <= cs[i].exclusive_start by {
        let prev = cs[i - 1].end as int;
        lemma_chunk_bounds(b, lo, hi, chunk_bytes as int, max_chunks as int, cs, i - 1);
        assert(prev < hi);
        assert(prev >= lo + chunk_bytes);
        lemma_snap_back_bounds(b, lo, hi, prev - o);
    }
    assert forall|i: int| 0 <= i < cs.len() implies lo <= #[trigger] cs[i].start <= cs[i].exclusive_start
        < cs[i].end <= hi && cs[i].text.spec_bytes() == b.subrange(cs[i].start as int, cs[i].end as int) by {
        assert(chunk_contents(b, lo, hi, cs[i]));
        if i > 0 {
            lemma_chunk_bounds(b, lo, hi, chunk_bytes as int, max_chunks as int, cs, i - 1);
        }
    }
}

/// Chunk `i` of a scan starts on a line and ends on one (or at the scan
/// end); its line table is exactly `start` and every later line start
/// before `end`, in increasing order; and its context line count is the
/// number of those before its exclusive zone.
pub proof fn law_chunk_lines<'a>(
    b: Seq<u8>,
    from: usize,
    limit: Option<usize>,
    chunk_bytes: usize,
    max_chunks: usize,
    cs: Seq<Chunk<'a>>,
    i: int,
)
    requires
        split_result(b, from as int, limit, chunk_bytes as int, max_chunks as int, cs),
        chunk_bytes >= 1,
        0 <= i < cs.len(),
    ensures
        ({
            let hi = scan_end(b, from as int, limit);
            let c = cs[i];
            let ls = c.line_starts@;
            &&& c.start == 0 || b[c.start - 1] == newline()
            &&& c.end == hi || b[c.end - 1] == newline()
            &&& ls.len() >= 1 && ls[0] == c.start
            &&& forall|k: int, l: int| 0 <= k < l < ls.len() ==> #[trigger] ls[k] < #[trigger] ls[l]
            &&& forall|k: int|
                1 <= k < ls.len() ==> c.start < #[trigger] ls[k] < c.end && b[ls[k] - 1] == newline()
            &&& forall|p: int| c.start < p < c.end && b[p - 1] == newline() ==> #[trigger] ls.contains(p as usize)
            &&& c.context_lines <= ls.len()
            &&& forall|k: int| 0 <= k < ls.len() ==> (#[trigger] ls[k] < c.exclusive_start <==> k < c.context_lines)
        }),
{
    law_exclusive_zones_tile(b, from, limit, chunk_bytes, max_chunks, cs);
    law_chunks_overlap_and_advance(b, from, limit, chunk_bytes, max_chunks, cs);
    let lo = line_start_of(b, from as int);
    let hi = scan_end(b, from as int, limit);
    lemma_line_start_of(b, from as int);
    lemma_chunk_bounds(b, lo, hi, chunk_bytes as int, max_chunks as int, cs, i);
    let c = cs[i];
    let ls = c.line_starts@;
    assert(chunk_contents(b, lo, hi, c));
    assert(is_line_start(b, lo, hi, c.start as int));
    assert(ls.contains(c.start));
    let k0 = choose|k: int| 0 <= k < ls.len() && ls[k] == c.start;
    if k0 > 0 {
        assert(ls[0] < ls[k0]);
        assert(c.start <= ls[0]);
    }
    assert forall|k: int| 1 <= k < ls.len() implies c.start < #[trigger] ls[k] < c.end && b[ls[k] - 1] == newline() by {
        assert(ls[0] < ls[k]);
        assert(is_line_start(b, lo, hi, ls[k] as int));
    }
    assert forall|p: int| c.start < p < c.end && b[p - 1] == newline() implies #[trigger] ls.contains(p as usize) by {
        assert(is_line_start(b, lo, hi, p));
    }
    assert forall|k: int| 0 <= k < ls.len() implies (#[trigger] ls[k] < c.exclusive_start <==> k < c.context_lines) by {}
}

/// A scan has no chunks exactly when its range is empty: when the end
/// (the offset plus the limit, clamped to the document and floored to a
/// character boundary) is not past the offset.
pub proof fn law_empty_scan_iff_empty_range<'a>(
    b: Seq<u8>,
    from: usize,
    limit: Option<usize>,
    chunk_bytes: usize,
    max_chunks: usize,
    cs: Seq<Chunk<'a>>,
)
    requires
        split_result(b, from as int, limit, chunk_bytes as int, max_chunks as int, cs),
    ensures
        cs.len() == 0 <==> scan_end(b, from as int, limit) <= from,
{
}

/// Scanning without a limit is scanning with the largest limit.
pub proof fn law_no_limit_is_largest_limit(b: Seq<u8>, from: usize)
    ensures
        scan_end(b, from as int, None) == scan_end(b, from as int, Some(usize::MAX)),
{
}

// ----- the chunk size setting -----

/// Chunk size used when no valid size is configured (256 KiB).
pub const DEFAULT_CHUNK_BYTES: usize = 262144;

pub open spec fn is_digit(c: u8) -> bool {
    48 <= c <= 57
}

/// The number the decimal digits `d` spell, most significant first.
pub open spec fn digits_value(d: Seq<u8>) -> int
    decreases d.len(),
{
    if d.len() == 0 {
        0
    } else {
        digits_value(d.drop_last()) * 10 + (d.last() - 48)
    }
}

/// What `str::parse::<usize>` accepts: an optional `+` and then one or
/// more ASCII digits whose value fits in a `usize`.
pub open spec fn parsed_usize(b: Seq<u8>) -> Option<int> {
    let d = digit_part(b);
    if d.len() > 0 && (forall|i: int| 0 <= i < d.len() ==> is_digit(#[trigger] d[i])) && digits_value(d)
        <= usize::MAX {
        Some(digits_value(d))
    } else {
        None
    }
}

proof fn lemma_digits_value_nonneg(d: Seq<u8>)
    requires
        forall|i: int| 0 <= i < d.len() ==> is_digit(#[trigger] d[i]),
    ensures
        digits_value(d) >= 0,
    decreases d.len(),
{
    if d.len() > 0 {
        lemma_digits_value_nonneg(d.drop_last());
    }
}

proof fn lemma_digits_value_grows(d: Seq<u8>, k: int)
    requires
        0 <= k <= d.len(),
        forall|i: int| 0 <= i < d.len() ==> is_digit(#[trigger] d[i]),
    ensures
        digits_value(d.take(k)) <= digits_value(d),
    decreases d.len(),
{
    if k < d.len() {
        assert(d.drop_last().take(k) =~= d.take(k));
        lemma_digits_value_grows(d.drop_last(), k);
        lemma_digits_value_nonneg(d.drop_last());
    } else {
        assert(d.take(k) =~= d);
    }
}

/// The bytes `parsed_usize` reads digits from.
pub open spec fn digit_part(b: Seq<u8>) -> Seq<u8> {
    if b.len() > 0 && b[0] == 43u8 { b.drop_first() } else { b }
}

proof fn lemma_not_parsed(b: Seq<u8>)
    requires
        (forall|j: int| 0 <= j < digit_part(b).len() ==> is_digit(#[trigger] digit_part(b)[j])) ==> digits_value(digit_part(b)) > usize::MAX,
    ensures
        parsed_usize(b) is None,
{
}

/// A `usize` written in decimal, as `str::parse::<usize>` reads it.
pub fn parse_usize(s: &str) -> (r: Option<usize>)
    ensures
        match parsed_usize(s.spec_bytes()) {
            Some(n) => r == Some(n as usize),
            None => r is None,
        },
{
    let b = s.as_bytes();
    let ghost bs = b@;
    let first: usize = if b.len() > 0 && b[0] == 43u8 { 1 } else { 0 };
    let ghost d = if bs.len() > 0 && bs[0] == 43u8 { bs.drop_first() } else { bs };
    assert(d =~= bs.subrange(first as int, bs.len() as int));
    if first >= b.len() {
        return None;
    }
    let mut value: usize = 0;
    let mut i = first;
    while i < b.len()
        invariant
            bs == b@,
            bs == s.spec_bytes(),
            d == digit_part(bs),
            d == bs.subrange(first as int, bs.len() as int),
            first <= i <= bs.len(),
            forall|j: int| 0 <= j < i - first ==> is_digit(#[trigger] d[j]),
            value == digits_value(d.take(i - first)),
        decreases bs.len() - i,
    {
        let c = b[i];
        assert(d[i - first] == c);
        if c < 48u8 || c > 57u8 {
            assert(!is_digit(d[i - first]));
            proof {
                lemma_not_parsed(bs);
            }
            return None;
        }
        assert(d.take(i - first + 1).drop_last() =~= d.take(i - first));
        assert(d.take(i - first + 1).last() == c);
        match value.checked_mul(10) {
            None => {
                proof {
                    if forall|j: int| 0 <= j < d.len() ==> is_digit(#[trigger] d[j]) {
                        lemma_digits_value_grows(d, i - first + 1);
                        assert(digits_value(d.take(i - first + 1)) == value * 10 + (c - 48));
                    }
                    lemma_not_parsed(bs);
                }
                return None;
            },
            Some(v) => match v.checked_add((c - 48u8) as usize) {
                None => {
                    proof {
                        if forall|j: int| 0 <= j < d.len() ==> is_digit(#[trigger] d[j]) {
                            lemma_digits_value_grows(d, i - first + 1);
                            assert(digits_value(d.take(i - first + 1)) == value * 10 + (c - 48));
                        }
                        lemma_not_parsed(bs);
                    }
                    return None;
                },
                Some(w) => {
                    value = w;
                },
            },
        }
        i = i + 1;
    }
    assert(d.take(d.len() as int) =~= d);
    Some(value)
}

/// The chunk size configured by `setting` (the text of the chunk size
/// variable, if set): its value when it parses as a `usize`, else
/// `DEFAULT_CHUNK_BYTES`.
pub fn chunk_bytes_from(setting: Option<&str>) -> (n: usize)
    ensures
        n == match setting {
            Some(v) => match parsed_usize(v.spec_bytes()) {
                Some(k) => k as usize,
                None => DEFAULT_CHUNK_BYTES,
            },
            None => DEFAULT_CHUNK_BYTES,
        },
{
    match setting {
        Some(v) => match parse_usize(v) {
            Some(k) => k,
            None => DEFAULT_CHUNK_BYTES,
        },
        None => DEFAULT_CHUNK_BYTES,
    }
}

} // verus!
