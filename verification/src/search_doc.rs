//! Case-insensitive substring search over the lines of a stored document.

use vstd::prelude::*;
use vstd::utf8::*;
use vstd::string::*;
use crate::text::{at_boundary, decimal, decoded, ends_with, lemma_concat_ends, starts_with, utf8_lossy, lemma_after_ascii_is_boundary, push_decimal, str_slice, text_of};
use crate::triage_doc::{find_newline, first_newline, lemma_first_newline, newlines_before};

verus! {

broadcast use vstd::utf8::group_utf8_lib;

/// Most matches listed in a search reply.
pub const MAX_MATCHES: usize = 20;

/// Most characters of a matching line shown.
pub const SNIPPET_CHARS: usize = 200;

/// The lowercase form of `s`, as `str::to_lowercase` computes it (Unicode
/// lowercase mapping, character by character, with context for final
/// sigma).
pub uninterp spec fn lowercase(s: Seq<char>) -> Seq<char>;

/// `str::to_lowercase`; its result is named `lowercase` and nothing more
/// is claimed of it.
#[verifier::external_body]
fn to_lowercase(s: &str) -> (r: String)
    ensures
        r@ == lowercase(s@),
{
    s.to_lowercase()
}

/// `n` occurs in `h` at byte `i`.
pub open spec fn occurs_at(h: Seq<u8>, n: Seq<u8>, i: int) -> bool {
    0 <= i && i + n.len() <= h.len() && h.subrange(i, i + n.len()) == n
}

/// `n` occurs somewhere in `h` (how `str::contains` searches: on bytes).
pub open spec fn contains_bytes(h: Seq<u8>, n: Seq<u8>) -> bool {
    exists|i: int| #[trigger] occurs_at(h, n, i)
}

/// Whether `n` occurs in `h`.
pub fn bytes_contain(h: &[u8], n: &[u8]) -> (r: bool)
    ensures
        r == contains_bytes(h@, n@),
{
    if n.len() == 0 {
        assert(h@.subrange(0, 0) =~= n@);
        assert(occurs_at(h@, n@, 0));
        return true;
    }
    if n.len() > h.len() {
        assert forall|i: int| !#[trigger] occurs_at(h@, n@, i) by {}
        return false;
    }
    let last = h.len() - n.len();
    let mut i: usize = 0;
    while i <= last
        invariant
            last == h@.len() - n@.len(),
            h@.len() <= usize::MAX,
            n@.len() > 0,
            i <= last + 1,
            forall|p: int| 0 <= p < i ==> !#[trigger] occurs_at(h@, n@, p),
        decreases last + 1 - i,
    {
        let mut j: usize = 0;
        let mut same = true;
        while j < n.len()
            invariant_except_break
                same,
            invariant
                i <= last,
                last == h@.len() - n@.len(),
                h@.len() <= usize::MAX,
                j <= n@.len(),
                forall|q: int| 0 <= q < j ==> h@[i + q] == n@[q],
            ensures
                j <= n@.len(),
                forall|q: int| 0 <= q < j ==> h@[i + q] == n@[q],
                !same ==> j < n@.len() && h@[i + j] != n@[j as int],
                same ==> j == n@.len(),
            decreases n@.len() - j,
        {
            if h[i + j] != n[j] {
                same = false;
                break;
            }
            j = j + 1;
        }
        if same {
            assert(h@.subrange(i as int, i + n@.len()) =~= n@);
            assert(occurs_at(h@, n@, i as int));
            return true;
        }
        assert(h@.subrange(i as int, i + n@.len())[j as int] != n@[j as int]);
        i = i + 1;
    }
    assert forall|p: int| !#[trigger] occurs_at(h@, n@, p) by {
        if 0 <= p < i {
        } else if p >= i {
            assert(p + n@.len() > h@.len());
        }
    }
    false
}

/// A line without the `\r` of a `\r\n` ending.
pub open spec fn strip_cr(line: Seq<u8>) -> Seq<u8> {
    if line.len() > 0 && line.last() == 13u8 {
        line.drop_last()
    } else {
        line
    }
}

/// The first `n` characters of `t`.
pub open spec fn first_chars(t: Seq<char>, n: int) -> Seq<char> {
    if t.len() <= n {
        t
    } else {
        t.take(n)
    }
}

/// The match record of one line with text `text`, if its lowercase form
/// contains `needle`: its byte offset, its 1-based number and its first
/// `SNIPPET_CHARS` characters.
pub open spec fn line_hit(text: Seq<char>, needle: Seq<u8>, at: int, line_no: int) -> Seq<(int, int, Seq<char>)> {
    if contains_bytes(encode_utf8(lowercase(text)), needle) {
        seq![(at, line_no, first_chars(text, SNIPPET_CHARS as int))]
    } else {
        Seq::empty()
    }
}

/// Matches among the lines of `b` (Rust's `str::lines`), `needle` already
/// lowercased, the first line starting at byte `at` and numbered
/// `line_no`: each match's offset is the byte at which its line starts.
pub open spec fn line_matches(b: Seq<u8>, needle: Seq<u8>, at: int, line_no: int) -> Seq<(int, int, Seq<char>)>
    decreases b.len(),
{
    if b.len() == 0 {
        Seq::empty()
    } else {
        let k = first_newline(b);
        proof {
            lemma_first_newline(b);
        }
        let line = if k < b.len() { strip_cr(b.subrange(0, k)) } else { b };
        let rest = if k < b.len() { b.subrange(k + 1, b.len() as int) } else { Seq::empty() };
        line_hit(decode_utf8(line), needle, at, line_no) + line_matches(rest, needle, at + k + 1, line_no + 1)
    }
}

/// Matches come in document order: line numbers and byte offsets both
/// increase from one match to the next, starting from the first line's.
pub proof fn law_matches_in_document_order(b: Seq<u8>, needle: Seq<u8>, at: int, line_no: int)
    ensures
        forall|k: int|
            0 <= k < line_matches(b, needle, at, line_no).len() ==> (#[trigger] line_matches(
                b,
                needle,
                at,
                line_no,
            )[k]).1 >= line_no && line_matches(b, needle, at, line_no)[k].0 >= at,
        forall|k1: int, k2: int|
            0 <= k1 < k2 < line_matches(b, needle, at, line_no).len() ==> (#[trigger] line_matches(
                b,
                needle,
                at,
                line_no,
            )[k1]).1 < (#[trigger] line_matches(b, needle, at, line_no)[k2]).1 && line_matches(
                b,
                needle,
                at,
                line_no,
            )[k1].0 < line_matches(b, needle, at, line_no)[k2].0,
    decreases b.len(),
{
    if b.len() > 0 {
        let k = first_newline(b);
        lemma_first_newline(b);
        let line = if k < b.len() { strip_cr(b.subrange(0, k)) } else { b };
        let rest = if k < b.len() { b.subrange(k + 1, b.len() as int) } else { Seq::empty() };
        let next_at = at + k + 1;
        law_matches_in_document_order(rest, needle, next_at, line_no + 1);
        let here = line_hit(decode_utf8(line), needle, at, line_no);
        let later = line_matches(rest, needle, next_at, line_no + 1);
        let ms = line_matches(b, needle, at, line_no);
        assert(ms == here + later);
        assert forall|j: int| 0 <= j < ms.len() implies (#[trigger] ms[j]).1 >= line_no && ms[j].0 >= at by {
            if j >= here.len() {
                assert(ms[j] == later[j - here.len()]);
            }
        }
        assert forall|k1: int, k2: int| 0 <= k1 < k2 < ms.len() implies (#[trigger] ms[k1]).1 < (#[trigger] ms[k2]).1
            && ms[k1].0 < ms[k2].0 by {
            assert(ms[k2] == later[k2 - here.len()]);
            if k1 >= here.len() {
                assert(ms[k1] == later[k1 - here.len()]);
            }
        }
    }
}

/// The line of `b` that starts at byte `o`, without its `\n` or `\r\n`.
pub open spec fn line_at(b: Seq<u8>, o: int) -> Seq<u8> {
    let r = b.subrange(o, b.len() as int);
    let k = first_newline(r);
    if k < r.len() {
        strip_cr(r.subrange(0, k))
    } else {
        r
    }
}

proof fn lemma_newlines_split(t: Seq<u8>, a: int, j: int)
    requires
        0 <= a,
        0 <= j,
        a + j <= t.len(),
    ensures
        newlines_before(t, a + j) == newlines_before(t, a) + newlines_before(t.subrange(a, t.len() as int), j),
    decreases j,
{
    if j > 0 {
        lemma_newlines_split(t, a, j - 1);
        assert(t.subrange(a, t.len() as int)[j - 1] == t[a + j - 1]);
    }
}

proof fn lemma_no_newlines(t: Seq<u8>, j: int)
    requires
        0 <= j <= t.len(),
        forall|q: int| 0 <= q < j ==> t[q] != 10u8,
    ensures
        newlines_before(t, j) == 0,
    decreases j,
{
    if j > 0 {
        lemma_no_newlines(t, j - 1);
    }
}

proof fn lemma_matches_are_lines(t: Seq<u8>, needle: Seq<u8>, at: int, line_no: int)
    ensures
        forall|k: int|
            0 <= k < line_matches(t, needle, at, line_no).len() ==> {
                let m = #[trigger] line_matches(t, needle, at, line_no)[k];
                let o = m.0 - at;
                &&& 0 <= o < t.len()
                &&& o == 0 || t[o - 1] == 10u8
                &&& m.1 == line_no + newlines_before(t, o)
                &&& contains_bytes(encode_utf8(lowercase(decode_utf8(line_at(t, o)))), needle)
                &&& m.2 == first_chars(decode_utf8(line_at(t, o)), SNIPPET_CHARS as int)
            },
    decreases t.len(),
{
    if t.len() > 0 {
        let k0 = first_newline(t);
        lemma_first_newline(t);
        let line = if k0 < t.len() { strip_cr(t.subrange(0, k0)) } else { t };
        let rest = if k0 < t.len() { t.subrange(k0 + 1, t.len() as int) } else { Seq::empty() };
        let at2 = at + k0 + 1;
        lemma_matches_are_lines(rest, needle, at2, line_no + 1);
        let here = line_hit(decode_utf8(line), needle, at, line_no);
        let later = line_matches(rest, needle, at2, line_no + 1);
        let ms = line_matches(t, needle, at, line_no);
        assert(ms == here + later);
        assert(t.subrange(0, t.len() as int) =~= t);
        assert(line_at(t, 0) == line);
        assert forall|k: int| 0 <= k < ms.len() implies {
            let m = #[trigger] ms[k];
            let o = m.0 - at;
            &&& 0 <= o < t.len()
            &&& o == 0 || t[o - 1] == 10u8
            &&& m.1 == line_no + newlines_before(t, o)
            &&& contains_bytes(encode_utf8(lowercase(decode_utf8(line_at(t, o)))), needle)
            &&& m.2 == first_chars(decode_utf8(line_at(t, o)), SNIPPET_CHARS as int)
        } by {
            if k < here.len() {
                assert(ms[k] == here[k]);
            } else {
                let m = ms[k];
                assert(m == later[k - here.len()]);
                let o2 = m.0 - at2;
                let o = m.0 - at;
                assert(k0 < t.len());
                assert(o == o2 + k0 + 1);
                if o2 > 0 {
                    assert(rest[o2 - 1] == t[o - 1]);
                }
                lemma_newlines_split(t, k0 + 1, o2);
                lemma_no_newlines(t, k0);
                assert(newlines_before(t, k0 + 1) == 1);
                assert(rest.subrange(o2, rest.len() as int) =~= t.subrange(o, t.len() as int));
            }
        }
    }
}

/// Each match of a search is a line of the text that contains the pattern:
/// its offset is where a line starts (the text start or just after a
/// newline), its line number is one more than the newlines before it, the
/// line's lowercase form contains the lowercased pattern, and the snippet
/// is the line's first `SNIPPET_CHARS` characters.
pub proof fn law_matches_are_matching_lines(b: Seq<u8>, needle: Seq<u8>, k: int)
    requires
        0 <= k < line_matches(b, needle, 0, 1).len(),
    ensures
        ({
            let m = line_matches(b, needle, 0, 1)[k];
            &&& 0 <= m.0 < b.len()
            &&& m.0 == 0 || b[m.0 - 1] == 10u8
            &&& m.1 == 1 + newlines_before(b, m.0)
            &&& contains_bytes(encode_utf8(lowercase(decode_utf8(line_at(b, m.0)))), needle)
            &&& m.2 == first_chars(decode_utf8(line_at(b, m.0)), SNIPPET_CHARS as int)
        }),
{
    lemma_matches_are_lines(b, needle, 0, 1);
    let m = line_matches(b, needle, 0, 1)[k];
}

pub open spec fn match_view(m: (usize, usize, String)) -> (int, int, Seq<char>) {
    (m.0 as int, m.1 as int, m.2@)
}

/// One step of `line_matches` on the bytes of `t` from `pos`: the line ends
/// at `e` (before any `\r`), its newline, if any, is at `k`.
proof fn lemma_line_step(t: Seq<u8>, pos: int, k: int, e: int, needle: Seq<u8>, at: int, line_no: int)
    requires
        0 <= pos < k <= t.len() || (0 <= pos <= k < t.len()),
        k - pos == first_newline(t.subrange(pos, t.len() as int)),
        e == (if k < t.len() && k > pos && t[k - 1] == 13u8 { k - 1 } else { k }),
    ensures
        line_matches(t.subrange(pos, t.len() as int), needle, at, line_no) == line_hit(
            decode_utf8(t.subrange(pos, e)),
            needle,
            at,
            line_no,
        ) + if k < t.len() {
            line_matches(t.subrange(k + 1, t.len() as int), needle, at + (k - pos) + 1, line_no + 1)
        } else {
            Seq::empty()
        },
{
    let rest = t.subrange(pos, t.len() as int);
    lemma_first_newline(rest);
    assert(rest.subrange(0, k - pos) =~= t.subrange(pos, k));
    if k < t.len() {
        assert(rest.subrange(k - pos + 1, rest.len() as int) =~= t.subrange(k + 1, t.len() as int));
        assert(strip_cr(rest.subrange(0, k - pos)) =~= t.subrange(pos, e));
    } else {
        assert(rest =~= t.subrange(pos, e));
        assert(line_matches(Seq::<u8>::empty(), needle, at + (k - pos) + 1, line_no + 1) =~= Seq::empty());
    }
}

/// The match record of the line `line`, if any.
fn match_line(line: &str, needle: &[u8], at: usize, line_no: usize) -> (r: Option<(usize, usize, String)>)
    ensures
        match r {
            Some(m) => seq![match_view(m)] == line_hit(line@, needle@, at as int, line_no as int),
            None => line_hit(line@, needle@, at as int, line_no as int) == Seq::<(int, int, Seq<char>)>::empty(),
        },
{
    let lower = to_lowercase(line);
    let lb = lower.as_str().as_bytes();
    assert(lb@ == encode_utf8(lowercase(line@)));
    if bytes_contain(lb, needle) {
        let n = line.unicode_len();
        let snippet = if n <= SNIPPET_CHARS { line.substring_char(0, n) } else {
            line.substring_char(0, SNIPPET_CHARS)
        };
        assert(snippet@ =~= first_chars(line@, SNIPPET_CHARS as int));
        let mut owned = String::new();
        owned.append(snippet);
        assert(owned@ =~= first_chars(line@, SNIPPET_CHARS as int));
        Some((at, line_no, owned))
    } else {
        None
    }
}

/// The lines of `body` that contain `pattern`, ignoring case: for each,
/// its byte offset, 1-based line number and first `SNIPPET_CHARS`
/// characters.
pub fn find_lines(body: &str, pattern: &str) -> (out: Vec<(usize, usize, String)>)
    ensures
        out@.map_values(|m: (usize, usize, String)| match_view(m)) == line_matches(
            body.spec_bytes(),
            encode_utf8(lowercase(pattern@)),
            0,
            1,
        ),
{
    let needle_s = to_lowercase(pattern);
    let needle = needle_s.as_str().as_bytes();
    let ghost nd = needle@;
    let tb = body.as_bytes();
    let ghost t = tb@;
    let len = tb.len();
    let mut out: Vec<(usize, usize, String)> = Vec::new();
    let mut pos: usize = 0;
    let mut line_start: usize = 0;
    let mut line_no: usize = 1;
    assert(t.subrange(0, len as int) =~= t);
    assert(out@.map_values(|m: (usize, usize, String)| match_view(m)) =~= Seq::empty());
    while pos < len
        invariant
            t == tb@,
            t == body.spec_bytes(),
            nd == needle@,
            nd == encode_utf8(lowercase(pattern@)),
            len == t.len(),
            pos <= len,
            line_start <= pos,
            pos < len ==> line_start == pos,
            pos < len ==> line_no <= pos + 1,
            at_boundary(t, pos as int),
            out@.map_values(|m: (usize, usize, String)| match_view(m)) + line_matches(
                t.subrange(pos as int, len as int),
                nd,
                line_start as int,
                line_no as int,
            ) == line_matches(t, nd, 0, 1),
        decreases len - pos,
    {
        let k = find_newline(tb, pos);
        let e = if k < len && k > pos && tb[k - 1] == 13u8 { k - 1 } else { k };
        proof {
            lemma_line_step(t, pos as int, k as int, e as int, nd, line_start as int, line_no as int);
        }
        let line = str_slice(body, pos, e);
        proof {
            assert(line@ == decode_utf8(t.subrange(pos as int, e as int)));
        }
        let ghost old_out = out@.map_values(|m: (usize, usize, String)| match_view(m));
        match match_line(line, needle, line_start, line_no) {
            Some(item) => {
                out.push(item);
                assert(out@.map_values(|m: (usize, usize, String)| match_view(m)) =~= old_out + seq![match_view(item)]);
            },
            None => {},
        }
        let ghost hit = line_hit(line@, nd, line_start as int, line_no as int);
        assert(out@.map_values(|m: (usize, usize, String)| match_view(m)) == old_out + hit);
        if k < len - 1 {
            proof {
                lemma_after_ascii_is_boundary(t, k + 1);
            }
            line_start = line_start + (k - pos) + 1;
            pos = k + 1;
            line_no = line_no + 1;
        } else {
            proof {
                if k < len {
                    assert(t.subrange(k + 1, len as int) =~= Seq::<u8>::empty());
                }
            }
            pos = len;
        }
        proof {
            assert(t.subrange(len as int, len as int) =~= Seq::<u8>::empty());
        }
    }
    assert(t.subrange(len as int, len as int) =~= Seq::<u8>::empty());
    out
}

/// The reply of a search for `pattern` in document `id` with matches `ms`.
pub open spec fn search_text(id: Seq<char>, pattern: Seq<char>, ms: Seq<(int, int, Seq<char>)>) -> Seq<char> {
    let shown = if ms.len() < MAX_MATCHES { ms.len() as int } else { MAX_MATCHES as int };
    "Search for '"@ + pattern + "' in "@ + id + ": "@ + decimal(ms.len()) + " match(es)\n"@ + match_lines(
        ms,
        shown,
    ) + if ms.len() > MAX_MATCHES {
        "... and "@ + decimal((ms.len() - MAX_MATCHES) as nat) + " more matches"@
    } else {
        Seq::empty()
    }
}

proof fn lemma_match_lines_prefix(ms: Seq<(int, int, Seq<char>)>, j: int, n: int)
    requires
        0 <= j <= n,
    ensures
        starts_with(match_lines(ms, n), match_lines(ms, j)),
    decreases n - j,
{
    if j < n {
        lemma_match_lines_prefix(ms, j, n - 1);
        let a = match_lines(ms, n - 1);
        let line = "line "@ + decimal(ms[n - 1].1 as nat) + ", byte "@ + decimal(ms[n - 1].0 as nat) + ": "@
            + ms[n - 1].2 + "\n"@;
        assert(match_lines(ms, n) == a + line);
        assert((a + line).subrange(0, match_lines(ms, j).len() as int) =~= a.subrange(0, match_lines(ms, j).len() as int));
    } else {
        assert(match_lines(ms, n).subrange(0, match_lines(ms, n).len() as int) =~= match_lines(ms, n));
    }
}

/// The listing of a search reply: right after the header come the first
/// `min(n, MAX_MATCHES)` matches in order, match `k` on a line of its own
/// giving its line number, its byte offset and its snippet.
#[verifier::spinoff_prover]
#[verifier::rlimit(40)]
pub proof fn law_search_lists_matches_in_order(id: Seq<char>, pattern: Seq<char>, ms: Seq<(int, int, Seq<char>)>, k: int)
    requires
        0 <= k < ms.len(),
        k < 20,
    ensures
        starts_with(
            search_text(id, pattern, ms),
            "Search for '"@ + pattern + "' in "@ + id + ": "@ + decimal(ms.len()) + " match(es)\n"@ + match_lines(ms, k)
                + "line "@ + decimal(ms[k].1 as nat) + ", byte "@ + decimal(ms[k].0 as nat) + ": "@ + ms[k].2 + "\n"@,
        ),
{
    let head = "Search for '"@ + pattern + "' in "@ + id + ": "@ + decimal(ms.len()) + " match(es)\n"@;
    let shown = if ms.len() < 20 { ms.len() as int } else { 20int };
    let line = "line "@ + decimal(ms[k].1 as nat) + ", byte "@ + decimal(ms[k].0 as nat) + ": "@ + ms[k].2 + "\n"@;
    let t = search_text(id, pattern, ms);
    let tail = if ms.len() > 20 {
        "... and "@ + decimal((ms.len() - 20) as nat) + " more matches"@
    } else {
        Seq::empty()
    };
    assert(t =~= head + match_lines(ms, shown) + tail);
    lemma_match_lines_prefix(ms, k + 1, shown);
    assert(match_lines(ms, k + 1) == match_lines(ms, k) + line);
    let want = head + match_lines(ms, k) + line;
    let m1 = match_lines(ms, k + 1);
    assert(want =~= head + m1);
    assert(t.subrange(0, want.len() as int) =~= want) by {
        assert(match_lines(ms, shown).subrange(0, m1.len() as int) == m1);
        assert forall|i: int| 0 <= i < want.len() implies t.subrange(0, want.len() as int)[i] == want[i] by {
            if i >= head.len() {
                assert(t[i] == match_lines(ms, shown)[i - head.len()]);
                assert(match_lines(ms, shown).subrange(0, m1.len() as int)[i - head.len()] == m1[i - head.len()]);
            }
        }
    }
    assert("Search for '"@ + pattern + "' in "@ + id + ": "@ + decimal(ms.len()) + " match(es)\n"@ + match_lines(ms, k)
        + "line "@ + decimal(ms[k].1 as nat) + ", byte "@ + decimal(ms[k].0 as nat) + ": "@ + ms[k].2 + "\n"@ =~= want);
}

/// How the search reply accounts for its matches: its header gives the
/// match count `n`; with more than `MAX_MATCHES` matches the listing ends
/// at the `MAX_MATCHES`-th match and the reply ends by naming the
/// `n - MAX_MATCHES` matches left out, so listed and left-out add up to
/// `n`; otherwise the listing ends at the last match and nothing follows.
pub proof fn law_search_counts_add_up(id: Seq<char>, pattern: Seq<char>, ms: Seq<(int, int, Seq<char>)>)
    ensures
        starts_with(
            search_text(id, pattern, ms),
            "Search for '"@ + pattern + "' in "@ + id + ": "@ + decimal(ms.len()) + " match(es)\n"@,
        ),
        ms.len() > MAX_MATCHES ==> ends_with(
            search_text(id, pattern, ms),
            "line "@ + decimal(ms[19].1 as nat) + ", byte "@ + decimal(ms[19].0 as nat) + ": "@ + ms[19].2
                + "\n"@ + "... and "@ + decimal((ms.len() - 20) as nat) + " more matches"@,
        ),
        0 < ms.len() <= MAX_MATCHES ==> ends_with(
            search_text(id, pattern, ms),
            "line "@ + decimal(ms[ms.len() - 1].1 as nat) + ", byte "@ + decimal(ms[ms.len() - 1].0 as nat) + ": "@
                + ms[ms.len() - 1].2 + "\n"@,
        ),
        ms.len() == 0 ==> search_text(id, pattern, ms) == "Search for '"@ + pattern + "' in "@ + id + ": "@
            + decimal(0) + " match(es)\n"@,
{
    let head = "Search for '"@ + pattern + "' in "@ + id + ": "@ + decimal(ms.len()) + " match(es)\n"@;
    let n = ms.len() as int;
    let t = search_text(id, pattern, ms);
    if n > 20 {
        let k = 20int;
        let line = "line "@ + decimal(ms[k - 1].1 as nat) + ", byte "@ + decimal(ms[k - 1].0 as nat) + ": "@
            + ms[k - 1].2 + "\n"@;
        let more = "... and "@ + decimal((n - 20) as nat) + " more matches"@;
        assert(match_lines(ms, k) == match_lines(ms, k - 1) + line);
        assert(t =~= head + (match_lines(ms, k - 1) + (line + more)));
        lemma_concat_ends(head, match_lines(ms, k - 1) + (line + more));
        assert(t =~= (head + match_lines(ms, k - 1)) + (line + more));
        lemma_concat_ends(head + match_lines(ms, k - 1), line + more);
        assert("line "@ + decimal(ms[19].1 as nat) + ", byte "@ + decimal(ms[19].0 as nat) + ": "@ + ms[19].2
            + "\n"@ + "... and "@ + decimal((ms.len() - 20) as nat) + " more matches"@ =~= line + more);
    } else if n > 0 {
        let line = "line "@ + decimal(ms[n - 1].1 as nat) + ", byte "@ + decimal(ms[n - 1].0 as nat) + ": "@
            + ms[n - 1].2 + "\n"@;
        assert(match_lines(ms, n) == match_lines(ms, n - 1) + line);
        assert(t =~= head + (match_lines(ms, n - 1) + line));
        lemma_concat_ends(head, match_lines(ms, n - 1) + line);
        assert(t =~= (head + match_lines(ms, n - 1)) + line);
        lemma_concat_ends(head + match_lines(ms, n - 1), line);
    } else {
        assert(t =~= head);
        lemma_concat_ends(head, Seq::empty());
    }
}

/// The first `n` matches, one line each.
pub open spec fn match_lines(ms: Seq<(int, int, Seq<char>)>, n: int) -> Seq<char>
    decreases n,
{
    if n <= 0 {
        Seq::empty()
    } else {
        match_lines(ms, n - 1) + "line "@ + decimal(ms[n - 1].1 as nat) + ", byte "@ + decimal(
            ms[n - 1].0 as nat,
        ) + ": "@ + ms[n - 1].2 + "\n"@
    }
}

/// Message for a search with an empty pattern.
pub open spec fn empty_pattern_message() -> Seq<char> {
    "empty pattern"@
}

/// A search needs a non-empty pattern.
pub fn check_pattern(pattern: &str) -> (r: Result<(), String>)
    ensures
        match r {
            Ok(()) => pattern@.len() > 0,
            Err(msg) => pattern@.len() == 0 && msg@ == empty_pattern_message(),
        },
{
    if pattern.unicode_len() == 0 {
        let mut msg = String::new();
        msg.append("empty pattern");
        Err(msg)
    } else {
        Ok(())
    }
}

/// Searches the stored document `id`, whose bytes are `raw` (decoded
/// lossily), for `pattern`, ignoring case: the match count, the first
/// `MAX_MATCHES` matches with their line number, byte offset and snippet,
/// and how many more there are. No match is an ordinary reply.
pub fn search_report(id: &str, pattern: &str, raw: &[u8]) -> (s: String)
    ensures
        s@ == search_text(
            id@,
            pattern@,
            line_matches(encode_utf8(decoded(raw@)), encode_utf8(lowercase(pattern@)), 0, 1),
        ),
{
    let text = utf8_lossy(raw);
    let body = text.as_str();
    let matches = find_lines(body, pattern);
    let ghost ms = matches@.map_values(|m: (usize, usize, String)| match_view(m));
    let mut s = String::new();
    s.append("Search for '");
    s.append(pattern);
    s.append("' in ");
    s.append(id);
    s.append(": ");
    push_decimal(&mut s, matches.len());
    s.append(" match(es)\n");
    let ghost head = s@;
    let shown = if matches.len() < MAX_MATCHES { matches.len() } else { MAX_MATCHES };
    let mut i: usize = 0;
    while i < shown
        invariant
            shown <= matches@.len(),
            i <= shown,
            ms == matches@.map_values(|m: (usize, usize, String)| match_view(m)),
            s@ == head + match_lines(ms, i as int),
        decreases shown - i,
    {
        s.append("line ");
        push_decimal(&mut s, matches[i].1);
        s.append(", byte ");
        push_decimal(&mut s, matches[i].0);
        s.append(": ");
        s.append(matches[i].2.as_str());
        s.append("\n");
        i = i + 1;
    }
    if matches.len() > MAX_MATCHES {
        s.append("... and ");
        push_decimal(&mut s, matches.len() - MAX_MATCHES);
        s.append(" more matches");
    }
    s
}

} // verus!
