//! The JSON object in a model's reply: inside a ``` fence when the reply
//! has one, from the first `{` to the last `}`, parsed with `serde_json`.

use vstd::prelude::*;
use vstd::string::*;
use vstd::utf8::decode_utf8;
use crate::text::{at_boundary, str_slice};

verus! {

broadcast use vstd::utf8::group_utf8_lib;

/// Bytes of a Markdown code fence.
pub open spec fn fence() -> Seq<u8> {
    seq![96u8, 96u8, 96u8]
}

/// `n` occurs in `b` at byte `i`.
pub open spec fn found_at(b: Seq<u8>, n: Seq<u8>, i: int) -> bool {
    0 <= i && i + n.len() <= b.len() && b.subrange(i, i + n.len()) == n
}

/// First occurrence of `n` in `b` at or after `i`, or -1 (`str::find`).
pub open spec fn first_from(b: Seq<u8>, n: Seq<u8>, i: int) -> int
    decreases b.len() + 1 - i,
{
    if i < 0 || i + n.len() > b.len() {
        -1
    } else if found_at(b, n, i) {
        i
    } else {
        first_from(b, n, i + 1)
    }
}

/// Last occurrence of `n` in `b` starting before `i`, or -1 (`str::rfind`
/// with `i` the length).
pub open spec fn last_before(b: Seq<u8>, n: Seq<u8>, i: int) -> int
    decreases i,
{
    if i <= 0 {
        -1
    } else if found_at(b, n, i - 1) {
        i - 1
    } else {
        last_before(b, n, i - 1)
    }
}

/// The part of the reply searched for the object: between the first and
/// the last fence when the last comes after the first, else all of it.
pub open spec fn candidate_range(b: Seq<u8>) -> (int, int) {
    let open = first_from(b, fence(), 0);
    let close = last_before(b, fence(), b.len() as int);
    if open >= 0 && close > open {
        (open + 3, close)
    } else {
        (0, b.len() as int)
    }
}

/// The first `{` and last `}` of the searched part, relative to it.
pub open spec fn brace_span(c: Seq<u8>) -> (int, int) {
    (first_from(c, seq![123u8], 0), last_before(c, seq![125u8], c.len() as int))
}

/// The reply can be cut as described: the fences do not overlap, and the
/// last `}` does not come before the byte ahead of the first `{` (it may
/// be that byte, which leaves an empty cut). On other replies a cut would
/// end before it starts.
pub open spec fn json_cut_defined(b: Seq<u8>) -> bool {
    let (cs, ce) = candidate_range(b);
    &&& cs <= ce
    &&& ({
        let (s, e) = brace_span(b.subrange(cs, ce));
        s >= 0 && e >= 0 ==> s <= e + 1
    })
}

pub open spec fn no_object_message() -> Seq<char> {
    "no JSON object found"@
}

pub open spec fn no_closing_message() -> Seq<char> {
    "no closing brace found"@
}

/// Where the JSON object of reply `b` lies, as a byte range of `b`, or why
/// there is none.
pub open spec fn json_cut(b: Seq<u8>) -> Result<(int, int), Seq<char>> {
    let (cs, ce) = candidate_range(b);
    let (s, e) = brace_span(b.subrange(cs, ce));
    if s < 0 {
        Err(no_object_message())
    } else if e < 0 {
        Err(no_closing_message())
    } else {
        Ok((cs + s, cs + e + 1))
    }
}

proof fn lemma_first_from(b: Seq<u8>, n: Seq<u8>, i: int)
    requires
        0 <= i,
    ensures
        first_from(b, n, i) == -1 || (i <= first_from(b, n, i) && found_at(b, n, first_from(b, n, i))),
    decreases b.len() + 1 - i,
{
    if i + n.len() <= b.len() && !found_at(b, n, i) {
        lemma_first_from(b, n, i + 1);
    }
}

proof fn lemma_last_before(b: Seq<u8>, n: Seq<u8>, i: int)
    ensures
        last_before(b, n, i) == -1 || (0 <= last_before(b, n, i) < i && found_at(b, n, last_before(b, n, i))),
    decreases i,
{
    if i > 0 && !found_at(b, n, i - 1) {
        lemma_last_before(b, n, i - 1);
    }
}

/// Whether `n` occurs in `b` at `i`.
fn matches_at(b: &[u8], n: &[u8], i: usize) -> (r: bool)
    ensures
        r == found_at(b@, n@, i as int),
{
    if i > b.len() || n.len() > b.len() - i {
        return false;
    }
    let mut j: usize = 0;
    while j < n.len()
        invariant
            i + n@.len() <= b@.len(),
            b@.len() <= usize::MAX,
            j <= n@.len(),
            forall|q: int| 0 <= q < j ==> b@[i + q] == n@[q],
        decreases n@.len() - j,
    {
        if b[i + j] != n[j] {
            assert(b@.subrange(i as int, i + n@.len())[j as int] != n@[j as int]);
            return false;
        }
        j = j + 1;
    }
    assert(b@.subrange(i as int, i + n@.len()) =~= n@);
    true
}

/// The first occurrence of `n` in `b` at or after `from` (`str::find`).
fn find_from(b: &[u8], n: &[u8], from: usize) -> (r: Option<usize>)
    requires
        n@.len() > 0,
    ensures
        match r {
            Some(i) => i == first_from(b@, n@, from as int),
            None => first_from(b@, n@, from as int) == -1,
        },
{
    let len = b.len();
    let mut i = from;
    while i <= b.len() && n.len() <= b.len() - i
        invariant
            from <= i,
            n@.len() > 0,
            b@.len() <= usize::MAX,
            first_from(b@, n@, from as int) == first_from(b@, n@, i as int),
        decreases b@.len() + 1 - i,
    {
        if matches_at(b, n, i) {
            return Some(i);
        }
        i = i + 1;
    }
    None
}

/// The last occurrence of `n` in `b` (`str::rfind`).
fn find_last(b: &[u8], n: &[u8]) -> (r: Option<usize>)
    ensures
        match r {
            Some(i) => i == last_before(b@, n@, b@.len() as int),
            None => last_before(b@, n@, b@.len() as int) == -1,
        },
{
    let mut i = b.len();
    while i > 0
        invariant
            i <= b@.len(),
            last_before(b@, n@, b@.len() as int) == last_before(b@, n@, i as int),
        decreases i,
    {
        if matches_at(b, n, i - 1) {
            return Some(i - 1);
        }
        i = i - 1;
    }
    None
}

/// Whether `json_object_text` is defined on `text` (see `json_cut_defined`).
pub fn json_cut_is_defined(text: &str) -> (r: bool)
    ensures
        r == json_cut_defined(text.spec_bytes()),
{
    let b = text.as_bytes();
    let (cs, ce) = candidate_bounds(b);
    if cs > ce {
        return false;
    }
    let c = vstd::slice::slice_subrange(b, cs, ce);
    let s = find_from(c, &[123u8], 0);
    let e = find_last(c, &[125u8]);
    assert(seq![123u8] =~= [123u8]@);
    assert(seq![125u8] =~= [125u8]@);
    match (s, e) {
        (Some(s), Some(e)) => s <= e || s - e == 1,
        _ => true,
    }
}

/// `candidate_range`, computed.
fn candidate_bounds(b: &[u8]) -> (r: (usize, usize))
    ensures
        r.0 as int == candidate_range(b@).0,
        r.1 as int == candidate_range(b@).1,
        r.1 <= b@.len(),
{
    let len = b.len();
    let f: [u8; 3] = [96u8, 96u8, 96u8];
    assert(f@ =~= fence());
    let open = find_from(b, &f, 0);
    let close = find_last(b, &f);
    proof {
        lemma_first_from(b@, fence(), 0);
        lemma_last_before(b@, fence(), b@.len() as int);
    }
    match (open, close) {
        (Some(o), Some(c)) => {
            if c > o {
                (o + 3, c)
            } else {
                (0, b.len())
            }
        },
        _ => (0, b.len()),
    }
}

/// The JSON object text of a model reply: from the first `{` to the last
/// `}` of the part between the first and last ``` fences (when the last
/// comes after the first), else of the whole reply; an error when there
/// is no `{`, or no `}`.
pub fn json_object_text(text: &str) -> (r: Result<&str, String>)
    requires
        json_cut_defined(text.spec_bytes()),
    ensures
        match json_cut(text.spec_bytes()) {
            Ok((s, e)) => r is Ok && r->Ok_0.spec_bytes() == text.spec_bytes().subrange(s, e),
            Err(m) => r is Err && r->Err_0@ == m,
        },
{
    let b = text.as_bytes();
    let ghost bs = b@;
    let (cs, ce) = candidate_bounds(b);
    let c = vstd::slice::slice_subrange(b, cs, ce);
    assert(c@ == bs.subrange(cs as int, ce as int));
    let s = find_from(c, &[123u8], 0);
    let e = find_last(c, &[125u8]);
    assert(seq![123u8] =~= [123u8]@);
    assert(seq![125u8] =~= [125u8]@);
    proof {
        lemma_first_from(c@, seq![123u8], 0);
        lemma_last_before(c@, seq![125u8], c@.len() as int);
    }
    match s {
        None => {
            let mut m = String::new();
            m.append("no JSON object found");
            Err(m)
        },
        Some(s) => match e {
            None => {
                let mut m = String::new();
                m.append("no closing brace found");
                Err(m)
            },
            Some(e) => {
                let start = cs + s;
                let end = cs + e + 1;
                proof {
                    assert(c@.subrange(s as int, s + 1)[0] == bs[start as int]);
                    assert(c@.subrange(e as int, e + 1)[0] == bs[cs + e]);
                    assert(at_boundary(bs, start as int));
                    crate::text::lemma_after_ascii_is_boundary(bs, end as int);
                }
                Ok(str_slice(text, start, end))
            },
        },
    }
}

/// `serde_json::Value`, carried through unread.
#[verifier::external_type_specification]
#[verifier::external_body]
pub struct ExJsonValue(serde_json::Value);

/// What `serde_json` reads from `text`: the JSON value, or the message of
/// its error.
pub uninterp spec fn json_parse(text: Seq<char>) -> Result<serde_json::Value, Seq<char>>;

/// `serde_json::from_str::<serde_json::Value>`, with a failure given as
/// the error's message. The outcome is named `json_parse`; nothing is
/// claimed of what the value holds.
#[verifier::external_body]
fn parse_json_value(text: &str) -> (r: Result<serde_json::Value, String>)
    ensures
        match r {
            Ok(v) => json_parse(text@) == Ok::<serde_json::Value, Seq<char>>(v),
            Err(m) => json_parse(text@) == Err::<serde_json::Value, Seq<char>>(m@),
        },
{
    serde_json::from_str(text).map_err(|e| e.to_string())
}

/// The JSON object of a model reply (see `json_object_text`), parsed; the
/// error of the cut, or the parser's message.
pub fn extract_json(text: &str) -> (r: Result<serde_json::Value, String>)
    requires
        json_cut_defined(text.spec_bytes()),
    ensures
        match json_cut(text.spec_bytes()) {
            Err(m) => r is Err && r->Err_0@ == m,
            Ok((s, e)) => match json_parse(decode_utf8(text.spec_bytes().subrange(s, e))) {
                Ok(v) => r == Ok::<serde_json::Value, String>(v),
                Err(m) => r is Err && r->Err_0@ == m,
            },
        },
{
    let piece = json_object_text(text)?;
    proof {
        assert(piece@ == decode_utf8(piece.spec_bytes()));
    }
    parse_json_value(piece)
}

pub open spec fn no_choices_message() -> Seq<char> {
    "llm returned no choices"@
}

pub open spec fn no_content_message() -> Seq<char> {
    "llm returned no content"@
}

/// The text of a chat completion, given the content of each of its
/// choices: the first choice's content; an error when there is no choice,
/// or the first has no content.
pub fn reply_content(contents: Vec<Option<String>>) -> (r: Result<String, String>)
    ensures
        contents@.len() == 0 ==> r is Err && r->Err_0@ == no_choices_message(),
        contents@.len() > 0 ==> match contents@[0] {
            Some(c) => r is Ok && r->Ok_0@ == c@,
            None => r is Err && r->Err_0@ == no_content_message(),
        },
{
    let mut contents = contents;
    if contents.len() == 0 {
        let mut m = String::new();
        m.append("llm returned no choices");
        return Err(m);
    }
    match contents.swap_remove(0) {
        Some(c) => Ok(c),
        None => {
            let mut m = String::new();
            m.append("llm returned no content");
            Err(m)
        },
    }
}

} // verus!
