//! The reply to a fetch: the whole body inline for small documents, an id
//! and a preview for large ones. Fetching and storing are the caller's.

use vstd::prelude::*;
use vstd::slice::slice_subrange;
use vstd::string::*;
use crate::text::{decimal, decoded, ends_with, lemma_concat_ends, push_decimal, starts_with, utf8_lossy};

verus! {

/// Bodies shorter than this are returned inline.
pub const INLINE_LIMIT: usize = 32 * 1024;

/// Bytes of a large body shown as its preview.
pub const PREVIEW_BYTES: usize = 2048;

/// The reply for a body of `body` fetched from `url` with content type
/// `content_type` and stored under `id`.
pub open spec fn fetch_text(url: Seq<char>, id: Seq<char>, content_type: Seq<char>, body: Seq<u8>) -> Seq<char> {
    let len = decimal(body.len());
    if body.len() < INLINE_LIMIT {
        "[stored: "@ + id + " ("@ + len + " bytes, "@ + content_type + ")]\n"@ + decoded(body)
    } else {
        "Document stored: "@ + id + " ("@ + len + " bytes, "@ + content_type + ")\nurl: "@ + url
            + "\nPreview (first "@ + decimal(PREVIEW_BYTES as nat) + " bytes):\n"@ + decoded(
            body.subrange(0, PREVIEW_BYTES as int),
        )
    }
}

/// The reply for a stored fetch (see `fetch_text`).
pub fn fetch_response(url: &str, id: &str, content_type: &str, body: &[u8]) -> (s: String)
    ensures
        s@ == fetch_text(url@, id@, content_type@, body@),
{
    let mut s = String::new();
    if body.len() < INLINE_LIMIT {
        s.append("[stored: ");
        s.append(id);
        s.append(" (");
        push_decimal(&mut s, body.len());
        s.append(" bytes, ");
        s.append(content_type);
        s.append(")]\n");
        let text = utf8_lossy(body);
        s.append(text.as_str());
    } else {
        s.append("Document stored: ");
        s.append(id);
        s.append(" (");
        push_decimal(&mut s, body.len());
        s.append(" bytes, ");
        s.append(content_type);
        s.append(")\nurl: ");
        s.append(url);
        s.append("\nPreview (first ");
        push_decimal(&mut s, PREVIEW_BYTES);
        s.append(" bytes):\n");
        let text = utf8_lossy(slice_subrange(body, 0, PREVIEW_BYTES));
        s.append(text.as_str());
    }
    s
}

/// What a fetch reply shows: a body under 32768 bytes whole, after a
/// header with the id, the body's size and its content type; a larger body
/// as a header with the id, size, content type and URL, then a preview of
/// its first 2048 bytes (a prefix of the body, never a later part), right
/// after a line that names that count.
pub proof fn law_fetch_shows_body_prefix(url: Seq<char>, id: Seq<char>, content_type: Seq<char>, body: Seq<u8>)
    ensures
        body.len() < 32768 ==> starts_with(
            fetch_text(url, id, content_type, body),
            "[stored: "@ + id + " ("@ + decimal(body.len()) + " bytes, "@ + content_type + ")]\n"@,
        ) && ends_with(fetch_text(url, id, content_type, body), ")]\n"@ + decoded(body)),
        body.len() >= 32768 ==> starts_with(
            fetch_text(url, id, content_type, body),
            "Document stored: "@ + id + " ("@ + decimal(body.len()) + " bytes, "@ + content_type + ")\nurl: "@ + url,
        ) && ends_with(
            fetch_text(url, id, content_type, body),
            "\nurl: "@ + url + "\nPreview (first "@ + decimal(2048) + " bytes):\n"@ + decoded(body.subrange(0, 2048)),
        ),
{
    let t = fetch_text(url, id, content_type, body);
    let len = decimal(body.len());
    if body.len() < INLINE_LIMIT {
        let p = "[stored: "@ + id + " ("@ + len + " bytes, "@ + content_type + ")]\n"@;
        let q = ")]\n"@ + decoded(body);
        assert(t =~= p + decoded(body));
        lemma_concat_ends(p, decoded(body));
        let mid = "[stored: "@ + id + " ("@ + len + " bytes, "@ + content_type;
        assert(t =~= mid + q);
        lemma_concat_ends(mid, q);
    } else {
        reveal_strlit(")\nurl: ");
        reveal_strlit(")");
        reveal_strlit("\nurl: ");
        assert(")\nurl: "@ =~= ")"@ + "\nurl: "@);
        let p = "Document stored: "@ + id + " ("@ + len + " bytes, "@ + content_type + ")\nurl: "@ + url;
        let rest = "\nPreview (first "@ + decimal(2048) + " bytes):\n"@ + decoded(body.subrange(0, 2048));
        assert(t =~= p + rest);
        lemma_concat_ends(p, rest);
        let q = "\nurl: "@ + url + rest;
        let mid = "Document stored: "@ + id + " ("@ + len + " bytes, "@ + content_type + ")"@;
        assert(t =~= mid + q);
        lemma_concat_ends(mid, q);
        assert(q =~= "\nurl: "@ + url + "\nPreview (first "@ + decimal(2048) + " bytes):\n"@ + decoded(
            body.subrange(0, 2048),
        ));
    }
}

} // verus!
