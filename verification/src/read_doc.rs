//! Paged reads of a stored document.

use vstd::prelude::*;
use vstd::slice::slice_subrange;
use vstd::string::*;
use crate::text::{decimal, decoded, ends_with, lemma_concat_ends, push_decimal, starts_with, utf8_lossy};

verus! {

/// Bytes a read returns when the caller gives no limit.
pub const DEFAULT_LIMIT: usize = 4096;

/// First byte of a read: the offset, clamped to the document.
pub open spec fn read_start(total: int, offset: int) -> int {
    if offset < total { offset } else { total }
}

/// End of a read: `limit` bytes on from its start, clamped to the document.
pub open spec fn read_end(total: int, start: int, limit: int) -> int {
    if start + limit < total { start + limit } else { total }
}

/// Reads page through a document: a read covers at most `limit` bytes
/// inside the document, exactly `limit` unless it reaches the end, and a
/// read from the offset where one ended (the offset its `[more: ...]`
/// pointer names) starts right there.
pub proof fn law_reads_page_through(total: int, offset: int, limit: int)
    requires
        0 <= total,
        0 <= offset,
        0 <= limit,
    ensures
        ({
            let s = read_start(total, offset);
            let e = read_end(total, s, limit);
            &&& 0 <= s <= e <= total
            &&& e - s <= limit
            &&& e < total ==> e - s == limit
            &&& offset < total ==> s == offset
            &&& read_start(total, e) == e
        }),
{
}

/// What a read shows and where the next one goes: from `s` (the offset,
/// or the document end when the offset lies past it) to `e = s + limit`
/// (or the document end), a header naming the document size and `s..e`,
/// then the bytes `s..e` decoded; when bytes remain, the text ends with a
/// pointer to `e..total`, and a read from `e` starts its range at `e`.
pub proof fn law_read_points_past_itself(id: Seq<char>, body: Seq<u8>, offset: int, limit: int, next_limit: int)
    requires
        0 <= offset,
        0 <= limit,
        0 <= next_limit,
    ensures
        ({
            let total = body.len() as int;
            let s = if offset < total { offset } else { total };
            let e = if s + limit < total { s + limit } else { total };
            let shown = "Document "@ + id + " ("@ + decimal(total as nat) + " bytes total)\nbytes "@ + decimal(
                s as nat,
            ) + ".."@ + decimal(e as nat) + ":\n"@ + decoded(body.subrange(s, e));
            &&& starts_with(read_text(id, body, offset, limit), shown)
            &&& e == total ==> read_text(id, body, offset, limit) == shown
            &&& e < total ==> ends_with(
                read_text(id, body, offset, limit),
                "\n[more: bytes "@ + decimal(e as nat) + ".."@ + decimal(total as nat) + " available]"@,
            )
            &&& e < total ==> starts_with(
                read_text(id, body, e, next_limit),
                "Document "@ + id + " ("@ + decimal(total as nat) + " bytes total)\nbytes "@ + decimal(e as nat)
                    + ".."@,
            )
        }),
{
    let total = body.len() as int;
    let s = if offset < total { offset } else { total };
    let e = if s + limit < total { s + limit } else { total };
    let shown = "Document "@ + id + " ("@ + decimal(total as nat) + " bytes total)\nbytes "@ + decimal(s as nat)
        + ".."@ + decimal(e as nat) + ":\n"@ + decoded(body.subrange(s, e));
    let t = read_text(id, body, offset, limit);
    let tail = if e < total {
        "\n[more: bytes "@ + decimal(e as nat) + ".."@ + decimal(total as nat) + " available]"@
    } else {
        Seq::empty()
    };
    assert(t =~= shown + tail);
    lemma_concat_ends(shown, tail);
    if e < total {
        let e2 = if e + next_limit < total { e + next_limit } else { total };
        let head = "Document "@ + id + " ("@ + decimal(total as nat) + " bytes total)\nbytes "@ + decimal(e as nat)
            + ".."@;
        let t2 = read_text(id, body, e, next_limit);
        let rest = decimal(e2 as nat) + ":\n"@ + decoded(body.subrange(e, e2)) + if e2 < total {
            "\n[more: bytes "@ + decimal(e2 as nat) + ".."@ + decimal(total as nat) + " available]"@
        } else {
            Seq::empty()
        };
        assert(t2 =~= head + rest);
        lemma_concat_ends(head, rest);
    } else {
        assert(t =~= shown);
    }
}

/// The text of a read of `body` (stored under `id`) from `offset`: a
/// header with the document size and the byte range, the range decoded
/// lossily, and a pointer to the rest when bytes remain after it.
pub open spec fn read_text(id: Seq<char>, body: Seq<u8>, offset: int, limit: int) -> Seq<char> {
    let total = body.len() as int;
    let start = read_start(total, offset);
    let end = read_end(total, start, limit);
    let tail = if end < total {
        "\n[more: bytes "@ + decimal(end as nat) + ".."@ + decimal(total as nat) + " available]"@
    } else {
        Seq::empty()
    };
    "Document "@ + id + " ("@ + decimal(total as nat) + " bytes total)\nbytes "@ + decimal(start as nat)
        + ".."@ + decimal(end as nat) + ":\n"@ + decoded(body.subrange(start, end)) + tail
}

/// Reads up to `limit` bytes of the stored document `body` from `offset`
/// (see `read_text`).
pub fn read_chunk(id: &str, body: &[u8], offset: usize, limit: usize) -> (s: String)
    ensures
        s@ == read_text(id@, body@, offset as int, limit as int),
{
    let total = body.len();
    let start = if offset < total { offset } else { total };
    let end = if limit < total - start { start + limit } else { total };
    let piece = utf8_lossy(slice_subrange(body, start, end));
    let mut s = String::new();
    s.append("Document ");
    s.append(id);
    s.append(" (");
    push_decimal(&mut s, total);
    s.append(" bytes total)\nbytes ");
    push_decimal(&mut s, start);
    s.append("..");
    push_decimal(&mut s, end);
    s.append(":\n");
    s.append(piece.as_str());
    if end < total {
        s.append("\n[more: bytes ");
        push_decimal(&mut s, end);
        s.append("..");
        push_decimal(&mut s, total);
        s.append(" available]");
    }
    s
}

} // verus!
