//! Identity of stored documents: the id a URL is stored under, and which
//! ids name a stored document. Reading and writing files is the caller's.

use vstd::prelude::*;
use vstd::string::*;
use vstd::utf8::*;
use sha2::Digest;

verus! {

broadcast use vstd::utf8::group_utf8_lib;

/// Extension of the metadata file stored beside each document.
pub const SIDECAR_EXT: &'static str = "json";

/// The SHA-256 digest of `data` (FIPS 180-4).
pub uninterp spec fn sha256(data: Seq<u8>) -> Seq<u8>;

/// `Sha256::digest` of the `sha2` crate: new hasher, one `update` with
/// `data`, `finalize`. The digest is named `sha256`; it is 32 bytes long.
#[verifier::external_body]
fn sha256_digest(data: &[u8]) -> (d: Vec<u8>)
    ensures
        d@ == sha256(data@),
        d@.len() == 32,
{
    let mut hasher = sha2::Sha256::new();
    hasher.update(data);
    hasher.finalize().to_vec()
}

/// The lowercase hexadecimal digit for `d` (0 to 15).
pub open spec fn hex_digit(d: int) -> char {
    if d < 10 {
        (48 + d) as char
    } else {
        (87 + d) as char
    }
}

/// Two lowercase hexadecimal digits per byte.
pub open spec fn hex(bytes: Seq<u8>) -> Seq<char>
    decreases bytes.len(),
{
    if bytes.len() == 0 {
        Seq::empty()
    } else {
        hex(bytes.drop_last()) + seq![
            hex_digit(bytes.last() as int / 16),
            hex_digit(bytes.last() as int % 16),
        ]
    }
}

/// The one-character text of hexadecimal digit `d`.
fn hex_digit_text(d: u8) -> (s: &'static str)
    requires
        d < 16,
    ensures
        s@ == seq![hex_digit(d as int)],
{
    proof {
        reveal_strlit("0");
        reveal_strlit("1");
        reveal_strlit("2");
        reveal_strlit("3");
        reveal_strlit("4");
        reveal_strlit("5");
        reveal_strlit("6");
        reveal_strlit("7");
        reveal_strlit("8");
        reveal_strlit("9");
        reveal_strlit("a");
        reveal_strlit("b");
        reveal_strlit("c");
        reveal_strlit("d");
        reveal_strlit("e");
        reveal_strlit("f");
    }
    match d {
        0 => "0",
        1 => "1",
        2 => "2",
        3 => "3",
        4 => "4",
        5 => "5",
        6 => "6",
        7 => "7",
        8 => "8",
        9 => "9",
        10 => "a",
        11 => "b",
        12 => "c",
        13 => "d",
        14 => "e",
        15 => "f",
        _ => "f",
    }
}

/// Two lowercase hexadecimal digits of `b` (`format!("{:02x}", b)`).
fn hex_byte(b: u8) -> (s: String)
    ensures
        s@ == seq![hex_digit(b as int / 16), hex_digit(b as int % 16)],
{
    let mut s = String::new();
    s.append(hex_digit_text(b / 16));
    s.append(hex_digit_text(b % 16));
    s
}

/// `c` is a lowercase hexadecimal digit.
pub open spec fn is_hex_digit_char(c: char) -> bool {
    (48 <= c as int <= 57) || (97 <= c as int <= 102)
}

proof fn lemma_hex_digits(d: Seq<u8>)
    ensures
        hex(d).len() == 2 * d.len(),
        forall|i: int| 0 <= i < hex(d).len() ==> is_hex_digit_char(#[trigger] hex(d)[i]),
    decreases d.len(),
{
    if d.len() > 0 {
        lemma_hex_digits(d.drop_last());
        let x = d.last() as int;
        let hi = hex_digit(x / 16);
        let lo = hex_digit(x % 16);
        assert(is_hex_digit_char(hi));
        assert(is_hex_digit_char(lo));
        let p = hex(d.drop_last());
        assert forall|i: int| 0 <= i < hex(d).len() implies is_hex_digit_char(#[trigger] hex(d)[i]) by {
            if i < p.len() {
                assert(hex(d)[i] == p[i]);
            }
        }
    }
}

/// Every id `doc_id` gives is one `check_doc_id` accepts: the lowercase hex
/// form of a 32-byte digest is 64 lowercase hex digits, one byte each.
pub proof fn law_digest_ids_are_valid(digest: Seq<u8>)
    requires
        digest.len() == 32,
    ensures
        is_doc_id(encode_utf8(hex(digest))),
{
    lemma_hex_digits(digest);
    let h = hex(digest);
    assert(is_ascii_chars(h));
    let e = encode_utf8(h);
    assert forall|i: int| 0 <= i < 64 implies is_lower_hex_byte(#[trigger] e[i]) by {
        assert(h[i] as u8 == e[i]);
        assert(is_hex_digit_char(h[i]));
    }
}

/// The id a document fetched from `url` is stored under: the SHA-256 of
/// the URL's bytes, in lowercase hexadecimal.
pub fn doc_id(url: &str) -> (id: String)
    ensures
        id@ == hex(sha256(url.spec_bytes())),
        id@.len() == 64,
        is_doc_id(encode_utf8(id@)),
{
    let digest = sha256_digest(url.as_bytes());
    let mut id = String::new();
    let mut i: usize = 0;
    while i < digest.len()
        invariant
            i <= digest@.len() == 32,
            id@ == hex(digest@.take(i as int)),
            id@.len() == 2 * i,
        decreases digest@.len() - i,
    {
        let h = hex_byte(digest[i]);
        id.append(h.as_str());
        assert(digest@.take(i + 1).drop_last() =~= digest@.take(i as int));
        i = i + 1;
    }
    assert(digest@.take(32) =~= digest@);
    proof {
        law_digest_ids_are_valid(digest@);
    }
    id
}

pub open spec fn is_lower_hex_byte(c: u8) -> bool {
    (48 <= c <= 57) || (97 <= c <= 102)
}

/// `id` can name a stored document: the full 64-digit lowercase hex form
/// of a SHA-256 (no prefixes).
pub open spec fn is_doc_id(id: Seq<u8>) -> bool {
    id.len() == 64 && forall|i: int| 0 <= i < 64 ==> is_lower_hex_byte(#[trigger] id[i])
}

/// Message for an id that cannot name a stored document.
pub open spec fn invalid_id_message() -> Seq<char> {
    "invalid document id"@
}

/// Accepts exactly the ids `is_doc_id` describes; this also keeps paths
/// built from an id inside the data directory.
pub fn check_doc_id(id: &str) -> (r: Result<(), String>)
    ensures
        match r {
            Ok(()) => is_doc_id(id.spec_bytes()),
            Err(msg) => !is_doc_id(id.spec_bytes()) && msg@ == invalid_id_message(),
        },
{
    let b = id.as_bytes();
    let mut ok = b.len() == 64;
    let mut i: usize = 0;
    while ok && i < b.len()
        invariant
            ok ==> b@.len() == 64,
            i <= b@.len(),
            ok ==> forall|j: int| 0 <= j < i ==> is_lower_hex_byte(#[trigger] b@[j]),
            !ok ==> !is_doc_id(b@),
        decreases b@.len() - i,
    {
        let c = b[i];
        if !((48 <= c && c <= 57) || (97 <= c && c <= 102)) {
            ok = false;
        }
        i = i + 1;
    }
    if ok {
        Ok(())
    } else {
        let mut msg = String::new();
        msg.append("invalid document id");
        Err(msg)
    }
}

/// Name of the metadata file stored beside document `id`.
pub fn sidecar_name(id: &str) -> (name: String)
    ensures
        name@ == id@ + "."@ + SIDECAR_EXT@,
{
    let mut name = String::new();
    name.append(id);
    name.append(".");
    name.append(SIDECAR_EXT);
    name
}

} // verus!
