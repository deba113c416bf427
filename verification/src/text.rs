//! Byte-level views of UTF-8 text: character boundaries, slicing a `str` at
//! byte offsets, and decimal rendering of numbers.

use vstd::prelude::*;
use vstd::utf8::*;
use vstd::string::*;

verus! {

broadcast use vstd::utf8::group_utf8_lib;

/// `i` is a position in `b` at which a character starts (or the end of `b`).
pub open spec fn at_boundary(b: Seq<u8>, i: int) -> bool {
    ||| i == 0
    ||| i == b.len()
    ||| (0 < i < b.len() && !is_continuation_byte(b[i]))
}

/// The largest character boundary at or before `i` (the end of `b` when
/// `i` lies beyond it).
pub open spec fn floor_boundary(b: Seq<u8>, i: int) -> int
    decreases i,
{
    if i >= b.len() {
        b.len() as int
    } else if i <= 0 || !is_continuation_byte(b[i]) {
        if i <= 0 { 0 } else { i }
    } else {
        floor_boundary(b, i - 1)
    }
}

pub proof fn lemma_floor_boundary(b: Seq<u8>, i: int)
    requires
        0 <= i,
    ensures
        0 <= floor_boundary(b, i) <= b.len(),
        floor_boundary(b, i) <= i,
        at_boundary(b, floor_boundary(b, i)),
    decreases i,
{
    if i >= b.len() {
    } else if i <= 0 || !is_continuation_byte(b[i]) {
    } else {
        lemma_floor_boundary(b, i - 1);
    }
}

/// The floor of `i` is at least any boundary `j <= i`.
pub proof fn lemma_floor_boundary_ge(b: Seq<u8>, i: int, j: int)
    requires
        0 <= j <= i,
        at_boundary(b, j),
    ensures
        floor_boundary(b, i) >= j,
    decreases i,
{
    if i < b.len() && i > 0 && is_continuation_byte(b[i]) {
        if j < i {
            lemma_floor_boundary_ge(b, i - 1, j);
        }
    }
}

/// The characters that the bytes `s..e` of valid UTF-8 text encode.
pub open spec fn text_of(b: Seq<u8>, s: int, e: int) -> Seq<char> {
    decode_utf8(b.subrange(s, e))
}

/// In valid UTF-8, the byte after an ASCII byte starts a character.
pub proof fn lemma_after_ascii_is_boundary(b: Seq<u8>, p: int)
    requires
        valid_utf8(b),
        0 < p <= b.len(),
        b[p - 1] < 0x80,
    ensures
        at_boundary(b, p),
    decreases b.len(),
{
    if p < b.len() {
        reveal_with_fuel(valid_utf8, 2);
        let l = length_of_first_scalar(b);
        if p < l {
            assert(false);
        } else if p == l {
            let rest = pop_first_scalar(b);
            assert(rest.len() > 0);
            assert(rest[0] == b[p]);
        } else {
            let rest = pop_first_scalar(b);
            assert(rest[p - l - 1] == b[p - 1]);
            lemma_after_ascii_is_boundary(rest, p - l);
            assert(rest[p - l] == b[p]);
        }
    }
}

/// Our byte-local boundary test agrees with vstd's on valid UTF-8.
pub proof fn lemma_at_boundary_is_char_boundary(b: Seq<u8>, i: int)
    requires
        valid_utf8(b),
        at_boundary(b, i),
    ensures
        is_char_boundary(b, i),
{
    is_char_boundary_start_end_of_seq(b);
    if 0 < i < b.len() {
        is_char_boundary_iff_not_is_continuation_byte(b, i);
    }
}

/// An owned copy of `&s[start..end]`.
pub fn str_range_to_string(s: &str, start: usize, end: usize) -> (r: String)
    requires
        start <= end <= s.spec_bytes().len(),
        at_boundary(s.spec_bytes(), start as int),
        at_boundary(s.spec_bytes(), end as int),
    ensures
        r@ == text_of(s.spec_bytes(), start as int, end as int),
{
    let piece = str_slice(s, start, end);
    piece.to_owned()
}

/// `s.floor_char_boundary(i)` on the bytes of a `str`: the largest
/// character boundary at or before `i`, or the length when `i` is past it.
pub fn floor_char_boundary(b: &[u8], i: usize) -> (r: usize)
    ensures
        r == floor_boundary(b@, i as int),
{
    if i >= b.len() {
        return b.len();
    }
    let mut j = i;
    while j > 0 && 0x80u8 <= b[j] && b[j] <= 0xbfu8
        invariant
            j <= i < b@.len(),
            floor_boundary(b@, j as int) == floor_boundary(b@, i as int),
        decreases j,
    {
        j = j - 1;
    }
    j
}

/// `&s[start..end]` for byte offsets on character boundaries.
pub fn str_slice<'a>(s: &'a str, start: usize, end: usize) -> (r: &'a str)
    requires
        start <= end <= s.spec_bytes().len(),
        at_boundary(s.spec_bytes(), start as int),
        at_boundary(s.spec_bytes(), end as int),
    ensures
        r.spec_bytes() == s.spec_bytes().subrange(start as int, end as int),
{
    let ghost b = s.spec_bytes();
    proof {
        lemma_at_boundary_is_char_boundary(b, start as int);
    }
    let (_, tail) = s.split_at(start);
    let ghost t = tail.spec_bytes();
    assert(t =~= b.subrange(start as int, b.len() as int));
    proof {
        if 0 < end - start < t.len() {
            assert(t[end - start] == b[end as int]);
        }
        lemma_at_boundary_is_char_boundary(t, end - start);
    }
    let (piece, _) = tail.split_at(end - start);
    assert(piece.spec_bytes() =~= b.subrange(start as int, end as int));
    piece
}


/// The ASCII digit for `d` (0 to 9).
pub open spec fn digit_char(d: int) -> char {
    (48 + d) as char
}

/// Decimal digits of `n`, most significant first, without leading zeros.
pub open spec fn decimal(n: nat) -> Seq<char>
    decreases n,
{
    if n < 10 {
        seq![digit_char(n as int)]
    } else {
        decimal(n / 10).push(digit_char((n % 10) as int))
    }
}

/// Decimal rendering of a signed integer, with a leading `-` when negative.
pub open spec fn signed_decimal(n: int) -> Seq<char> {
    if n < 0 {
        seq!['-'] + decimal((-n) as nat)
    } else {
        decimal(n as nat)
    }
}

/// The one-character text of decimal digit `d`.
fn digit_text(d: u64) -> (s: &'static str)
    requires
        d < 10,
    ensures
        s@ == seq![digit_char(d as int)],
{
    proof {
        reveal_strlit("0");
        reveal_strlit("1");
        reveal_strlit("2");
        reveal_strlit("3");
        reveal_strlit("4");
        reveal_strlit("5");
        reveal_strlit("6");
        reveal_strlit("7");
        reveal_strlit("8");
        reveal_strlit("9");
    }
    match d {
        0 => "0",
        1 => "1",
        2 => "2",
        3 => "3",
        4 => "4",
        5 => "5",
        6 => "6",
        7 => "7",
        8 => "8",
        9 => "9",
        _ => "9",
    }
}

/// Appends `n` in decimal.
fn push_decimal_u64(out: &mut String, n: u64)
    ensures
        final(out)@ == old(out)@ + decimal(n as nat),
    decreases n,
{
    if n >= 10 {
        push_decimal_u64(out, n / 10);
    }
    out.append(digit_text(n % 10));
    assert(old(out)@ + decimal(n as nat) =~= if n >= 10 {
        old(out)@ + decimal((n / 10) as nat) + seq![digit_char((n % 10) as int)]
    } else {
        old(out)@ + seq![digit_char(n as int)]
    });
}

/// `n` in decimal, as `n.to_string()` renders an unsigned integer.
pub(crate) fn usize_to_string(n: usize) -> (s: String)
    ensures
        s@ == decimal(n as nat),
{
    let mut s = String::new();
    push_decimal_u64(&mut s, n as u64);
    s
}

/// `n` in decimal with a leading `-` when negative, as `n.to_string()`
/// renders a signed integer.
pub(crate) fn i32_to_string(n: i32) -> (s: String)
    ensures
        s@ == signed_decimal(n as int),
{
    let mut s = String::new();
    if n < 0 {
        s.append("-");
        proof {
            reveal_strlit("-");
        }
        let m = (0i64 - n as i64) as u64;
        push_decimal_u64(&mut s, m);
    } else {
        push_decimal_u64(&mut s, n as u64);
    }
    s
}

/// Appends the decimal rendering of `n`.
pub fn push_decimal(out: &mut String, n: usize)
    ensures
        final(out)@ == old(out)@ + decimal(n as nat),
{
    let d = usize_to_string(n);
    out.append(d.as_str());
}

/// What `String::from_utf8_lossy` decodes from `bytes`: valid sequences as
/// their characters, each invalid sequence as U+FFFD.
pub uninterp spec fn lossy_decode(bytes: Seq<u8>) -> Seq<char>;

/// `String::from_utf8_lossy(bytes)`, owned. Its documentation states that
/// valid UTF-8 comes back unchanged; what replaces invalid sequences is left
/// to the name `lossy_decode`.
#[verifier::external_body]
pub(crate) fn utf8_lossy(bytes: &[u8]) -> (s: String)
    ensures
        s@ == lossy_decode(bytes@),
        valid_utf8(bytes@) ==> s@ == decode_utf8(bytes@),
{
    String::from_utf8_lossy(bytes).into_owned()
}

/// The text bytes decode to: their characters when they are valid UTF-8,
/// else what `String::from_utf8_lossy` gives.
pub open spec fn decoded(bytes: Seq<u8>) -> Seq<char> {
    if valid_utf8(bytes) {
        decode_utf8(bytes)
    } else {
        lossy_decode(bytes)
    }
}

/// `t` begins with `p`.
pub open spec fn starts_with(t: Seq<char>, p: Seq<char>) -> bool {
    p.len() <= t.len() && t.subrange(0, p.len() as int) == p
}

/// `t` ends with `q`.
pub open spec fn ends_with(t: Seq<char>, q: Seq<char>) -> bool {
    q.len() <= t.len() && t.subrange(t.len() - q.len(), t.len() as int) == q
}

/// A concatenation begins with its first part and ends with its second.
pub proof fn lemma_concat_ends(p: Seq<char>, q: Seq<char>)
    ensures
        starts_with(p + q, p),
        ends_with(p + q, q),
{
    assert((p + q).subrange(0, p.len() as int) =~= p);
    assert((p + q).subrange((p + q).len() - q.len(), (p + q).len() as int) =~= q);
}

} // verus!
