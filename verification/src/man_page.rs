//! Man-page lookup rules: which topics and sections are accepted, the
//! arguments `man` is run with, how its exit status and output become a
//! result, and the messages of its errors. Running `man` is the caller's.

use vstd::prelude::*;
use vstd::utf8::*;
use vstd::string::*;
use std::time::Duration;
use crate::text::{at_boundary, floor_boundary, floor_char_boundary, lemma_floor_boundary,
    signed_decimal, i32_to_string, text_of, utf8_lossy};
use vstd::slice::slice_subrange;

verus! {

broadcast use vstd::utf8::group_utf8_lib;

/// Limits of one lookup.
#[derive(Clone, Copy, Debug)]
pub struct ManLookupConfig {
    /// Most bytes of page text returned before the truncation marker.
    pub max_output_bytes: usize,
    /// How long `man` may run.
    pub timeout: Duration,
}

/// The duration `Duration::from_secs(secs)` returns.
pub uninterp spec fn duration_from_secs(secs: u64) -> Duration;

/// `Duration::from_secs(secs)`; the duration is named `duration_from_secs`
/// and nothing more is claimed of it.
#[verifier::external_body]
fn duration_secs(n: u64) -> (d: Duration)
    ensures
        d == duration_from_secs(n),
{
    Duration::from_secs(n)
}

impl Default for ManLookupConfig {
    /// 8192 bytes of output, ten seconds.
    fn default() -> (c: Self)
        ensures
            c.max_output_bytes == 8192,
            c.timeout == duration_from_secs(10),
    {
        ManLookupConfig { max_output_bytes: 8192, timeout: duration_secs(10) }
    }
}

/// A looked-up page.
#[derive(Debug)]
pub struct ManPageResult {
    pub content: String,
    /// Some page text was left out because of `max_output_bytes`.
    pub truncated: bool,
}

#[derive(Debug)]
pub enum ManError {
    /// The topic or section was rejected before running `man`.
    InvalidInput { message: String },
    /// No page matched the topic (and section).
    NotFound,
    /// `man` could not be started (or its output not collected).
    SpawnError { message: String },
    /// `man` ran and failed.
    SubprocessError { exit_code: Option<i32>, stderr: String },
    /// `man` ran past the timeout.
    Timeout,
}

/// What `ManError`'s message says.
pub open spec fn error_text(e: ManError) -> Seq<char> {
    match e {
        ManError::InvalidInput { message } => "invalid input: "@ + message@,
        ManError::NotFound => "page not found"@,
        ManError::SpawnError { message } => "failed to spawn man: "@ + message@,
        ManError::SubprocessError { exit_code, stderr } => match exit_code {
            Some(code) => "subprocess failed (exit "@ + signed_decimal(code as int) + "): "@ + stderr@,
            None => "subprocess failed: "@ + stderr@,
        },
        ManError::Timeout => "subprocess timed out"@,
    }
}

impl ManError {
    /// The error's message, as shown to the user.
    pub fn message(&self) -> (s: String)
        ensures
            s@ == error_text(*self),
    {
        let mut s = String::new();
        match self {
            ManError::InvalidInput { message } => {
                s.append("invalid input: ");
                s.append(message.as_str());
            },
            ManError::NotFound => {
                s.append("page not found");
            },
            ManError::SpawnError { message } => {
                s.append("failed to spawn man: ");
                s.append(message.as_str());
            },
            ManError::SubprocessError { exit_code, stderr } => match exit_code {
                Some(code) => {
                    s.append("subprocess failed (exit ");
                    let c = i32_to_string(*code);
                    s.append(c.as_str());
                    s.append("): ");
                    s.append(stderr.as_str());
                },
                None => {
                    s.append("subprocess failed: ");
                    s.append(stderr.as_str());
                },
            },
            ManError::Timeout => {
                s.append("subprocess timed out");
            },
        }
        s
    }
}

// ----- input validation -----

pub open spec fn is_ascii_letter(c: u8) -> bool {
    (65 <= c <= 90) || (97 <= c <= 122)
}

pub open spec fn is_ascii_digit(c: u8) -> bool {
    48 <= c <= 57
}

/// A byte allowed in a topic after its first: an ASCII letter or digit,
/// `.`, `_` or `-`.
pub open spec fn is_topic_byte(c: u8) -> bool {
    is_ascii_letter(c) || is_ascii_digit(c) || c == 46 || c == 95 || c == 45
}

/// Why a topic is rejected, checked in this order, or `None` when it is
/// accepted: 1 to 64 bytes, an ASCII letter first, then ASCII letters,
/// digits, `.`, `_` and `-`.
pub open spec fn topic_problem(t: Seq<u8>) -> Option<Seq<char>> {
    if t.len() == 0 || t.len() > 64 {
        Some("topic must be 1-64 characters"@)
    } else if !is_ascii_letter(t[0]) {
        Some("topic must start with a letter"@)
    } else if exists|i: int| 0 <= i < t.len() && !is_topic_byte(#[trigger] t[i]) {
        Some("topic contains invalid characters"@)
    } else {
        None
    }
}

/// A section byte after ASCII lowercasing: `1` to `8`, `n`, `p` or `l`.
pub open spec fn is_section_byte(c: u8) -> bool {
    let l = if 65 <= c <= 90 { (c + 32) as u8 } else { c };
    (49 <= l <= 56) || l == 110 || l == 112 || l == 108
}

/// Why a section is rejected, or `None`: exactly one byte, one of `1`-`8`,
/// `n`, `p`, `l` (in either case).
pub open spec fn section_problem(s: Seq<u8>) -> Option<Seq<char>> {
    if s.len() != 1 {
        Some("section must be one ASCII character"@)
    } else if !is_section_byte(s[0]) {
        Some("section must be 1-8, n, p, or l"@)
    } else {
        None
    }
}

/// The topics and sections validation accepts, byte by byte: a topic is
/// accepted exactly when it has 1 to 64 bytes, the first an ASCII letter
/// and every one an ASCII letter, an ASCII digit, `.`, `_` or `-`; a
/// section exactly when it is one byte among `1`-`8`, `n`, `p`, `l`, `N`,
/// `P`, `L`.
pub proof fn law_accepted_topics_and_sections(topic: Seq<u8>, section: Seq<u8>)
    ensures
        topic_problem(topic) is None <==> (1 <= topic.len() <= 64 && ((65 <= topic[0] <= 90) || (97 <= topic[0]
            <= 122)) && forall|i: int|
            0 <= i < topic.len() ==> ((65 <= #[trigger] topic[i] <= 90) || (97 <= topic[i] <= 122) || (48
                <= topic[i] <= 57) || topic[i] == 46 || topic[i] == 95 || topic[i] == 45)),
        section_problem(section) is None <==> (section.len() == 1 && ((49 <= section[0] <= 56) || section[0] == 110
            || section[0] == 112 || section[0] == 108 || section[0] == 78 || section[0] == 80 || section[0] == 76)),
{
    if topic_problem(topic) is Some && 1 <= topic.len() <= 64 && is_ascii_letter(topic[0]) {
        let i = choose|i: int| 0 <= i < topic.len() && !is_topic_byte(#[trigger] topic[i]);
        assert(!((65 <= topic[i] <= 90) || (97 <= topic[i] <= 122) || (48 <= topic[i] <= 57) || topic[i] == 46
            || topic[i] == 95 || topic[i] == 45));
    }
    if topic_problem(topic) is None {
        assert forall|i: int| 0 <= i < topic.len() implies ((65 <= #[trigger] topic[i] <= 90) || (97 <= topic[i]
            <= 122) || (48 <= topic[i] <= 57) || topic[i] == 46 || topic[i] == 95 || topic[i] == 45) by {
            assert(is_topic_byte(topic[i]));
        }
    }
}

/// What validation accepts cannot reach `man` as an option or as text
/// outside ASCII: an accepted topic starts with a letter and is ASCII
/// throughout, and an accepted section is one ASCII character other than
/// `-`.
pub proof fn law_accepted_inputs_are_plain_words(topic: Seq<u8>, section: Seq<u8>)
    ensures
        topic_problem(topic) is None ==> topic[0] != 45u8 && forall|i: int| 0 <= i < topic.len() ==> #[trigger] topic[i] < 128,
        section_problem(section) is None ==> section.len() == 1 && section[0] != 45u8 && section[0] < 128,
{
    if topic_problem(topic) is None {
        assert forall|i: int| 0 <= i < topic.len() implies #[trigger] topic[i] < 128 by {
            assert(is_topic_byte(topic[i]));
        }
    }
}

/// `e` is an input error with message `m`.
pub open spec fn is_invalid_input(e: ManError, m: Seq<char>) -> bool {
    match e {
        ManError::InvalidInput { message } => message@ == m,
        _ => false,
    }
}

fn invalid_input(msg: &str) -> (e: ManError)
    ensures
        is_invalid_input(e, msg@),
{
    let mut message = String::new();
    message.append(msg);
    ManError::InvalidInput { message }
}

/// Accepts a topic as `topic_problem` describes.
pub fn validate_topic(topic: &str) -> (r: Result<(), ManError>)
    ensures
        match topic_problem(topic.spec_bytes()) {
            None => r is Ok,
            Some(m) => r is Err && is_invalid_input(r->Err_0, m),
        },
{
    let b = topic.as_bytes();
    if b.len() == 0 || b.len() > 64 {
        return Err(invalid_input("topic must be 1-64 characters"));
    }
    let c0 = b[0];
    if !((65 <= c0 && c0 <= 90) || (97 <= c0 && c0 <= 122)) {
        return Err(invalid_input("topic must start with a letter"));
    }
    let mut i: usize = 0;
    while i < b.len()
        invariant
            b@ == topic.spec_bytes(),
            1 <= b@.len() <= 64,
            is_ascii_letter(b@[0]),
            i <= b@.len(),
            forall|j: int| 0 <= j < i ==> is_topic_byte(#[trigger] b@[j]),
        decreases b@.len() - i,
    {
        let c = b[i];
        if !((65 <= c && c <= 90) || (97 <= c && c <= 122) || (48 <= c && c <= 57) || c == 46 || c == 95
            || c == 45) {
            assert(!is_topic_byte(b@[i as int]));
            assert(exists|j: int| 0 <= j < topic.spec_bytes().len() && !is_topic_byte(#[trigger] topic.spec_bytes()[j]));
            return Err(invalid_input("topic contains invalid characters"));
        }
        i = i + 1;
    }
    Ok(())
}

/// Accepts a section as `section_problem` describes.
pub fn validate_section(section: &str) -> (r: Result<(), ManError>)
    ensures
        match section_problem(section.spec_bytes()) {
            None => r is Ok,
            Some(m) => r is Err && is_invalid_input(r->Err_0, m),
        },
{
    let b = section.as_bytes();
    if b.len() != 1 {
        return Err(invalid_input("section must be one ASCII character"));
    }
    let c = b[0];
    let l = if 65 <= c && c <= 90 { c + 32 } else { c };
    if !((49 <= l && l <= 56) || l == 110 || l == 112 || l == 108) {
        return Err(invalid_input("section must be 1-8, n, p, or l"));
    }
    Ok(())
}

/// The arguments `man` is run with for an accepted lookup.
pub open spec fn man_args_text(topic: Seq<char>, section: Option<Seq<char>>) -> Seq<Seq<char>> {
    match section {
        Some(s) => seq!["-P"@, "cat"@, "-s"@, s, "--"@, topic],
        None => seq!["-P"@, "cat"@, "--"@, topic],
    }
}

fn owned(s: &str) -> (r: String)
    ensures
        r@ == s@,
{
    let mut r = String::new();
    r.append(s);
    r
}

/// Checks the topic, then the section when one is given, and returns the
/// arguments for `man`: `-P cat`, then `-s SECTION` if given, then `--`
/// and the topic, each a separate argument (no shell).
pub fn man_command(topic: &str, section: Option<&str>) -> (r: Result<Vec<String>, ManError>)
    ensures
        match topic_problem(topic.spec_bytes()) {
            Some(m) => r is Err && is_invalid_input(r->Err_0, m),
            None => match section {
                Some(s) => match section_problem(s.spec_bytes()) {
                    Some(m) => r is Err && is_invalid_input(r->Err_0, m),
                    None => r is Ok && r->Ok_0@.map_values(|a: String| a@) == man_args_text(topic@, Some(s@)),
                },
                None => r is Ok && r->Ok_0@.map_values(|a: String| a@) == man_args_text(topic@, None),
            },
        },
{
    validate_topic(topic)?;
    let mut args: Vec<String> = Vec::new();
    args.push(owned("-P"));
    args.push(owned("cat"));
    match section {
        Some(s) => {
            validate_section(s)?;
            args.push(owned("-s"));
            args.push(owned(s));
        },
        None => {},
    }
    args.push(owned("--"));
    args.push(owned(topic));
    assert(args@.map_values(|a: String| a@) =~= man_args_text(
        topic@,
        match section {
            Some(s) => Some(s@),
            None => None,
        },
    ));
    Ok(args)
}

// ----- interpreting the run -----

/// Marker appended to truncated page text.
pub const TRUNCATION_MARKER: &'static str = "[\n... truncated ...\n]";

/// The page text returned for `man` output `out` under a byte limit: the
/// output itself if it fits, else the longest prefix of at most `max` bytes
/// that ends on a character boundary, followed by the truncation marker.
pub open spec fn page_content(out: Seq<u8>, max: int) -> (Seq<char>, bool) {
    if out.len() > max {
        (text_of(out, 0, floor_boundary(out, max)) + TRUNCATION_MARKER@, true)
    } else {
        (decode_utf8(out), false)
    }
}

/// A limited page keeps as much of the output as fits: it is truncated
/// exactly when the output is longer than the limit; an untruncated page
/// is the whole output; a truncated one is the longest run of whole
/// characters from the start that fits in the limit (so a prefix of the
/// page), followed by the marker.
pub proof fn law_page_keeps_what_fits(out: Seq<u8>, max: int)
    requires
        valid_utf8(out),
        0 <= max,
    ensures
        page_content(out, max).1 <==> out.len() > max,
        !page_content(out, max).1 ==> page_content(out, max).0 == decode_utf8(out),
        page_content(out, max).1 ==> ({
            let k = floor_boundary(out, max);
            let kept = decode_utf8(out.subrange(0, k));
            &&& page_content(out, max).0 == kept + TRUNCATION_MARKER@
            &&& k <= max
            &&& encode_utf8(kept) == out.subrange(0, k)
            &&& decode_utf8(out) == kept + decode_utf8(out.subrange(k, out.len() as int))
            &&& forall|j: int| k < j <= max ==> !at_boundary(out, j)
        }),
{
    if out.len() > max {
        let k = floor_boundary(out, max);
        lemma_floor_boundary(out, max);
        crate::text::lemma_at_boundary_is_char_boundary(out, k);
        assert(valid_utf8(out.subrange(0, k)));
        assert(decode_utf8(out) =~= decode_utf8(out.subrange(0, k)) + decode_utf8(out.subrange(k, out.len() as int)));
        assert forall|j: int| k < j <= max implies !at_boundary(out, j) by {
            if at_boundary(out, j) {
                crate::text::lemma_floor_boundary_ge(out, max, j);
            }
        }
    }
}

/// End of the page text kept from output `out` under a byte limit: all of
/// it if it fits, else the last character boundary at or before `max`.
pub open spec fn kept_end(out: Seq<u8>, max: int) -> int {
    if out.len() > max {
        floor_boundary(out, max)
    } else {
        out.len() as int
    }
}

/// `kept_end`, computed: the part of `man`'s output that must be UTF-8.
pub fn kept_page_end(stdout: &[u8], max: usize) -> (k: usize)
    ensures
        k == kept_end(stdout@, max as int),
{
    if stdout.len() > max {
        floor_char_boundary(stdout, max)
    } else {
        stdout.len()
    }
}

/// The result of a finished `man` run (man-db exit statuses): status 0 is
/// the page (limited as `page_content` says), 16 is "not found", anything
/// else (or no status, when a signal ended it) is a subprocess failure
/// carrying the status and the standard error text. A page's kept text
/// must be UTF-8.
pub fn man_outcome(exit_code: Option<i32>, stdout: &[u8], stderr: &str, config: &ManLookupConfig) -> (r: Result<
    ManPageResult,
    ManError,
>)
    requires
        exit_code == Some(0i32) ==> valid_utf8(stdout@.subrange(0, kept_end(stdout@, config.max_output_bytes as int))),
    ensures
        match exit_code {
            Some(0) => r is Ok && (r->Ok_0.content@, r->Ok_0.truncated) == page_content(
                stdout@,
                config.max_output_bytes as int,
            ),
            Some(16) => r == Err::<ManPageResult, ManError>(ManError::NotFound),
            _ => match r {
                Err(ManError::SubprocessError { exit_code: c, stderr: e }) => c == exit_code && e@ == stderr@,
                _ => false,
            },
        },
{
    match exit_code {
        Some(0) => {
            let max = config.max_output_bytes;
            let cut = kept_page_end(stdout, max);
            proof {
                lemma_floor_boundary(stdout@, max as int);
            }
            let mut content = utf8_lossy(slice_subrange(stdout, 0, cut));
            if stdout.len() > max {
                content.append(TRUNCATION_MARKER);
                Ok(ManPageResult { content, truncated: true })
            } else {
                assert(stdout@.subrange(0, cut as int) =~= stdout@);
                Ok(ManPageResult { content, truncated: false })
            }
        },
        Some(16) => Err(ManError::NotFound),
        _ => Err(ManError::SubprocessError { exit_code, stderr: owned(stderr) }),
    }
}

} // verus!
