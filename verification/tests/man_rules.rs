use toolbox::man_page::{
    kept_page_end, man_command, man_outcome, validate_section, validate_topic, ManError, ManLookupConfig, TRUNCATION_MARKER,
};

#[test]
fn validate_topic_valid() {
    assert!(validate_topic("ls").is_ok());
    assert!(validate_topic("systemctl").is_ok());
    assert!(validate_topic("foo-bar_baz.qux").is_ok());
}

#[test]
fn validate_topic_empty() {
    assert!(matches!(validate_topic(""), Err(ManError::InvalidInput { .. })));
}

#[test]
fn validate_topic_starts_with_digit() {
    assert!(matches!(validate_topic("1abc"), Err(ManError::InvalidInput { .. })));
}

#[test]
fn validate_topic_invalid_char() {
    assert!(matches!(validate_topic("ls!"), Err(ManError::InvalidInput { .. })));
}

#[test]
fn validate_topic_too_long() {
    let topic = "a".repeat(65);
    assert!(matches!(validate_topic(&topic), Err(ManError::InvalidInput { .. })));
}

#[test]
fn validate_section_valid() {
    assert!(validate_section("1").is_ok());
    assert!(validate_section("8").is_ok());
    assert!(validate_section("n").is_ok());
    assert!(validate_section("N").is_ok());
    assert!(validate_section("p").is_ok());
    assert!(validate_section("l").is_ok());
}

#[test]
fn validate_section_empty() {
    assert!(matches!(validate_section(""), Err(ManError::InvalidInput { .. })));
}

#[test]
fn validate_section_too_long() {
    assert!(matches!(validate_section("12"), Err(ManError::InvalidInput { .. })));
}

#[test]
fn validate_section_invalid() {
    assert!(matches!(validate_section("9"), Err(ManError::InvalidInput { .. })));
}

#[test]
fn test_man_error_display() {
    assert_eq!(ManError::NotFound.message(), "page not found");
    assert_eq!(
        ManError::SubprocessError { exit_code: Some(1), stderr: String::from("error message") }.message(),
        "subprocess failed (exit 1): error message"
    );
    assert_eq!(
        ManError::SubprocessError { exit_code: None, stderr: String::from("error message") }.message(),
        "subprocess failed: error message"
    );
}

// ----- further cases -----

fn invalid_message(r: Result<(), ManError>) -> String {
    match r {
        Err(ManError::InvalidInput { message }) => message,
        _ => panic!("expected an input error"),
    }
}

#[test]
fn input_errors_say_what_is_wrong() {
    assert_eq!(invalid_message(validate_topic("")), "topic must be 1-64 characters");
    assert_eq!(invalid_message(validate_topic("-rf")), "topic must start with a letter");
    assert_eq!(invalid_message(validate_topic("a b")), "topic contains invalid characters");
    assert!(validate_topic(&"a".repeat(64)).is_ok());
    assert_eq!(invalid_message(validate_section("é")), "section must be one ASCII character");
    assert_eq!(invalid_message(validate_section("x")), "section must be 1-8, n, p, or l");
    assert!(validate_section("L").is_ok());
}

#[test]
fn error_messages_of_every_variant() {
    assert_eq!(ManError::InvalidInput { message: "m".to_string() }.message(), "invalid input: m");
    assert_eq!(ManError::SpawnError { message: "no man".to_string() }.message(), "failed to spawn man: no man");
    assert_eq!(ManError::Timeout.message(), "subprocess timed out");
    assert_eq!(
        ManError::SubprocessError { exit_code: Some(-2), stderr: "e".to_string() }.message(),
        "subprocess failed (exit -2): e"
    );
}

#[test]
fn command_puts_options_before_the_topic() {
    assert_eq!(man_command("ls", None).unwrap(), vec!["-P", "cat", "--", "ls"]);
    assert_eq!(man_command("printf", Some("3")).unwrap(), vec!["-P", "cat", "-s", "3", "--", "printf"]);
    assert!(matches!(man_command("-x", None), Err(ManError::InvalidInput { .. })));
    assert!(matches!(man_command("ls", Some("0")), Err(ManError::InvalidInput { .. })));
}

#[test]
fn default_config_limits() {
    let c = ManLookupConfig::default();
    assert_eq!(c.max_output_bytes, 8192);
    assert_eq!(c.timeout, std::time::Duration::from_secs(10));
}

#[test]
fn exit_status_decides_the_outcome() {
    let cfg = ManLookupConfig { max_output_bytes: 100, timeout: std::time::Duration::from_secs(1) };
    let ok = man_outcome(Some(0), b"PAGE\n", "", &cfg).unwrap();
    assert_eq!(ok.content, "PAGE\n");
    assert!(!ok.truncated);
    assert!(matches!(man_outcome(Some(16), b"", "No manual entry", &cfg), Err(ManError::NotFound)));
    match man_outcome(Some(1), b"", "usage", &cfg) {
        Err(ManError::SubprocessError { exit_code, stderr }) => {
            assert_eq!(exit_code, Some(1));
            assert_eq!(stderr, "usage");
        }
        _ => panic!("expected a subprocess error"),
    }
    assert!(matches!(
        man_outcome(None, b"x", "killed", &cfg),
        Err(ManError::SubprocessError { exit_code: None, .. })
    ));
}

#[test]
fn long_page_is_cut_on_a_character_boundary_and_marked() {
    let cfg = ManLookupConfig { max_output_bytes: 4, timeout: std::time::Duration::from_secs(1) };
    let r = man_outcome(Some(0), b"abcdef", "", &cfg).unwrap();
    assert!(r.truncated);
    assert_eq!(r.content, format!("abcd{}", TRUNCATION_MARKER));
    assert_eq!(TRUNCATION_MARKER, "[\n... truncated ...\n]");
    // "aé…" : 'é' spans bytes 1..3, so a 2-byte limit keeps only "a"
    let cfg = ManLookupConfig { max_output_bytes: 2, timeout: std::time::Duration::from_secs(1) };
    let r = man_outcome(Some(0), "aéb".as_bytes(), "", &cfg).unwrap();
    assert_eq!(r.content, format!("a{}", TRUNCATION_MARKER));
    // exactly at the limit is not truncated
    let cfg = ManLookupConfig { max_output_bytes: 6, timeout: std::time::Duration::from_secs(1) };
    let r = man_outcome(Some(0), b"abcdef", "", &cfg).unwrap();
    assert!(!r.truncated);
    assert_eq!(r.content, "abcdef");
}

#[test]
fn only_the_kept_part_must_be_text() {
    // invalid UTF-8 past the cut is dropped with the rest
    let out = [b'a', b'b', 0xff, 0xfe];
    assert_eq!(kept_page_end(&out, 2), 2);
    let cfg = ManLookupConfig { max_output_bytes: 2, timeout: std::time::Duration::from_secs(1) };
    let r = man_outcome(Some(0), &out, "", &cfg).unwrap();
    assert_eq!(r.content, format!("ab{}", TRUNCATION_MARKER));
    assert_eq!(kept_page_end("aéb".as_bytes(), 2), 1);
    assert_eq!(kept_page_end(b"abc", 10), 3);
}
