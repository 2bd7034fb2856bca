use openbolt::clock;
use openbolt::clock::Elapsed;
use openbolt::error::to_err;
use openbolt::error::OpenBoltError;
use openbolt::parse;
use openbolt::text;
use openbolt::url;

#[test]
fn errors_are_worded() {
    assert_eq!(to_err(OpenBoltError::Io("disk full".to_string())), "io error: disk full");
    assert_eq!(to_err(OpenBoltError::Mdns("x".to_string())), "mdns error: x");
    assert_eq!(to_err(OpenBoltError::InvalidPath), "invalid path");
    assert_eq!(to_err(OpenBoltError::AlreadyRunning("mdns")), "service already running: mdns");
    assert_eq!(to_err(OpenBoltError::NotRunning("kvm")), "service not running: kvm");
    assert_eq!(
        to_err(OpenBoltError::CommandFailed("boom".to_string())),
        "external command failed: boom"
    );
    assert_eq!(to_err(OpenBoltError::UnsupportedPlatform), "unsupported platform");
}

#[test]
fn text_is_transformed() {
    assert_eq!(text::lower_text("AbÄZ"), "abÄz");
    assert_eq!(text::trim_text(" \t a b \u{3000}"), "a b");
    assert_eq!(text::trim_start_text("  a "), "a ");
    assert_eq!(text::trim_end_slash_text("/a//"), "/a");
    assert_eq!(text::replace_char("a\\b\\c", '\\', '/'), "a/b/c");
    assert_eq!(text::decimal_text(0), "0");
    assert_eq!(text::decimal_text(7733), "7733");
    assert_eq!(text::decimal_text(u64::MAX), "18446744073709551615");
    assert!(text::has_text("thunderbolt", "bolt"));
    assert!(text::has_text("x", ""));
    assert!(!text::has_text("bol", "bolt"));
    assert!(text::equals_ignoring_case("WaRn", "warn"));
    assert!(!text::equals_ignoring_case("warn", "warning"));
}

#[test]
fn lines_are_those_of_the_standard_library() {
    for s in ["", "a", "a\n", "a\nb", "a\r\nb\r\n", "a\r", "\n\n", "x\n\r\ny"] {
        let expected: Vec<String> = s.lines().map(String::from).collect();
        assert_eq!(text::lines_of(s), expected, "{:?}", s);
    }
}

#[test]
fn text_is_taken_apart() {
    assert_eq!(parse::split_on("a\n\nb\n\n\nc", "\n\n"), vec!["a", "b", "\nc"]);
    assert_eq!(parse::split_on("", "\n\n"), vec![""]);
    assert_eq!(parse::split_on("a\n\n", "\n\n"), vec!["a", ""]);
    assert_eq!(parse::remove_char("a\"b\"", '"'), "ab");
    assert_eq!(parse::cut_at("a|b|c", '|'), ("a".to_string(), "b|c".to_string()));
    assert_eq!(parse::cut_at("abc", '|'), ("abc".to_string(), "".to_string()));
}

#[test]
fn ports_are_read_as_by_the_standard_library() {
    for s in ["7733", "0", "65535", "65536", "", "+", "+12", "-1", "12a", "00042", " 1", "99999999999999"] {
        assert_eq!(parse::parse_port(s), s.parse::<u16>().ok(), "{:?}", s);
    }
}

#[test]
fn addresses_are_escaped() {
    assert_eq!(
        url::fs_url("10.99.99.3", "stat", "/a b/ü~.txt"),
        "http://10.99.99.3:7733/api/fs/stat?path=%2Fa%20b%2F%C3%BC~.txt"
    );
    assert_eq!(
        url::move_url("10.99.99.3", "/a&b", "/c=d"),
        "http://10.99.99.3:7733/api/fs/move?from=%2Fa%26b&to=%2Fc%3Dd"
    );
}

#[test]
fn clock_readings_become_numbers() {
    let reading = Some(Elapsed { secs: 3, nanos: 5 });
    assert_eq!(clock::seconds_of(reading), 3);
    assert_eq!(clock::seconds_of(None), 0);
    assert_eq!(clock::task_id_of(reading, 9), 3_000_000_005);
    assert_eq!(clock::task_id_of(None, 9), 9);
    let late = Some(Elapsed { secs: u64::MAX, nanos: 999_999_999 });
    let nanos = (u64::MAX as u128) * 1_000_000_000 + 999_999_999;
    assert_eq!(clock::task_id_of(late, 0), nanos as u64);
    assert!(clock::now_ts() > 1_600_000_000);
    assert!(clock::next_task_id() > 1_600_000_000_000_000_000);
}
