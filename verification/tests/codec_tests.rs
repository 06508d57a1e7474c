use jsonl_gzip_logger::Level;
use jsonl_gzip_logger::LogEntry;
use jsonl_gzip_logger::LogOffset;
use jsonl_gzip_logger::codec::decode_entry;
use jsonl_gzip_logger::codec::encode_entry;

/// The JSON representation of a LogEntry must be stable.
#[test]
fn log_entry_json_stability() {
    let json = "{\"offset\":{\"secs\":123456,\"nanos\":987654321},\"level\":\"WARN\",\"target\":\"foo.bar.baz\",\"body\":\"Log information goes here!\"}";
    let parsed: LogEntry = decode_entry(json).unwrap();
    assert_eq!(LogOffset::new(123_456, 987_654_321), parsed.offset);
    assert_eq!(Level::Warn, parsed.level);
    assert_eq!("foo.bar.baz", parsed.target);
    assert_eq!("Log information goes here!", parsed.body);
}

/// A serialized LogEntry must deserialize to an equivalent LogEntry.
#[test]
fn log_entry_json_round_trip() {
    let entry = LogEntry {
        offset: LogOffset::new(120, 123_456_789),
        level: Level::Error,
        target: " my target 123 ".to_string(),
        body: "This is the body of the log. \nfoobarbaz ".to_string(),
    };
    let json = encode_entry(&entry);
    let parsed: LogEntry = decode_entry(&json).unwrap();
    assert_eq!(entry.offset, parsed.offset);
    assert_eq!(entry.level, parsed.level);
    assert_eq!(entry.target, parsed.target);
    assert_eq!(entry.body, parsed.body);
}

/// An entry whose body was rendered from format arguments must round-trip to
/// an equivalent LogEntry.
#[test]
fn log_entry_args_to_log_entry() {
    let json = encode_entry(&LogEntry {
        offset: LogOffset::new(20, 100),
        level: Level::Debug,
        target: "test.foo.bar".to_string(),
        body: format!("{} + {} == {}", 1, 2, 3),
    });
    let entry: LogEntry = decode_entry(&json).unwrap();
    assert_eq!(LogOffset::new(20, 100), entry.offset);
    assert_eq!(Level::Debug, entry.level);
    assert_eq!("test.foo.bar", entry.target);
    assert_eq!("1 + 2 == 3", entry.body);
}

/// A control character in the body is escaped on the way out and restored on
/// the way back.
#[test]
fn control_characters_round_trip() {
    let entry = LogEntry {
        offset: LogOffset::new(0, 0),
        level: Level::Info,
        target: "t".to_string(),
        body: "a\u{1}b\tc\"d\\e\u{1f}f".to_string(),
    };
    let json = encode_entry(&entry);
    assert!(json.contains("\\u0001"));
    assert!(json.contains("\\u001f"));
    assert!(json.contains("\\t"));
    assert!(json.contains("\\\""));
    assert!(!json.contains('\n'));
    let parsed = decode_entry(&json).unwrap();
    assert_eq!(entry.body, parsed.body);
}

/// A malformed line is a decode failure, not a record.
#[test]
fn malformed_lines_fail() {
    assert!(decode_entry("").is_none());
    assert!(decode_entry("{}").is_none());
    assert!(
        decode_entry("{\"offset\":{\"secs\":1,\"nanos\":2},\"level\":\"WARN\",\"target\":\"t\"}")
            .is_none()
    );
    assert!(
        decode_entry(
            "{\"offset\":{\"secs\":1,\"nanos\":2},\"level\":\"FATAL\",\"target\":\"t\",\"body\":\"b\"}"
        )
        .is_none()
    );
    assert!(
        decode_entry(
            "{\"offset\":{\"secs\":x,\"nanos\":2},\"level\":\"WARN\",\"target\":\"t\",\"body\":\"b\"}"
        )
        .is_none()
    );
    assert!(
        decode_entry(
            "{\"offset\":{\"secs\":1,\"nanos\":2},\"level\":\"WARN\",\"target\":\"t\",\"body\":\"b\"} "
        )
        .is_none()
    );
}

/// An offset with a nanosecond part of a second or more is carried into the
/// seconds.
#[test]
fn offset_normalizes_nanos() {
    let off = LogOffset::new(1, 2_500_000_000);
    assert_eq!(3, off.secs);
    assert_eq!(500_000_000, off.nanos);
}
