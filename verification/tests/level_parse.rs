use jsonl_gzip_logger::Level;
use jsonl_gzip_logger::LogEntry;
use jsonl_gzip_logger::codec::decode_entry;

/// Creates a LogEntry from a JSON line with the given severity label.
fn entry_with_level(level: &str) -> LogEntry {
    let json = format!(
        "{{\"offset\":{{\"secs\":123456,\"nanos\":987654321}},\"level\":\"{}\",\"target\":\"foo.bar.baz\",\"body\":\"Log information goes here!\"}}",
        level
    );
    decode_entry(&json).unwrap()
}

#[test]
fn lib_trace() {
    assert_eq!(Level::Trace, entry_with_level("TRACE").level);
}

#[test]
fn lib_debug() {
    assert_eq!(Level::Debug, entry_with_level("DEBUG").level);
}

#[test]
fn lib_info() {
    assert_eq!(Level::Info, entry_with_level("INFO").level);
}

#[test]
fn lib_warn() {
    assert_eq!(Level::Warn, entry_with_level("WARN").level);
}

#[test]
fn lib_error() {
    assert_eq!(Level::Error, entry_with_level("ERROR").level);
}
