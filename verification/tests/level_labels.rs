use jsonl_gzip_logger::Level;
use jsonl_gzip_logger::LogEntry;
use jsonl_gzip_logger::LogOffset;
use jsonl_gzip_logger::codec::encode_entry;

/// Creates the JSON line of a LogEntry with the given severity.
fn entry_json_with_level(level: Level) -> String {
    encode_entry(&LogEntry {
        offset: LogOffset::new(0, 0),
        level,
        target: "target".to_string(),
        body: "body".to_string(),
    })
}

fn expected_line(label: &str) -> String {
    format!(
        "{{\"offset\":{{\"secs\":0,\"nanos\":0}},\"level\":\"{}\",\"target\":\"target\",\"body\":\"body\"}}",
        label
    )
}

#[test]
fn trace() {
    assert_eq!(expected_line("TRACE"), entry_json_with_level(Level::Trace))
}

#[test]
fn debug() {
    assert_eq!(expected_line("DEBUG"), entry_json_with_level(Level::Debug))
}

#[test]
fn info() {
    assert_eq!(expected_line("INFO"), entry_json_with_level(Level::Info))
}

#[test]
fn warn() {
    assert_eq!(expected_line("WARN"), entry_json_with_level(Level::Warn))
}

#[test]
fn error() {
    assert_eq!(expected_line("ERROR"), entry_json_with_level(Level::Error))
}

/// Creates the JSON line of an entry whose body came from format arguments.
fn entry_args_json_with_level(level: Level) -> String {
    encode_entry(&LogEntry {
        offset: LogOffset::new(0, 0),
        level,
        target: "target".to_string(),
        body: format!("body"),
    })
}

#[test]
fn trace_args() {
    assert_eq!(expected_line("TRACE"), entry_args_json_with_level(Level::Trace))
}

#[test]
fn debug_args() {
    assert_eq!(expected_line("DEBUG"), entry_args_json_with_level(Level::Debug))
}

#[test]
fn info_args() {
    assert_eq!(expected_line("INFO"), entry_args_json_with_level(Level::Info))
}

#[test]
fn warn_args() {
    assert_eq!(expected_line("WARN"), entry_args_json_with_level(Level::Warn))
}

#[test]
fn error_args() {
    assert_eq!(expected_line("ERROR"), entry_args_json_with_level(Level::Error))
}
