use jsonl_gzip_logger::InitError;
use jsonl_gzip_logger::Level;
use jsonl_gzip_logger::LevelFilter;
use jsonl_gzip_logger::LogEntry;
use jsonl_gzip_logger::LogOffset;
use jsonl_gzip_logger::Sink;
use jsonl_gzip_logger::SinkSlot;
use jsonl_gzip_logger::codec::encode_entry;
use jsonl_gzip_logger::stream::read_bytes;
use std::io::Write;

/// A sink that was flushed and closed without any event yields no records.
#[test]
fn empty_log() {
    let mut sink = Sink::new(LevelFilter::Info);
    sink.flush();
    let bytes = sink.finish();
    let mut iter = read_bytes(&bytes).unwrap();
    assert!(iter.next().is_none());
    assert!(iter.next().is_none());
}

/// One accepted event reads back as one record with its fields intact.
#[test]
fn one_log() {
    let mut sink = Sink::new(LevelFilter::Info);
    sink.emit(Level::Info, "foo", "This is a log!");
    sink.flush();
    let bytes = sink.finish();
    let mut iter = read_bytes(&bytes).unwrap();
    let entry = iter.next().unwrap();
    assert_eq!(Level::Info, entry.level);
    assert_eq!("foo", entry.target);
    assert_eq!("This is a log!", entry.body);
    assert!(iter.next().is_none());
}

/// Two events read back in emission order, with nondecreasing offsets.
#[test]
fn two_logs() {
    let mut sink = Sink::new(LevelFilter::Trace);
    sink.emit(Level::Info, "foo", "This is foo log!");
    sink.emit(Level::Debug, "bar", "This is bar log!");
    sink.flush();
    let bytes = sink.finish();
    let mut iter = read_bytes(&bytes).unwrap();
    let a = iter.next().unwrap();
    assert_eq!(Level::Info, a.level);
    assert_eq!("foo", a.target);
    assert_eq!("This is foo log!", a.body);
    let b = iter.next().unwrap();
    assert_eq!(Level::Debug, b.level);
    assert_eq!("bar", b.target);
    assert_eq!("This is bar log!", b.body);
    assert!(
        a.offset.secs < b.offset.secs
            || (a.offset.secs == b.offset.secs && a.offset.nanos <= b.offset.nanos)
    );
    assert!(iter.next().is_none());
}

/// Events above the threshold leave no trace in the stream.
#[test]
fn threshold_gating() {
    let mut sink = Sink::new(LevelFilter::Info);
    sink.emit(Level::Debug, "quiet", "dropped");
    sink.emit(Level::Info, "loud", "kept");
    sink.flush();
    let bytes = sink.finish();
    let mut iter = read_bytes(&bytes).unwrap();
    let entry = iter.next().unwrap();
    assert_eq!(Level::Info, entry.level);
    assert_eq!("loud", entry.target);
    assert_eq!("kept", entry.body);
    assert!(iter.next().is_none());
}

/// A threshold of Off admits nothing.
#[test]
fn threshold_off() {
    let mut sink = Sink::new(LevelFilter::Off);
    sink.emit(Level::Error, "x", "even errors are dropped");
    let bytes = sink.finish();
    let mut iter = read_bytes(&bytes).unwrap();
    assert!(iter.next().is_none());
}

/// A stream whose final line lacks its terminator yields every complete
/// preceding record and then ends silently.
#[test]
fn truncation_tolerance() {
    let e1 = LogEntry {
        offset: LogOffset::new(1, 0),
        level: Level::Warn,
        target: "a".to_string(),
        body: "first".to_string(),
    };
    let e2 = LogEntry {
        offset: LogOffset::new(2, 0),
        level: Level::Error,
        target: "b".to_string(),
        body: "second".to_string(),
    };
    let l1 = encode_entry(&e1);
    let l2 = encode_entry(&e2);
    let l3 = encode_entry(&LogEntry {
        offset: LogOffset::new(3, 0),
        level: Level::Info,
        target: "c".to_string(),
        body: "third".to_string(),
    });
    let mut text = String::new();
    text.push_str(&l1);
    text.push('\n');
    text.push_str(&l2);
    text.push('\n');
    text.push_str(&l3[..l3.len() - 5]);
    let mut enc =
        flate2::write::GzEncoder::new(Vec::new(), flate2::Compression::fast());
    enc.write_all(text.as_bytes()).unwrap();
    let bytes = enc.finish().unwrap();
    let mut iter = read_bytes(&bytes).unwrap();
    let a = iter.next().unwrap();
    assert_eq!("first", a.body);
    let b = iter.next().unwrap();
    assert_eq!("second", b.body);
    assert!(iter.next().is_none());
    assert!(iter.next().is_none());
}

/// Bytes that are not a gzip stream do not open.
#[test]
fn invalid_stream() {
    let bytes = vec![1u8, 2, 3, 4];
    assert!(read_bytes(&bytes).is_none());
}

/// A second installation attempt fails with an installation error and keeps
/// the first sink.
#[test]
fn single_writer_enforcement() {
    let mut slot = SinkSlot::new();
    assert!(slot.install(Sink::new(LevelFilter::Info)).is_ok());
    assert_eq!(
        Err(InitError::SetLoggerError),
        slot.install(Sink::new(LevelFilter::Info))
    );
}
