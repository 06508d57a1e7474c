use vstd::prelude::*;

use crate::codec::encode_entry;
use crate::codec::encode_model;
use crate::codec::lemma_literals;
use crate::entry::EntryModel;
use crate::entry::LogEntry;
use crate::entry::LogOffset;
use crate::entry::wf_models;
use crate::gz::gunzip_text;
use crate::gz::gz_chars;
use crate::gz::gz_finish;
use crate::gz::gz_flush;
use crate::gz::gz_new;
use crate::gz::gz_write_str;
use crate::gz::GzWriter;
use crate::level::Level;
use crate::level::LevelFilter;
use crate::level::admits;
use crate::stream::encode_stream;
use crate::stream::lemma_encode_stream_snoc;

verus! {

#[verifier::external_type_specification]
#[verifier::external_body]
pub struct ExInstant(std::time::Instant);

/// Relies on std's Instant::now: the present instant of the monotonic clock.
#[verifier::external_body]
fn instant_now() -> (r: std::time::Instant) {
    std::time::Instant::now()
}

/// Relies on std's Instant::elapsed together with Duration::as_secs and
/// Duration::subsec_nanos: the time since `start`, as whole seconds and a
/// sub-second nanosecond part that is always below one billion.
#[verifier::external_body]
fn elapsed_parts(start: &std::time::Instant) -> (r: (u64, u32))
    ensures
        r.1 < 1_000_000_000,
{
    let d = start.elapsed();
    (d.as_secs(), d.subsec_nanos())
}

/// The write path: owns the compressing writer, the creation instant and the
/// severity threshold. Every record the threshold admits is encoded as one
/// line and framed onto the compressed stream, in call order; everything
/// else leaves the stream untouched.
pub struct Sink {
    dest: GzWriter,
    threshold: LevelFilter,
    start: std::time::Instant,
    written: Ghost<Seq<EntryModel>>,
}

impl Sink {
    /// The records handed to the compressor so far, in order.
    pub closed spec fn written_entries(&self) -> Seq<EntryModel> {
        self.written@
    }

    /// The severity threshold this sink was created with.
    pub closed spec fn threshold_filter(&self) -> LevelFilter {
        self.threshold
    }

    /// The compressed stream always holds exactly the framed encodings of
    /// the written records, all of them well-formed.
    pub closed spec fn wf(&self) -> bool {
        gz_chars(self.dest) == encode_stream(self.written@) && wf_models(self.written@)
    }

    /// Opens a fresh sink with the given severity threshold and an empty
    /// stream, stamping the creation instant.
    pub fn new(threshold: LevelFilter) -> (s: Sink)
        ensures
            s.wf(),
            s.written_entries() == Seq::<EntryModel>::empty(),
            s.threshold_filter() == threshold,
    {
        let s = Sink {
            dest: gz_new(),
            threshold,
            start: instant_now(),
            written: Ghost(Seq::empty()),
        };
        proof {
            assert(encode_stream(Seq::<EntryModel>::empty()) == Seq::<char>::empty());
        }
        s
    }

    /// Appends one already-built record to the stream, if the threshold
    /// admits its severity; otherwise changes nothing.
    pub fn emit_entry(&mut self, e: &LogEntry)
        requires
            old(self).wf(),
            e.wf(),
        ensures
            final(self).wf(),
            final(self).threshold_filter() == old(self).threshold_filter(),
            admits(old(self).threshold_filter(), e.level) ==> final(self).written_entries() == old(self).written_entries().push(e@),
            !admits(old(self).threshold_filter(), e.level) ==> final(self).written_entries()
                == old(self).written_entries(),
    {
        if self.threshold.accepts(e.level) {
            let line = encode_entry(e);
            gz_write_str(&mut self.dest, line.as_str());
            gz_write_str(&mut self.dest, "\n");
            proof {
                lemma_literals();
                lemma_encode_stream_snoc(self.written@, e@);
                assert(encode_stream(self.written@) + encode_model(e@) + "\n"@ == encode_stream(
                    self.written@.push(e@),
                ));
            }
            self.written = Ghost(self.written@.push(e@));
        }
    }

    /// Captures one event: checks the threshold, stamps the elapsed time,
    /// renders the record and appends it. The offset comes from the clock,
    /// so only its well-formedness is known of it.
    pub fn emit(&mut self, level: Level, target: &str, body: &str)
        requires
            old(self).wf(),
        ensures
            final(self).wf(),
            final(self).threshold_filter() == old(self).threshold_filter(),
            !admits(old(self).threshold_filter(), level) ==> final(self).written_entries() == old(self).written_entries(),
            admits(old(self).threshold_filter(), level) ==> exists|off: (u64, u32)|
                off.1 < 1_000_000_000 && final(self).written_entries() == old(self).written_entries().push(
                    EntryModel {
                        secs: off.0,
                        nanos: off.1,
                        level,
                        target: target@,
                        body: body@,
                    },
                ),
    {
        if self.threshold.accepts(level) {
            let parts = elapsed_parts(&self.start);
            let e = LogEntry {
                offset: LogOffset { secs: parts.0, nanos: parts.1 },
                level,
                target: String::from_str(target),
                body: String::from_str(body),
            };
            self.emit_entry(&e);
            proof {
                let off = (parts.0, parts.1);
                assert(off.1 < 1_000_000_000 && self.written_entries() == old(self).written_entries().push(
                    EntryModel {
                        secs: off.0,
                        nanos: off.1,
                        level,
                        target: target@,
                        body: body@,
                    },
                ));
            }
        }
    }

    /// Pushes buffered compressed bytes onward; the stream's contents are
    /// unchanged.
    pub fn flush(&mut self)
        requires
            old(self).wf(),
        ensures
            final(self).wf(),
            final(self).written_entries() == old(self).written_entries(),
            final(self).threshold_filter() == old(self).threshold_filter(),
    {
        gz_flush(&mut self.dest);
    }

    /// Closes the sink: the gzip bytes returned decompress and decode back
    /// to exactly the framed encodings of the written records.
    pub fn finish(self) -> (r: Vec<u8>)
        requires
            self.wf(),
        ensures
            gunzip_text(r@) == Some(encode_stream(self.written_entries())),
    {
        gz_finish(self.dest)
    }
}

} // verus!
