use vstd::prelude::*;

use crate::level::Level;

verus! {

/// Time offset of a log entry from the start of logging: whole seconds plus
/// a sub-second nanosecond part below one billion.
#[derive(Clone, Copy, Debug, PartialEq, Eq, Structural)]
pub struct LogOffset {
    /// Whole seconds.
    pub secs: u64,
    /// Sub-second nanoseconds; below one billion in a well-formed offset.
    pub nanos: u32,
}

impl LogOffset {
    /// A well-formed offset keeps its nanosecond part below one second.
    pub open spec fn wf(&self) -> bool {
        self.nanos < 1_000_000_000
    }

    /// Builds an offset, carrying whole seconds out of the nanosecond part.
    pub fn new(secs: u64, nanos: u32) -> (r: LogOffset)
        requires
            secs + nanos as int / 1_000_000_000 <= u64::MAX,
        ensures
            r.wf(),
            r.secs == secs + nanos as int / 1_000_000_000,
            r.nanos == nanos as int % 1_000_000_000,
    {
        let carry: u32 = nanos / 1_000_000_000;
        LogOffset { secs: secs + carry as u64, nanos: nanos % 1_000_000_000 }
    }
}

/// One structured log entry, the unit of persistence. Immutable once built.
#[derive(Clone, Debug)]
pub struct LogEntry {
    /// Time offset of this log entry from the start of logging.
    pub offset: LogOffset,
    /// Severity of this log entry.
    pub level: Level,
    /// Target (subsystem of origin) of this log entry.
    pub target: String,
    /// Rendered message of this log entry.
    pub body: String,
}

/// The mathematical model of a log entry: plain values and character
/// sequences, with no heap strings.
pub ghost struct EntryModel {
    pub secs: u64,
    pub nanos: u32,
    pub level: Level,
    pub target: Seq<char>,
    pub body: Seq<char>,
}

/// A well-formed entry model keeps its nanosecond part below one second.
pub open spec fn wf_model(m: EntryModel) -> bool {
    m.nanos < 1_000_000_000
}

/// Every model in the sequence is well-formed.
pub open spec fn wf_models(es: Seq<EntryModel>) -> bool {
    forall|i: int| 0 <= i < es.len() ==> wf_model(#[trigger] es[i])
}

impl View for LogEntry {
    type V = EntryModel;

    open spec fn view(&self) -> EntryModel {
        EntryModel {
            secs: self.offset.secs,
            nanos: self.offset.nanos,
            level: self.level,
            target: self.target@,
            body: self.body@,
        }
    }
}

impl LogEntry {
    /// A well-formed entry has a well-formed offset.
    pub open spec fn wf(&self) -> bool {
        wf_model(self@)
    }
}

} // verus!
