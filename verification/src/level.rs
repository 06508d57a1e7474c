use vstd::prelude::*;

verus! {

/// Severity of a single log event, from least to most severe:
/// `Trace < Debug < Info < Warn < Error`.
#[derive(Clone, Copy, Debug, PartialEq, Eq, Structural)]
pub enum Level {
    Error,
    Warn,
    Info,
    Debug,
    Trace,
}

/// Threshold installed with a sink: events whose severity the filter does not
/// admit are dropped before encoding. `Off` admits nothing.
#[derive(Clone, Copy, Debug, PartialEq, Eq, Structural)]
pub enum LevelFilter {
    Off,
    Error,
    Warn,
    Info,
    Debug,
    Trace,
}

/// Numeric rank of a severity; smaller ranks are more severe.
pub open spec fn level_rank(l: Level) -> int {
    match l {
        Level::Error => 1,
        Level::Warn => 2,
        Level::Info => 3,
        Level::Debug => 4,
        Level::Trace => 5,
    }
}

/// Numeric rank of a filter; a filter admits every severity whose rank does
/// not exceed its own.
pub open spec fn filter_rank(f: LevelFilter) -> int {
    match f {
        LevelFilter::Off => 0,
        LevelFilter::Error => 1,
        LevelFilter::Warn => 2,
        LevelFilter::Info => 3,
        LevelFilter::Debug => 4,
        LevelFilter::Trace => 5,
    }
}

/// Whether the filter admits an event of the given severity.
pub open spec fn admits(f: LevelFilter, l: Level) -> bool {
    level_rank(l) <= filter_rank(f)
}

impl Level {
    /// Executable severity rank, equal to [`level_rank`].
    pub fn rank(&self) -> (r: u32)
        ensures
            r == level_rank(*self),
    {
        match self {
            Level::Error => 1,
            Level::Warn => 2,
            Level::Info => 3,
            Level::Debug => 4,
            Level::Trace => 5,
        }
    }
}

impl LevelFilter {
    /// Executable filter rank, equal to [`filter_rank`].
    pub fn rank(&self) -> (r: u32)
        ensures
            r == filter_rank(*self),
    {
        match self {
            LevelFilter::Off => 0,
            LevelFilter::Error => 1,
            LevelFilter::Warn => 2,
            LevelFilter::Info => 3,
            LevelFilter::Debug => 4,
            LevelFilter::Trace => 5,
        }
    }

    /// Whether this filter admits an event of severity `l`.
    pub fn accepts(&self, l: Level) -> (r: bool)
        ensures
            r == admits(*self, l),
    {
        l.rank() <= self.rank()
    }
}

/// The uppercase textual tag of a severity; this mapping is part of the
/// durable format and must not change.
pub open spec fn level_label(l: Level) -> Seq<char> {
    match l {
        Level::Error => "ERROR"@,
        Level::Warn => "WARN"@,
        Level::Info => "INFO"@,
        Level::Debug => "DEBUG"@,
        Level::Trace => "TRACE"@,
    }
}

/// Reveals the five label literals, so that their characters are known.
pub proof fn lemma_labels_revealed()
    ensures
        level_label(Level::Error) =~= seq!['E', 'R', 'R', 'O', 'R'],
        level_label(Level::Warn) =~= seq!['W', 'A', 'R', 'N'],
        level_label(Level::Info) =~= seq!['I', 'N', 'F', 'O'],
        level_label(Level::Debug) =~= seq!['D', 'E', 'B', 'U', 'G'],
        level_label(Level::Trace) =~= seq!['T', 'R', 'A', 'C', 'E'],
{
    reveal_strlit("ERROR");
    reveal_strlit("WARN");
    reveal_strlit("INFO");
    reveal_strlit("DEBUG");
    reveal_strlit("TRACE");
}

impl Level {
    /// The uppercase label of this severity, as written in the stream.
    pub fn label_str(&self) -> (r: &'static str)
        ensures
            r@ == level_label(*self),
    {
        match self {
            Level::Error => "ERROR",
            Level::Warn => "WARN",
            Level::Info => "INFO",
            Level::Debug => "DEBUG",
            Level::Trace => "TRACE",
        }
    }
}

/// Parses a severity label standing at the front of `s`: on success returns
/// the severity and the rest of `s` after its label. The five labels begin
/// with five distinct characters, so the match is unambiguous.
pub open spec fn parse_level_prefix(s: Seq<char>) -> Option<(Level, Seq<char>)> {
    if level_label(Level::Error).is_prefix_of(s) {
        Some((Level::Error, s.skip(5)))
    } else if level_label(Level::Warn).is_prefix_of(s) {
        Some((Level::Warn, s.skip(4)))
    } else if level_label(Level::Info).is_prefix_of(s) {
        Some((Level::Info, s.skip(4)))
    } else if level_label(Level::Debug).is_prefix_of(s) {
        Some((Level::Debug, s.skip(5)))
    } else if level_label(Level::Trace).is_prefix_of(s) {
        Some((Level::Trace, s.skip(5)))
    } else {
        None
    }
}

/// Each severity's label, written and then parsed back, yields that same
/// severity and leaves the rest of the input untouched.
pub proof fn lemma_level_label_round_trip(l: Level, rest: Seq<char>)
    ensures
        parse_level_prefix(level_label(l) + rest) == Some((l, rest)),
{
    lemma_labels_revealed();
    let s = level_label(l) + rest;
    match l {
        Level::Error => {
            assert(level_label(Level::Error).is_prefix_of(s)) by {
                assert(s.take(5) =~= level_label(Level::Error));
            }
            assert(s.skip(5) =~= rest);
        },
        Level::Warn => {
            assert(s[0] == 'W');
            assert(!level_label(Level::Error).is_prefix_of(s));
            assert(level_label(Level::Warn).is_prefix_of(s)) by {
                assert(s.take(4) =~= level_label(Level::Warn));
            }
            assert(s.skip(4) =~= rest);
        },
        Level::Info => {
            assert(s[0] == 'I');
            assert(!level_label(Level::Error).is_prefix_of(s));
            assert(!level_label(Level::Warn).is_prefix_of(s));
            assert(level_label(Level::Info).is_prefix_of(s)) by {
                assert(s.take(4) =~= level_label(Level::Info));
            }
            assert(s.skip(4) =~= rest);
        },
        Level::Debug => {
            assert(s[0] == 'D');
            assert(!level_label(Level::Error).is_prefix_of(s));
            assert(!level_label(Level::Warn).is_prefix_of(s));
            assert(!level_label(Level::Info).is_prefix_of(s));
            assert(level_label(Level::Debug).is_prefix_of(s)) by {
                assert(s.take(5) =~= level_label(Level::Debug));
            }
            assert(s.skip(5) =~= rest);
        },
        Level::Trace => {
            assert(s[0] == 'T');
            assert(!level_label(Level::Error).is_prefix_of(s));
            assert(!level_label(Level::Warn).is_prefix_of(s));
            assert(!level_label(Level::Info).is_prefix_of(s));
            assert(!level_label(Level::Debug).is_prefix_of(s));
            assert(level_label(Level::Trace).is_prefix_of(s)) by {
                assert(s.take(5) =~= level_label(Level::Trace));
            }
            assert(s.skip(5) =~= rest);
        },
    }
}

} // verus!
