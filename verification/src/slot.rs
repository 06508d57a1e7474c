use vstd::prelude::*;

use crate::sink::Sink;

verus! {

/// Why initialization failed.
#[derive(Clone, Copy, Debug, PartialEq, Eq, Structural)]
pub enum InitError {
    /// Creating the log file failed.
    CreateFileError,
    /// A global sink is already installed.
    SetLoggerError,
}

/// The process-lifetime slot for the one active sink. Installation into an
/// occupied slot fails rather than replacing what is there: the stream has a
/// single writer for its whole life.
pub struct SinkSlot {
    sink: Option<Sink>,
}

impl SinkSlot {
    /// Whether a sink has been installed.
    pub closed spec fn installed(&self) -> bool {
        self.sink is Some
    }

    /// The installed sink, if any.
    pub closed spec fn active(&self) -> Option<Sink> {
        self.sink
    }

    /// An empty slot.
    pub fn new() -> (s: SinkSlot)
        ensures
            !s.installed(),
    {
        SinkSlot { sink: None }
    }

    /// Installs a sink. A second installation fails with an installation
    /// error and leaves the first sink exactly as it was.
    pub fn install(&mut self, sink: Sink) -> (r: Result<(), InitError>)
        ensures
            old(self).installed() ==> r == Result::<(), InitError>::Err(InitError::SetLoggerError)
                && *final(self) == *old(self),
            !old(self).installed() ==> r == Result::<(), InitError>::Ok(()) && final(self).active()
                == Some(sink),
    {
        if self.sink.is_some() {
            Err(InitError::SetLoggerError)
        } else {
            self.sink = Some(sink);
            Ok(())
        }
    }
}

} // verus!
