//! A structured logging sink with a verified on-disk format.
//!
//! Log events are framed one JSON record per line, streamed through a gzip
//! compressor on the write side and read back, in order, on the read side.
//! The record grammar, its framing rule, the severity gate and the
//! install-once discipline are verified; the compressor and the clock are
//! trusted at their interface.

pub mod codec;
pub mod entry;
pub mod level;
pub mod gz;
pub mod sink;
pub mod slot;
pub mod stream;

pub use entry::LogEntry;
pub use entry::LogOffset;
pub use level::Level;
pub use level::LevelFilter;
pub use sink::Sink;
pub use slot::InitError;
pub use slot::SinkSlot;
pub use stream::LogEntryIter;
