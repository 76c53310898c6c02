//! Error kinds surfaced by the log.

use vstd::prelude::*;

verus! {

/// Everything that can go wrong inside the log's own logic.
///
/// I/O failures happen outside this library and never reach these
/// variants; an embedding maps its own read and write errors itself.
#[derive(Clone, Copy, Debug, PartialEq, Eq, Structural)]
pub enum Error {
    /// A record exceeds the maximum item size.
    InvalidInput,
    /// The current section's write cursor has reached its capacity.
    SectionFull,
    /// The last component has no successor: the queue cannot grow.
    QueueFull,
    /// Bytes on disk do not follow the record format.
    CorruptData,
    /// A previous error has halted further execution of an iterator.
    Halted,
}

} // verus!
