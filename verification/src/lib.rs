//! An embeddable, crash-tolerant, append-only record log.
//!
//! Records are opaque byte strings framed on disk with an escape
//! encoding, stored in a series of fixed-capacity files ("sections")
//! addressed by four-digit components, and streamed back in write
//! order with 64-bit resume tokens.
//!
//! The library itself performs no file I/O: writers return the exact
//! bytes to append, and readers are fed bytes as they are pulled from
//! disk, so every decision about the on-disk format is verified here
//! while an embedding runs the actual reads and writes.

pub mod bytes;
pub mod codec;
pub mod component;
pub mod error;
pub mod queue;
pub mod reader;
pub mod section;
pub mod token;
