//! The kinds of failure that the storage core reports.

use vstd::prelude::*;

verus! {

/// What went wrong in an operation of the store.
#[derive(Clone, Copy, Debug, PartialEq, Eq, Structural)]
pub enum KvsError {
    /// A file could not be read or written.
    Io,
    /// A persisted record failed its integrity check.
    Corruption,
    /// Another process holds the directory lock.
    LockContended,
    /// The key to remove is not in the store.
    KeyNotFound,
    /// The channel to the cleaner or to a compaction was closed.
    ChannelClosed,
    /// A value could not be encoded or decoded.
    SerializationError,
    /// An edit or a state breaks the rules of the engine.
    Internal,
}

} // verus!
