//! The error kinds surfaced by the store.
use vstd::prelude::*;

verus! {

/// Everything that can go wrong inside the engine.
///
/// Filesystem failures are reported by the I/O shell around the library as
/// `IOError`; the engine itself produces the other kinds.
#[derive(Debug, Clone, Copy, PartialEq, Eq, Structural)]
pub enum BitcaskError {
    /// An underlying filesystem operation failed.
    IOError,
    /// The requested key is not present.
    NotFound,
    /// Another live process holds the data directory.
    LockContention,
    /// The lock file exists but no PID can be read from it.
    StaleLock,
    /// A record or file position would exceed the 32-bit on-disk limits.
    Overflow,
}

} // verus!
