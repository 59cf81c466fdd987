use vstd::prelude::*;

verus! {

/// What can go wrong while storing, loading or replaying state.
#[derive(Debug, PartialEq, Eq)]
pub enum Error {
    /// A file-system operation on the journal or the snapshot failed.
    Io(String),
    /// A state or message value could not be encoded or decoded.
    Serialization,
    /// The journal's framing is broken: a partial length header, or a
    /// payload shorter than the length it declares.
    CorruptedLog,
    /// The snapshot exists but is shorter than its header, or its state does
    /// not decode.
    CorruptedSnapshot,
    /// The journal has grown as long as a length in memory can count.
    JournalFull,
    /// Exclusive access was abandoned by a thread that panicked.
    LockPoisoned,
}

/// The result of every fallible operation of this library.
pub type Result<T> = core::result::Result<T, Error>;

} // verus!
