use vstd::prelude::*;

verus! {

/// The error taxonomy of the engine.
#[derive(Debug, Clone, Copy, PartialEq, Eq, Structural)]
pub enum DBError {
    /// An error reported by the file system.
    IOError,
    /// A frame whose layout is inconsistent.
    CorruptRecord,
    /// A frame whose stored checksum does not match its contents.
    ChecksumMismatch,
    /// Fewer bytes were read than the entry handle promises.
    TruncatedRead,
    /// The index references a segment that the engine does not hold.
    InvariantViolation,
}

pub type DBResult<T> = Result<T, DBError>;

} // verus!
