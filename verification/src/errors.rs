//! Error kinds surfaced by the storage engine.

use vstd::prelude::*;

verus! {

/// Everything that can go wrong in the engine core.
///
/// - `IOError`: a filesystem-level failure reported by the surrounding
///   process.
/// - `NotFound`: a missing content-store key or snapshot id.
/// - `Corrupt`: a stored blob whose bytes no longer hash to its key.
/// - `SerializationError`: a canonical encoding could not be decoded.
/// - `NotMounted` / `AlreadyMounted`: a mount-state precondition was
///   violated by the caller.
/// - `WALReplayError`: a replayed log record is inconsistent and the
///   engine refuses to mount on top of it.
#[derive(Clone, Copy, Debug, PartialEq, Eq, Structural)]
pub enum EngineError {
    IOError,
    NotFound,
    Corrupt,
    SerializationError,
    NotMounted,
    AlreadyMounted,
    WALReplayError,
}

} // verus!
