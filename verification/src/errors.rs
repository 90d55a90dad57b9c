//! Typed failures surfaced by every storage operation.

use vstd::prelude::*;

verus! {

/// Error kinds of the storage core.
///
/// `NotFound` carries the identifier of the entity that was looked up and
/// missing. `SqliteError` stands for a storage-engine failure (a constraint
/// violation or a malformed query). `IoError` is a filesystem-level failure
/// while creating or opening the storage location, and `LockError` a failure
/// to acquire exclusive access to the shared handle; the latter two are
/// raised only by the unverified shell around this library.
#[derive(Debug)]
pub enum AppError {
    NotFound(String),
    SqliteError(String),
    IoError(String),
    LockError(String),
}

} // verus!
