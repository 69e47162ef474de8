//! Errors the store surfaces to its callers.

use vstd::prelude::*;

verus! {

/// All errors that can be encountered by the `KvStore`.
///
/// I/O failures never arise here: the engine works on the log bytes an
/// embedder hands it, and the embedder surfaces its own read and write
/// errors alongside these.
#[derive(Debug)]
pub enum KvsError {
    /// Deserialization failure: the log bytes do not frame a whole
    /// command record where one was expected.  A corrupt log is
    /// surfaced, not silently truncated.
    Des,
    /// `remove` was asked for a key that is not present; carries the
    /// key.  The log is not touched in this case.
    NonExistentKey(Vec<u8>),
    /// A read found a record of an unexpected variant at an indexed
    /// offset.  Indicates a corrupted log or a program error.
    UnexpectedCommandType,
}

} // verus!
