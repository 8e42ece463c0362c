//! The errors of the store.
use crate::codec::EncodeError;
use vstd::prelude::*;

verus! {

/// Why an operation of the store failed.
#[derive(Clone, Debug, PartialEq, Eq)]
pub enum KvsError {
    /// The file system or the network failed; the message says how.
    Io(String),
    /// A request or a response could not be serialized or deserialized.
    Serde(String),
    /// A record could not be encoded, or would not fit the log.
    Encoding(EncodeError),
    /// The key to remove is not in the store.
    KeyNotFound,
    /// The index points at a record that is no `Put`: the log is corrupt.
    UnexpectedCommandType,
    /// Bytes that should be UTF-8 are not.
    Utf8(String),
    /// An error reported as a message, such as one that a server sent back.
    StringError(String),
}

} // verus!
