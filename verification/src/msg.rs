//! The shapes of the messages that a transport exchanges with a store.

use vstd::prelude::*;

verus! {

/// What a client asks of the store.
#[derive(Debug, PartialEq, Eq)]
pub enum Request {
    /// Get the value of a key.
    Get { key: String },
    /// Bind a key to a value.
    Put { key: String, value: String },
    /// Remove a key.
    Remove { key: String },
}

/// What the store answers.
#[derive(Debug, PartialEq, Eq)]
pub enum Response {
    /// The operation succeeded. Holds the value for a `Get` of a key that is
    /// there, `None` otherwise.
    Success(Option<String>),
    /// The operation failed, with a description of the failure.
    Error(String),
}

} // verus!
