//! The failures a store can report.

use vstd::prelude::*;

verus! {

/// `std::io::Error`, carried through as an opaque value.
#[verifier::external_type_specification]
#[verifier::external_body]
pub struct ExIoError(std::io::Error);

/// `bincode::ErrorKind`, carried through as an opaque value.
#[verifier::external_type_specification]
#[verifier::external_body]
pub struct ExBincodeErrorKind(bincode::ErrorKind);

/// Why a store operation failed.
#[derive(Debug)]
pub enum KvsError {
    /// Writing or flushing the log failed.
    Io(std::io::Error),
    /// A log record could not be encoded or decoded.
    Serde(Box<bincode::ErrorKind>),
    /// A removal named a key that the index does not hold.
    KeyNotFound,
    /// An internal invariant was violated.
    Internal(String),
}

} // verus!
