//! Errors.

use vstd::prelude::*;

verus! {

/// What can go wrong while reading or naming persisted state.
#[derive(Debug)]
pub enum PersistenceError {
    /// Bytes that do not follow the format they are read as.
    Format(String),
    /// A request or a directory that this library does not accept.
    InvalidConfig(String),
    /// Bytes that do not match their stored checksum.
    CrcMismatch {
        /// The stored checksum.
        expected: u32,
        /// The checksum of the bytes.
        actual: u32,
    },
    /// Something that is not there.
    NotFound(String),
    /// An operation that the current state does not allow.
    InvalidState(String),
    /// Bytes that end before what has to be read from them.
    UnexpectedEof,
}

/// The result of an operation on persisted state.
pub type PersistenceResult<T> = Result<T, PersistenceError>;

/// The result is a format error with exactly this message.
pub open spec fn format_error<T>(result: PersistenceResult<T>, message: Seq<char>) -> bool {
    result matches Err(PersistenceError::Format(m)) && m@ == message
}

/// The result is a configuration error with exactly this message.
pub open spec fn config_error<T>(result: PersistenceResult<T>, message: Seq<char>) -> bool {
    result matches Err(PersistenceError::InvalidConfig(m)) && m@ == message
}

/// The result is a not-found error with exactly this message.
pub open spec fn not_found<T>(result: PersistenceResult<T>, message: Seq<char>) -> bool {
    result matches Err(PersistenceError::NotFound(m)) && m@ == message
}

/// The result is a checksum error with these two checksums.
pub open spec fn crc_mismatch<T>(result: PersistenceResult<T>, expected: u32, actual: u32) -> bool {
    result matches Err(PersistenceError::CrcMismatch { expected: e, actual: a }) && e == expected
        && a == actual
}

/// The result says that the bytes ended too soon.
pub open spec fn ended_early<T>(result: PersistenceResult<T>) -> bool {
    result matches Err(PersistenceError::UnexpectedEof)
}

} // verus!
