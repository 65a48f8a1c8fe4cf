//! Error taxonomy of the engine core.

use vstd::prelude::*;

verus! {

/// Errors surfaced by the engine core.
///
/// Iterator layers use their own cloneable error (`IteratorError`); this
/// enum covers configuration, codec, and log failures.
#[derive(Debug, Clone)]
pub enum Error {
    /// Invalid configuration.
    Config(String),
    /// An I/O failure, carried as its message.
    Io(String),
    /// An empty key was supplied.
    EmptyKey,
    /// A key or value exceeds its size bound.
    TooLong(&'static str),
    /// A checksum mismatch.
    InvalidChecksum(String),
    /// A file name not of the expected shape.
    InvalidFilename(String),
    /// A varint could not be decoded.
    Decode(&'static str),
    /// A header was too short or otherwise malformed.
    VarDecode(&'static str),
    /// A table block could not be read.
    TableRead(&'static str),
    /// A value-log read out of bounds.
    LogRead(&'static str),
    /// A wrapped lower-level failure, carried as its message.
    CustomError(String),
}

} // verus!
