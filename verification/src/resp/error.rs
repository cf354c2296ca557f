//! Why a byte stream or a decoded value is refused.

use vstd::prelude::*;

verus! {

/// Why the codec refuses a byte stream as malformed.
#[derive(Clone, Copy, Debug, PartialEq, Eq, Structural)]
pub enum FormatError {
    /// The first byte of a message is none of the type tags `+`, `:`, `$` and `*`.
    UnrecognizedType,
    /// The content of an integer line is not a decimal `i64`, or a declared length or count is
    /// not a decimal integer that an `i64` or a `u64` holds.
    InvalidInteger,
    /// The content of a string is not UTF-8.
    InvalidText,
    /// A declared count is negative, a declared length is negative and not the -1 of the null
    /// value, or the payload of a bulk string is not followed by a line terminator at the
    /// declared length.
    LengthMismatch,
}

/// Why a decoded value is refused as a command.
#[derive(Clone, Copy, Debug, PartialEq, Eq, Structural)]
pub enum ProtocolError {
    /// The value is not an array.
    NotAnArray,
    /// The array is empty, or its first element is neither a bulk string nor a simple string.
    MissingCommandName,
}

/// Why reading a command from a connection fails.
#[derive(Clone, Copy, Debug, PartialEq, Eq, Structural)]
pub enum ConnectionError {
    /// The bytes received cannot be decoded.
    Format(FormatError),
    /// The value decoded is not a command.
    Protocol(ProtocolError),
}

impl FormatError {
    /// The text that describes the error.
    pub open spec fn text(self) -> Seq<char> {
        match self {
            FormatError::UnrecognizedType => "unrecognised message type"@,
            FormatError::InvalidInteger => "could not parse integer"@,
            FormatError::InvalidText => "could not parse string"@,
            FormatError::LengthMismatch => "data not matching declared length"@,
        }
    }

    /// Describes the error in words.
    pub fn message(&self) -> (out: String)
        ensures
            out@ == self.text(),
    {
        match self {
            FormatError::UnrecognizedType => "unrecognised message type".to_owned(),
            FormatError::InvalidInteger => "could not parse integer".to_owned(),
            FormatError::InvalidText => "could not parse string".to_owned(),
            FormatError::LengthMismatch => "data not matching declared length".to_owned(),
        }
    }
}

impl ProtocolError {
    /// The text that describes the error.
    pub open spec fn text(self) -> Seq<char> {
        match self {
            ProtocolError::NotAnArray => "not an array"@,
            ProtocolError::MissingCommandName => "missing command name"@,
        }
    }

    /// Describes the error in words.
    pub fn message(&self) -> (out: String)
        ensures
            out@ == self.text(),
    {
        match self {
            ProtocolError::NotAnArray => "not an array".to_owned(),
            ProtocolError::MissingCommandName => "missing command name".to_owned(),
        }
    }
}

impl ConnectionError {
    /// The text that describes the error.
    pub open spec fn text(self) -> Seq<char> {
        match self {
            ConnectionError::Format(e) => e.text(),
            ConnectionError::Protocol(e) => e.text(),
        }
    }

    /// Describes the error in words.
    pub fn message(&self) -> (out: String)
        ensures
            out@ == self.text(),
    {
        match self {
            ConnectionError::Format(e) => e.message(),
            ConnectionError::Protocol(e) => e.message(),
        }
    }
}

} // verus!
