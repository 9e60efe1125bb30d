//! The error taxonomy of the parser, and the error-sink capability that lets
//! the state machines build a domain error from a static message, an owned
//! message, or a UTF-8 decoding failure.

use vstd::prelude::*;

verus! {

/// Which class of failure an [`Error`] reports.
///
/// Every failure of the parser is terminal for the affected field and is
/// surfaced to the immediate caller; none is silently recovered.
#[derive(Debug, Clone, Copy, PartialEq, Eq, Structural)]
pub enum ErrorKind {
    /// An error of the inbound chunk sequence, propagated verbatim.
    Transport,
    /// A boundary delimiter was improperly formed, or the stream ended
    /// without the terminal `--boundary--` marker.
    Boundary,
    /// A header block was unparsable, or the mandatory field name was absent.
    Headers,
    /// A field body held an invalid UTF-8 byte sequence, or was truncated in
    /// the middle of a multi-byte sequence.
    Utf8,
    /// A text field or header block exceeded its configured size bound.
    Limit,
}

/// A parse or transport failure, with a human-readable message.
#[derive(Debug, Clone, PartialEq, Eq)]
pub struct Error {
    /// Which class of failure this is.
    pub kind: ErrorKind,
    /// A human-readable description of the failure.
    pub message: String,
}

impl Error {
    /// The class of this failure.
    pub fn kind(&self) -> (k: ErrorKind)
        ensures
            k == self.kind,
    {
        self.kind
    }

    /// The message carried by this failure.
    pub fn message(&self) -> (m: &String)
        ensures
            m@ == self.message@,
    {
        &self.message
    }

    /// Build an error of the given class from a static message.
    pub fn new(kind: ErrorKind, message: &str) -> (e: Error)
        ensures
            e.kind == kind,
            e.message@ == message@,
    {
        Error { kind, message: message.to_owned() }
    }

    /// Build a transport error from a static message.
    pub fn from_str(message: &str) -> (e: Error)
        ensures
            e.kind == ErrorKind::Transport,
            e.message@ == message@,
    {
        Error { kind: ErrorKind::Transport, message: message.to_owned() }
    }

    /// Build a transport error from an owned message.
    pub fn from_string(message: String) -> (e: Error)
        ensures
            e.kind == ErrorKind::Transport,
            e.message@ == message@,
    {
        Error { kind: ErrorKind::Transport, message }
    }

    /// Build a UTF-8 decoding error from a static message.
    pub fn from_utf8(message: &str) -> (e: Error)
        ensures
            e.kind == ErrorKind::Utf8,
            e.message@ == message@,
    {
        Error { kind: ErrorKind::Utf8, message: message.to_owned() }
    }
}

/// A minimal error that wraps a plain string, with no taxonomy attached.
///
/// The scripted chunk sources under [`crate::mock`] use it as their error
/// type, standing in for whatever error an inbound transport would produce.
#[derive(Debug, Clone, PartialEq, Eq)]
pub struct StringError {
    /// The wrapped message.
    pub message: String,
}

impl StringError {
    /// Wrap a static message.
    pub fn from_str(message: &str) -> (e: StringError)
        ensures
            e.message@ == message@,
    {
        StringError { message: message.to_owned() }
    }

    /// Wrap an owned message.
    pub fn from_string(message: String) -> (e: StringError)
        ensures
            e.message@ == message@,
    {
        StringError { message }
    }

    /// The wrapped message.
    pub fn message(&self) -> (m: &String)
        ensures
            m@ == self.message@,
    {
        &self.message
    }

    /// Unwrap into the owned message.
    pub fn into_string(self) -> (m: String)
        ensures
            m@ == self.message@,
    {
        self.message
    }
}

} // verus!
