use vstd::prelude::*;

verus! {

/// The kinds of failure that an engine operation, the codec or the network
/// layer can report. Each carries a human-readable message.
#[derive(Debug, Clone, PartialEq, Eq)]
pub enum ErrorKind {
    /// An underlying I/O failure (file or socket).
    Io(String),
    /// A decoded record is not allowed where it was found.
    InvalidCommand(String),
    /// `remove` of an absent key.
    KeyNotFound(String),
    /// The codec refused to encode or decode.
    SerializerError(String),
    /// Not enough bytes for a whole frame.
    Incomplete(String),
    /// A frame or a response of the wrong shape.
    InvalidFormat(String),
    /// An integer did not fit its target type.
    TypeConversionFailed(String),
    /// Bytes that are not UTF-8.
    Utf8ConversionError(String),
    /// An error that the peer reported, carried over as its message.
    Remote(String),
}

/// The error type of the library: one kind, with its message.
#[derive(Debug, Clone)]
pub struct Error {
    pub kind: ErrorKind,
}

pub type Result<T> = core::result::Result<T, Error>;

/// The message that an error kind carries.
pub open spec fn kind_message(k: ErrorKind) -> Seq<char> {
    match k {
        ErrorKind::Io(m) => m@,
        ErrorKind::InvalidCommand(m) => m@,
        ErrorKind::KeyNotFound(m) => m@,
        ErrorKind::SerializerError(m) => m@,
        ErrorKind::Incomplete(m) => m@,
        ErrorKind::InvalidFormat(m) => m@,
        ErrorKind::TypeConversionFailed(m) => m@,
        ErrorKind::Utf8ConversionError(m) => m@,
        ErrorKind::Remote(m) => m@,
    }
}

impl Error {
    pub fn new(kind: ErrorKind) -> (r: Error)
        ensures
            r.kind == kind,
    {
        Error { kind }
    }

    pub fn key_not_found(message: String) -> (r: Error)
        ensures
            r.kind == ErrorKind::KeyNotFound(message),
    {
        Error { kind: ErrorKind::KeyNotFound(message) }
    }

    pub fn invalid_command(message: String) -> (r: Error)
        ensures
            r.kind == ErrorKind::InvalidCommand(message),
    {
        Error { kind: ErrorKind::InvalidCommand(message) }
    }

    /// The error's message: this is what crosses the wire in a response.
    pub fn as_string(&self) -> (r: String)
        ensures
            r@ == kind_message(self.kind),
    {
        match &self.kind {
            ErrorKind::Io(m) => m.clone(),
            ErrorKind::InvalidCommand(m) => m.clone(),
            ErrorKind::KeyNotFound(m) => m.clone(),
            ErrorKind::SerializerError(m) => m.clone(),
            ErrorKind::Incomplete(m) => m.clone(),
            ErrorKind::InvalidFormat(m) => m.clone(),
            ErrorKind::TypeConversionFailed(m) => m.clone(),
            ErrorKind::Utf8ConversionError(m) => m.clone(),
            ErrorKind::Remote(m) => m.clone(),
        }
    }

    pub fn is_key_not_found(&self) -> (r: bool)
        ensures
            r <==> self.kind is KeyNotFound,
    {
        match &self.kind {
            ErrorKind::KeyNotFound(_) => true,
            _ => false,
        }
    }
}

} // verus!
