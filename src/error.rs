use vstd::prelude::*;

use crate::message::ParserError;

verus! {

/// An I/O error of the socket, carried through unchanged.
#[verifier::external_type_specification]
#[verifier::external_body]
pub struct ExIoError(std::io::Error);

/// A failure to read bytes as UTF-8, carried through unchanged.
#[verifier::external_type_specification]
#[verifier::external_body]
pub struct ExUtf8Error(std::str::Utf8Error);

/// All the errors of this library.
#[derive(Debug)]
pub enum Error {
    /// An I/O error happened on the TCP stream.
    IoError(std::io::Error),
    /// Bytes read from the server were not valid UTF-8.
    Utf8Error(std::str::Utf8Error),
    /// A decoded value could not be turned into a message.
    ParserError(ParserError),
    /// The channel or pattern to unsubscribe from was not subscribed to.
    NotSubscribed,
    /// A read returned no bytes: the server closed the connection.
    ZeroBytesRead,
}

/// Which error an `Error` is, with the parser's reason.
pub enum ErrorKind {
    Io,
    Utf8,
    Parser(ParserError),
    NotSubscribed,
    ZeroBytesRead,
}

impl View for Error {
    type V = ErrorKind;

    open spec fn view(&self) -> ErrorKind {
        match self {
            Error::IoError(_) => ErrorKind::Io,
            Error::Utf8Error(_) => ErrorKind::Utf8,
            Error::ParserError(e) => ErrorKind::Parser(*e),
            Error::NotSubscribed => ErrorKind::NotSubscribed,
            Error::ZeroBytesRead => ErrorKind::ZeroBytesRead,
        }
    }
}

} // verus!
