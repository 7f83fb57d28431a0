//! The ways in which handling one request or one response can fail.

use vstd::prelude::*;

verus! {

/// Why a request or a response could not be handled.
#[derive(Debug, Clone, Copy, PartialEq, Eq, Structural)]
pub enum Error {
    /// The stream ended before the announced body had arrived, or a line of
    /// it was no valid UTF-8.
    ConnectionError,
    /// The request line lacks its method or its URI.
    MalformedRequestLine,
    /// The method is neither `GET` nor `POST`.
    UnsupportedMethod,
    /// A header line holds no colon.
    MalformedHeader,
    /// The `Content-Length` header holds no unsigned number that fits.
    InvalidContentLength,
    /// The status line lacks its status code.
    MalformedStatusLine,
    /// The status code is none of 200, 404 and 400.
    UnknownStatusCode,
    /// The response has no `Content-Length` header, and so no body.
    MissingBody,
    /// The body of a posted message is no JSON object with a `user` and a
    /// `message` string.
    InvalidMessage,
}

/// The three families of failures.
#[derive(Debug, Clone, Copy, PartialEq, Eq, Structural)]
pub enum ErrorKind {
    /// The peer broke the wire protocol.
    Protocol,
    /// The protocol was kept, the content was not acceptable.
    Application,
    /// The connection itself failed.
    Connection,
}

impl Error {
    /// The family of a failure.
    pub open spec fn spec_kind(self) -> ErrorKind {
        match self {
            Error::ConnectionError => ErrorKind::Connection,
            Error::InvalidMessage => ErrorKind::Application,
            _ => ErrorKind::Protocol,
        }
    }

    /// The family of this failure.
    #[verifier::when_used_as_spec(spec_kind)]
    pub fn kind(self) -> (k: ErrorKind)
        ensures
            k == self.spec_kind(),
    {
        match self {
            Error::ConnectionError => ErrorKind::Connection,
            Error::InvalidMessage => ErrorKind::Application,
            _ => ErrorKind::Protocol,
        }
    }
}

} // verus!
