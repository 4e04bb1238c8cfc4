//! The error that the header codecs report: an HTTP status with a message.
use vstd::prelude::*;

verus! {

/// The HTTP statuses that the range headers answer with.
#[derive(Clone, Copy, Debug, PartialEq, Eq, Structural)]
pub enum StatusCode {
    /// 400 Bad Request.
    BadRequest,
    /// 416 Requested Range Not Satisfiable.
    RequestedRangeNotSatisfiable,
}

impl StatusCode {
    /// The number of the status.
    pub open spec fn spec_code(self) -> u16 {
        match self {
            StatusCode::BadRequest => 400,
            StatusCode::RequestedRangeNotSatisfiable => 416,
        }
    }

    /// The number of the status.
    pub fn code(&self) -> (n: u16)
        ensures
            n == self.spec_code(),
    {
        match self {
            StatusCode::BadRequest => 400,
            StatusCode::RequestedRangeNotSatisfiable => 416,
        }
    }
}

/// What an [`Error`] holds, as plain values.
pub struct ErrorView {
    pub status: StatusCode,
    pub message: Seq<char>,
}

/// A failure to read or validate a header value.
#[derive(Clone, Debug, PartialEq, Eq)]
pub struct Error {
    status: StatusCode,
    message: String,
}

impl View for Error {
    type V = ErrorView;

    closed spec fn view(&self) -> ErrorView {
        ErrorView { status: self.status, message: self.message@ }
    }
}

impl Error {
    /// An error with the given status and message.
    pub fn new(status: StatusCode, message: &str) -> (e: Error)
        ensures
            e@ == (ErrorView { status, message: message@ }),
    {
        Error { status, message: message.to_owned() }
    }

    /// The HTTP status to answer with.
    pub fn status(&self) -> (s: StatusCode)
        ensures
            s == self@.status,
    {
        self.status
    }

    /// The message that explains the failure.
    pub fn message(&self) -> (m: &str)
        ensures
            m@ == self@.message,
    {
        self.message.as_str()
    }

    /// The message, as `Display` would print the error.
    pub fn to_string(&self) -> (m: String)
        ensures
            m@ == self@.message,
    {
        self.message.clone()
    }
}

} // verus!
