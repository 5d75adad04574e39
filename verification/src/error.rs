//! The error type of the library and its mathematical reading.

use vstd::prelude::*;
use vstd::string::*;

use crate::text::concat;

verus! {

/// The reason of a failed read or write on a byte stream.
#[derive(Debug, Clone, Copy, PartialEq, Eq, Structural)]
pub enum IoErrorKind {
    /// The stream ended before the requested bytes were read.
    UnexpectedEof,
    /// A value was handed to a writer that the requested field cannot hold.
    InvalidInput,
}

/// Result alias used by the public API.
pub type Result<T> = std::result::Result<T, Error>;

/// Error type used by encode, decode, and inspect operations.
#[derive(Debug)]
pub enum Error {
    /// A read or write on a byte stream failed.
    Io(IoErrorKind),
    /// The input PCM container is structurally invalid.
    InvalidPcmContainer(&'static str),
    /// The FLAC input is structurally invalid.
    InvalidFlac(&'static str),
    /// The input PCM container is valid enough to parse but uses unsupported features.
    UnsupportedPcmContainer(String),
    /// The FLAC input is valid enough to parse but uses unsupported features.
    UnsupportedFlac(String),
    /// The encode pipeline failed after input validation.
    Encode(String),
    /// The decode pipeline failed after input validation.
    Decode(String),
    /// A worker-thread or cross-thread coordination error occurred.
    Thread(String),
}

/// An [`Error`] with its message as a sequence of characters.
pub enum ErrorView {
    Io(IoErrorKind),
    InvalidPcmContainer(Seq<char>),
    InvalidFlac(Seq<char>),
    UnsupportedPcmContainer(Seq<char>),
    UnsupportedFlac(Seq<char>),
    Encode(Seq<char>),
    Decode(Seq<char>),
    Thread(Seq<char>),
}

impl View for Error {
    type V = ErrorView;

    open spec fn view(&self) -> ErrorView {
        match self {
            Error::Io(kind) => ErrorView::Io(*kind),
            Error::InvalidPcmContainer(message) => ErrorView::InvalidPcmContainer(message@),
            Error::InvalidFlac(message) => ErrorView::InvalidFlac(message@),
            Error::UnsupportedPcmContainer(message) => ErrorView::UnsupportedPcmContainer(message@),
            Error::UnsupportedFlac(message) => ErrorView::UnsupportedFlac(message@),
            Error::Encode(message) => ErrorView::Encode(message@),
            Error::Decode(message) => ErrorView::Decode(message@),
            Error::Thread(message) => ErrorView::Thread(message@),
        }
    }
}

/// The text shown for an error.
pub open spec fn error_text(error: ErrorView) -> Seq<char> {
    match error {
        ErrorView::Io(IoErrorKind::UnexpectedEof) => "failed to fill whole buffer"@,
        ErrorView::Io(IoErrorKind::InvalidInput) => "invalid input parameter"@,
        ErrorView::InvalidPcmContainer(message) => "invalid pcm container: "@ + message,
        ErrorView::InvalidFlac(message) => "invalid flac: "@ + message,
        ErrorView::UnsupportedPcmContainer(message) => "unsupported pcm container: "@ + message,
        ErrorView::UnsupportedFlac(message) => "unsupported flac: "@ + message,
        ErrorView::Encode(message) => "encode error: "@ + message,
        ErrorView::Decode(message) => "decode error: "@ + message,
        ErrorView::Thread(message) => "thread error: "@ + message,
    }
}

impl Error {
    /// The text shown to the user for this error.
    pub fn message(&self) -> (text: String)
        ensures
            text@ == error_text(self@),
    {
        match self {
            Error::Io(IoErrorKind::UnexpectedEof) => "failed to fill whole buffer".to_owned(),
            Error::Io(IoErrorKind::InvalidInput) => "invalid input parameter".to_owned(),
            Error::InvalidPcmContainer(message) => concat("invalid pcm container: ", message),
            Error::InvalidFlac(message) => concat("invalid flac: ", message),
            Error::UnsupportedPcmContainer(message) => {
                concat("unsupported pcm container: ", message.as_str())
            },
            Error::UnsupportedFlac(message) => concat("unsupported flac: ", message.as_str()),
            Error::Encode(message) => concat("encode error: ", message.as_str()),
            Error::Decode(message) => concat("decode error: ", message.as_str()),
            Error::Thread(message) => concat("thread error: ", message.as_str()),
        }
    }
}

/// A step that failed ends what it belongs to with its own error. `before` and `after`
/// are the last failures known before and after.
pub open spec fn failure_is_told<T>(
    before: Option<ErrorView>,
    after: Option<ErrorView>,
    result: Result<T>,
) -> bool {
    match result {
        Ok(_) => after == before,
        Err(error) => after == before || after == Some(error@),
    }
}

} // verus!
