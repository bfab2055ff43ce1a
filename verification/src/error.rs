//! The failures that the store reports.

use vstd::prelude::*;
use vstd::string::*;

verus! {

/// Why an operation of the store failed.
#[derive(Debug, PartialEq, Eq)]
pub enum Error {
    /// A read reaches outside the segment it names, or names no segment.
    Io,
    /// A payload is not the encoding of a record, or a record has no encoding
    /// that reads back as itself.
    Serde,
    /// `remove` was called with a key that the index does not hold.
    KeyNotFound(String),
    /// The key is the empty string.
    InvalidKey(String),
    /// A segment ends inside a length prefix or inside a payload.
    ParseLengthError,
}

/// What an [`Error`] says, with the key as a sequence of characters.
pub enum ErrorView {
    Io,
    Serde,
    KeyNotFound(Seq<char>),
    InvalidKey(Seq<char>),
    ParseLengthError,
}

impl View for Error {
    type V = ErrorView;

    open spec fn view(&self) -> ErrorView {
        match self {
            Error::Io => ErrorView::Io,
            Error::Serde => ErrorView::Serde,
            Error::KeyNotFound(key) => ErrorView::KeyNotFound(key@),
            Error::InvalidKey(key) => ErrorView::InvalidKey(key@),
            Error::ParseLengthError => ErrorView::ParseLengthError,
        }
    }
}

/// What an error says in words.
pub open spec fn message_of(error: ErrorView) -> Seq<char> {
    match error {
        ErrorView::Io => "io error"@,
        ErrorView::Serde => "serialize error"@,
        ErrorView::KeyNotFound(key) => "key not found. key="@ + key,
        ErrorView::InvalidKey(key) => "invalid key. key="@ + key,
        ErrorView::ParseLengthError => "failed parsing db file."@,
    }
}

impl Error {
    /// The error in words, with the key where it has one.
    pub fn message(&self) -> (text: String)
        ensures
            text@ == message_of(self@),
    {
        match self {
            Error::Io => String::from_str("io error"),
            Error::Serde => String::from_str("serialize error"),
            Error::KeyNotFound(key) => String::from_str("key not found. key=").concat(
                key.as_str(),
            ),
            Error::InvalidKey(key) => String::from_str("invalid key. key=").concat(key.as_str()),
            Error::ParseLengthError => String::from_str("failed parsing db file."),
        }
    }
}

} // verus!
