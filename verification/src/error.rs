//! The crate's error type, and what an HTTP front end answers for it.

use vstd::prelude::*;
use vstd::string::StringExecFns;

verus! {

/// What can go wrong in this crate.
#[derive(Debug)]
pub enum Error {
    /// A tag or a movie that the index does not hold was asked for.
    NotFound,
    /// A filesystem operation failed; the text says how.
    IO(String),
    /// A path has no final component, a name is not text, or an identifier
    /// is not written as forty hexadecimal digits.
    InvalidInput(String),
    /// The media server refused a request.
    JellyfinError(String),
    /// A request path does not start with a slash.
    InvalidPath(String),
}

/// The HTTP status for "not found".
pub const STATUS_NOT_FOUND: u16 = 404;

/// The HTTP status for an error on the server's side.
pub const STATUS_INTERNAL_SERVER_ERROR: u16 = 500;

impl Error {
    /// The error in words.
    pub open spec fn message_of(self) -> Seq<char> {
        match self {
            Error::NotFound => "Not found"@,
            Error::IO(text) => "IO error: "@ + text@,
            Error::InvalidInput(text) => text@,
            Error::JellyfinError(text) => "Jellyfin error: "@ + text@,
            Error::InvalidPath(text) => "Invalid path: "@ + text@,
        }
    }

    /// The text that an HTTP answer carries for the error.
    pub open spec fn response_text_of(self) -> Seq<char> {
        match self {
            Error::InvalidInput(text) => "Internal server error: "@ + text@,
            _ => self.message_of(),
        }
    }

    /// The HTTP status that answers the error: 404 where something was not
    /// found, 500 for everything else.
    pub fn status(&self) -> (code: u16)
        ensures
            code == if self is NotFound {
                STATUS_NOT_FOUND
            } else {
                STATUS_INTERNAL_SERVER_ERROR
            },
    {
        match self {
            Error::NotFound => STATUS_NOT_FOUND,
            _ => STATUS_INTERNAL_SERVER_ERROR,
        }
    }

    /// The error in words.
    pub fn message(&self) -> (text: String)
        ensures
            text@ == self.message_of(),
    {
        match self {
            Error::NotFound => "Not found".to_owned(),
            Error::IO(text) => "IO error: ".to_owned().concat(text.as_str()),
            Error::InvalidInput(text) => text.clone(),
            Error::JellyfinError(text) => "Jellyfin error: ".to_owned().concat(text.as_str()),
            Error::InvalidPath(text) => "Invalid path: ".to_owned().concat(text.as_str()),
        }
    }

    /// The text that an HTTP answer carries for the error.
    pub fn response_text(&self) -> (text: String)
        ensures
            text@ == self.response_text_of(),
    {
        match self {
            Error::InvalidInput(text) => "Internal server error: ".to_owned().concat(
                text.as_str(),
            ),
            _ => self.message(),
        }
    }
}

} // verus!
