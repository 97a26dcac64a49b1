//! The errors of a call to the polling server.
use crate::text::concat;
use vstd::prelude::*;

verus! {

/// An error of a call to the polling server, with its text.
pub enum Error {
    NetworkError(String),
    JsonParsingError(String),
}

impl Error {
    /// The text of the error.
    pub fn text(&self) -> (r: String)
        ensures
            r@ == match self {
                Error::NetworkError(e) => "Network error: "@ + e@,
                Error::JsonParsingError(e) => "Json parsing error: "@ + e@,
            },
    {
        match self {
            Error::NetworkError(e) => concat("Network error: ", e.as_str()),
            Error::JsonParsingError(e) => concat("Json parsing error: ", e.as_str()),
        }
    }
}

} // verus!
