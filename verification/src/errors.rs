//! The errors of the booking app.
use crate::text::concat;
use vstd::prelude::*;

verus! {

/// An error of the booking app, with its text.
pub enum Error {
    NetworkError(String),
    StoreError(String),
    JsonParsingError(String),
    ParsingError(String),
    JsonResponseContentNotAsExpected(String),
    WasmConversionError(String),
}

impl Error {
    /// The text of the error.
    pub fn text(&self) -> (r: String)
        ensures
            r@ == match self {
                Error::NetworkError(e) => "Network error: "@ + e@,
                Error::StoreError(e) => "Tauri Store plugin error: "@ + e@,
                Error::JsonParsingError(e) => "Json parsing error: "@ + e@,
                Error::ParsingError(e) => "Parsing error: "@ + e@,
                Error::JsonResponseContentNotAsExpected(e) => "The Json response is not as expected: "@
                    + e@,
                Error::WasmConversionError(e) => "serde_wasm_bindgen error: "@ + e@,
            },
    {
        match self {
            Error::NetworkError(e) => concat("Network error: ", e.as_str()),
            Error::StoreError(e) => concat("Tauri Store plugin error: ", e.as_str()),
            Error::JsonParsingError(e) => concat("Json parsing error: ", e.as_str()),
            Error::ParsingError(e) => concat("Parsing error: ", e.as_str()),
            Error::JsonResponseContentNotAsExpected(e) => concat(
                "The Json response is not as expected: ",
                e.as_str(),
            ),
            Error::WasmConversionError(e) => concat("serde_wasm_bindgen error: ", e.as_str()),
        }
    }
}

} // verus!
