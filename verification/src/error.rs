//! Error types of the codec.

use vstd::prelude::*;

verus! {

pub type Result<T> = core::result::Result<T, Error>;

/// Errors raised by the decoder and the serializer.
///
/// `SerdeError` carries a message about a structural or coercion
/// failure while pulling values out of a document or emitting them;
/// `ParserError` wraps a failure of the underlying text parser.
#[derive(Debug)]
pub enum Error {
    SerdeError(String),
    ParserError(crate::parser::Error),
}

impl Error {
    /// A human-readable description of the error.
    pub fn message(&self) -> String {
        match self {
            Error::SerdeError(m) => m.clone(),
            Error::ParserError(_) => String::from_str("parser error"),
        }
    }
}

} // verus!
