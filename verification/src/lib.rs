//! A verified codec for Tot, a human-editable configuration language.
//!
//! Tot documents are UTF-8 text: the root of a document is a dictionary
//! whose surrounding braces are elided, keys are bare tokens or quoted
//! strings, and values are `null`, booleans, numbers, strings, lists
//! (`[ ]`) and dictionaries (`{ }`).  Whitespace, commas and comments
//! (`// ...` and `/* ... */`) between tokens carry no meaning.
//!
//! The crate offers three coupled views of a document:
//! * [`parser`] turns text into an untyped [`parser::TotValue`] tree;
//! * [`de`] is a pull-style decoder that walks the text directly and
//!   hands out scalars one at a time, coercing numbers to the width a
//!   caller asks for;
//! * [`ser`] renders values back out, pretty-printed or compact.
//!
//! The reference meaning of the text lives in [`grammar`], a
//! specification-level parser every executable contract is stated
//! against, and [`laws`] proves the round-trip properties: parsing
//! what the serializer wrote gives the value tree back, re-encoding
//! is byte-for-byte idempotent, and well-formed ignored input may be
//! inserted without changing a document's reading.

pub mod chars;
pub mod de;
pub mod error;
pub mod grammar;
pub mod laws;
pub mod num;
pub mod parser;
pub mod ser;

pub use error::{Error, Result};
pub use parser::TotValue;
