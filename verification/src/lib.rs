//! A JSON tokenizer and parser whose behaviour is stated in contracts and
//! proved.
//!
//! - [`tokenizer`]: characters to tokens.
//! - [`parser`]: tokens to a [`JsonValue`].
//! - [`value`]: JSON values and objects, and their accessors.
//! - [`number`]: JSON numbers, kept as exact decimals.
//! - [`error`]: the error type and its messages; positions in errors are
//!   byte offsets into the UTF-8 text of the input.

use vstd::prelude::*;

pub mod text;
pub mod number;
pub mod error;
pub mod tokenizer;
pub mod value;
pub mod parser;

pub use error::JsonError;
pub use number::JsonNumber;
pub use parser::{parse_json, JsonParser};
pub use tokenizer::{tokenize, Token, Tokenizer};
pub use value::{JsonObject, JsonValue};

verus! {

/// `std::result::Result` with a [`JsonError`].
pub type Result<T> = core::result::Result<T, JsonError>;

} // verus!
