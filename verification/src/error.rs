//! The errors of the tokenizer and the parser, and their messages.

use vstd::prelude::*;
use crate::text::{push_char, push_text, decimal_text, push_decimal};

verus! {

/// Errors produced by the JSON tokenizer and parser.
///
/// Each variant records what was expected or found and where: a position is
/// a byte offset into the UTF-8 text of the input.
#[derive(Debug, Clone, PartialEq)]
pub enum JsonError {
    /// A token that the grammar does not allow at this position.
    UnexpectedToken {
        /// What the parser wanted.
        expected: String,
        /// The text of the token that was found.
        found: String,
        /// Where that token starts.
        position: usize,
    },
    /// The input ended before a complete value.
    UnexpectedEndOfInput {
        /// What the parser was waiting for.
        expected: String,
        /// Where the input ran out.
        position: usize,
    },
    /// A number literal that is malformed (such as `1e`, `01` or `1.2.3`),
    /// or whose value is above the range of `f64`.
    InvalidNumber {
        /// The literal.
        value: String,
        /// Where the literal starts.
        position: usize,
    },
    /// A backslash followed by a character that is not a JSON escape.
    InvalidEscape {
        /// The character after the backslash.
        char: char,
        /// Where that character stands.
        position: usize,
    },
    /// A `\u` escape without four hexadecimal digits, or a surrogate that is
    /// not one half of a pair (a high one followed by a `\u` escape of a low
    /// one).
    InvalidUnicode {
        /// The hexadecimal digits read.
        sequence: String,
        /// Where the `\u` escape begins.
        position: usize,
    },
}

/// What an error holds, as plain values.
pub enum SpecError {
    UnexpectedToken { expected: Seq<char>, found: Seq<char>, position: int },
    UnexpectedEndOfInput { expected: Seq<char>, position: int },
    InvalidNumber { value: Seq<char>, position: int },
    InvalidEscape { ch: char, position: int },
    InvalidUnicode { sequence: Seq<char>, position: int },
}

impl View for JsonError {
    type V = SpecError;

    open spec fn view(&self) -> SpecError {
        match self {
            JsonError::UnexpectedToken { expected, found, position } => SpecError::UnexpectedToken {
                expected: expected@,
                found: found@,
                position: *position as int,
            },
            JsonError::UnexpectedEndOfInput { expected, position } =>
                SpecError::UnexpectedEndOfInput { expected: expected@, position: *position as int },
            JsonError::InvalidNumber { value, position } => SpecError::InvalidNumber {
                value: value@,
                position: *position as int,
            },
            JsonError::InvalidEscape { char, position } => SpecError::InvalidEscape {
                ch: *char,
                position: *position as int,
            },
            JsonError::InvalidUnicode { sequence, position } => SpecError::InvalidUnicode {
                sequence: sequence@,
                position: *position as int,
            },
        }
    }
}

/// The position that an error reports.
pub open spec fn error_position(e: SpecError) -> int {
    match e {
        SpecError::UnexpectedToken { position, .. } => position,
        SpecError::UnexpectedEndOfInput { position, .. } => position,
        SpecError::InvalidNumber { position, .. } => position,
        SpecError::InvalidEscape { position, .. } => position,
        SpecError::InvalidUnicode { position, .. } => position,
    }
}

/// The error with the position it reports replaced by `p`.
pub open spec fn with_position(e: SpecError, p: int) -> SpecError {
    match e {
        SpecError::UnexpectedToken { expected, found, .. } => SpecError::UnexpectedToken {
            expected,
            found,
            position: p,
        },
        SpecError::UnexpectedEndOfInput { expected, .. } => SpecError::UnexpectedEndOfInput {
            expected,
            position: p,
        },
        SpecError::InvalidNumber { value, .. } => SpecError::InvalidNumber { value, position: p },
        SpecError::InvalidEscape { ch, .. } => SpecError::InvalidEscape { ch, position: p },
        SpecError::InvalidUnicode { sequence, .. } => SpecError::InvalidUnicode {
            sequence,
            position: p,
        },
    }
}

/// The human-readable message of an error.
pub open spec fn error_message(e: SpecError) -> Seq<char> {
    match e {
        SpecError::UnexpectedToken { expected, found, position } => "Unexpected token at position "@
            + decimal_text(position as nat) + ": expected "@ + expected + ", found "@ + found,
        SpecError::UnexpectedEndOfInput { expected, position } =>
            "Unexpected end of input at position "@ + decimal_text(position as nat)
                + ": expected "@ + expected,
        SpecError::InvalidNumber { value, position } => "Invalid number '"@ + value
            + "' at position "@ + decimal_text(position as nat),
        SpecError::InvalidEscape { ch, position } => "Invalid escape '\\"@ + seq![ch]
            + "' at position "@ + decimal_text(position as nat),
        SpecError::InvalidUnicode { sequence, position } => "Invalid unicode escape '"@
            + sequence + "' at position "@ + decimal_text(position as nat),
    }
}

/// The message of an error as the Python bindings raise it: as
/// `error_message`, but for an unexpected token, which reads
/// `JSON parse error at position P: expected E, found 'F'`.
pub open spec fn python_error_message(e: SpecError) -> Seq<char> {
    match e {
        SpecError::UnexpectedToken { expected, found, position } => "JSON parse error at position "@
            + decimal_text(position as nat) + ": expected "@ + expected + ", found '"@ + found
            + "'"@,
        _ => error_message(e),
    }
}

impl JsonError {
    /// The human-readable message of this error, e.g.
    /// `Unexpected token at position 0: expected valid JSON token, found @`.
    pub fn message(&self) -> (r: String)
        ensures
            r@ == error_message(self@),
    {
        let mut s = String::new();
        match self {
            JsonError::UnexpectedToken { expected, found, position } => {
                push_text(&mut s, "Unexpected token at position ");
                push_decimal(&mut s, *position);
                push_text(&mut s, ": expected ");
                push_text(&mut s, expected.as_str());
                push_text(&mut s, ", found ");
                push_text(&mut s, found.as_str());
            },
            JsonError::UnexpectedEndOfInput { expected, position } => {
                push_text(&mut s, "Unexpected end of input at position ");
                push_decimal(&mut s, *position);
                push_text(&mut s, ": expected ");
                push_text(&mut s, expected.as_str());
            },
            JsonError::InvalidNumber { value, position } => {
                push_text(&mut s, "Invalid number '");
                push_text(&mut s, value.as_str());
                push_text(&mut s, "' at position ");
                push_decimal(&mut s, *position);
            },
            JsonError::InvalidEscape { char, position } => {
                push_text(&mut s, "Invalid escape '\\");
                push_char(&mut s, *char);
                push_text(&mut s, "' at position ");
                push_decimal(&mut s, *position);
            },
            JsonError::InvalidUnicode { sequence, position } => {
                push_text(&mut s, "Invalid unicode escape '");
                push_text(&mut s, sequence.as_str());
                push_text(&mut s, "' at position ");
                push_decimal(&mut s, *position);
            },
        }
        s
    }

    /// The message of this error as the Python bindings raise it, e.g.
    /// `JSON parse error at position 0: expected valid JSON token, found '@'`.
    pub fn python_message(&self) -> (r: String)
        ensures
            r@ == python_error_message(self@),
    {
        match self {
            JsonError::UnexpectedToken { expected, found, position } => {
                let mut s = String::new();
                push_text(&mut s, "JSON parse error at position ");
                push_decimal(&mut s, *position);
                push_text(&mut s, ": expected ");
                push_text(&mut s, expected.as_str());
                push_text(&mut s, ", found '");
                push_text(&mut s, found.as_str());
                push_text(&mut s, "'");
                s
            },
            _ => self.message(),
        }
    }

    /// The position that this error reports.
    pub fn position(&self) -> (r: usize)
        ensures
            r as int == error_position(self@),
    {
        match self {
            JsonError::UnexpectedToken { position, .. } => *position,
            JsonError::UnexpectedEndOfInput { position, .. } => *position,
            JsonError::InvalidNumber { position, .. } => *position,
            JsonError::InvalidEscape { position, .. } => *position,
            JsonError::InvalidUnicode { position, .. } => *position,
        }
    }

    /// This error, reporting `position` in place of its own.
    pub fn at(self, position: usize) -> (r: JsonError)
        ensures
            r@ == with_position(self@, position as int),
    {
        match self {
            JsonError::UnexpectedToken { expected, found, .. } => JsonError::UnexpectedToken {
                expected,
                found,
                position,
            },
            JsonError::UnexpectedEndOfInput { expected, .. } => JsonError::UnexpectedEndOfInput {
                expected,
                position,
            },
            JsonError::InvalidNumber { value, .. } => JsonError::InvalidNumber { value, position },
            JsonError::InvalidEscape { char, .. } => JsonError::InvalidEscape { char, position },
            JsonError::InvalidUnicode { sequence, .. } => JsonError::InvalidUnicode {
                sequence,
                position,
            },
        }
    }
}

} // verus!
