use vstd::prelude::*;
use crate::grammar::{ArrayStage, ObjectStage};

verus! {

/// Why a text was rejected, or why a value could not be read as a native type.
#[derive(Clone, Debug, PartialEq)]
pub enum Error {
    /// A character stands where the parser named in the context has no use
    /// for it.
    InvalidCharacter(char, Context),
    /// The text stops inside a value.
    UnexpectedEndOfInput,
    /// A backslash in a string is followed by a character that names no escape.
    InvalidEscapeSequence,
    /// `\u` is not followed by four hex digits, or a surrogate stands alone.
    InvalidUnicodeEscape,
    /// A number breaks the rules for its digit runs.
    InvalidNumber,
    /// Arrays and objects are nested deeper than the limit allows.
    TooDeep,
    /// A value of one kind was asked for as another.
    TypeMismatch(Kind, Kind),
}

/// Which parser met a character, and for the array and object parsers in
/// which stage.
#[derive(Clone, Copy, Debug, PartialEq, Eq)]
pub enum Context {
    /// The dispatcher, at the first character of a value.
    Value,
    /// One of the keywords `true`, `false`, `null`.
    Literal,
    /// The string parser, at the opening quote.
    String,
    /// The array parser.
    Array(ArrayStage),
    /// The object parser.
    Object(ObjectStage),
}

/// The six kinds of JSON value.
#[derive(Clone, Copy, Debug, PartialEq, Eq)]
pub enum Kind {
    Object,
    Array,
    String,
    Number,
    Boolean,
    Null,
}

} // verus!
