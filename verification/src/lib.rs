//! A JSON parser whose values remember the exact text they were read from.
//!
//! Every node of a parsed document carries its decoded payload together with
//! the slice of the input that produced it, so a document can be written back
//! character for character.
//!
//! - [`grammar`] says, as functions of a text and a position, what is read
//!   where; [`parser`] reads it, and every parser is proved to return what
//!   the grammar says.
//! - [`json`] holds the value type with its two views of a value: the
//!   source as read, and ([`render`]) the canonical form.
//! - [`convert`] builds values from native ones.
//! - [`laws`], with [`digits`], [`escapes`] and [`readback`], proves what
//!   holds of every text: the source of a value is the text it was read
//!   from, a key holds what was written to it last, and writing a value
//!   that was read in canonical form, reading it and writing it again
//!   changes nothing.
pub mod convert;
pub mod cursor;
pub mod digits;
pub mod error;
pub mod escapes;
pub mod grammar;
pub mod json;
pub mod laws;
pub mod number;
pub mod parser;
pub mod readback;
pub mod render;
pub mod text;

pub use crate::cursor::Cursor;
pub use crate::error::Error;
pub use crate::json::Json;
pub use crate::number::Number;
