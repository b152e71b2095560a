//! A recursive-descent parser for a small JSON-like language.
//!
//! The language has six kinds of values: the `null` literal, unsigned
//! base-10 integers, fixed-point floats (`digits '.' digits`), quoted
//! strings without escape sequences, objects, and arrays.  Parsing a
//! document yields a [`Value`] tree together with the unconsumed tail
//! of the input; the grammar itself is defined once, as the spec-level
//! functions of [`grammar`], and the executable parser in [`parser`] is
//! verified to return exactly what that grammar says.
//!
//! The language is deliberately small: the boolean literals `true` and
//! `false`, signed numbers, exponents, and escape sequences inside
//! strings are not part of the grammar, and an input that starts with
//! them is a structural error, not a quietly different value.

pub mod grammar;
pub mod json;
pub mod laws;
pub mod parser;
pub mod writer;

pub use json::Value;
pub use parser::parse;
pub use parser::ParseOutcome;
pub use writer::to_text;
