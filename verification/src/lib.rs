//! Decoder for the textual, length-prefixed wire format of PHP's `serialize()`.
//!
//! The entry point is [`value`]: it takes a byte buffer and returns the bytes
//! that follow the first value in it together with that [`Value`], or a
//! [`ParseError`]. What each rule matches is defined in [`grammar`], over
//! sequences of bytes; the functions of [`parser`] are proved to compute it.

pub mod grammar;
pub mod helper;
pub mod laws;
pub mod parser;
pub mod value;

pub use crate::grammar::ParseError;
pub use crate::helper::{buf_to_i64, buf_to_u32, to_i64, to_string, to_u32};
pub use crate::parser::{array, boolean, field_len, integer, key, keyval, null, string, value};
pub use crate::value::{Array, Key, Null, Value};
