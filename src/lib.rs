//! A zero-copy JSON reader: text in, a tree of values that borrow from the
//! text out, together with whatever text follows the first value, so that a
//! stream of values written one after another can be read call by call.
//!
//! Choices this reader makes:
//! - Whitespace is what `char::is_whitespace` accepts. Whitespace around the
//!   text is ignored, and so is whitespace between tokens.
//! - `null`, `true` and `false` need no boundary after them: `nullify` reads
//!   as `null` followed by `ify`.
//! - A number is `-`?, then `0` or a nonzero digit and more digits, then an
//!   optional fraction and an optional exponent. Its text is kept as written.
//! - A string is kept raw, between its quotes, with its escapes undecoded.
//!   The escapes allowed are a backslash followed by one of `" \ / b f n r t`,
//!   or by `u` and four hex digits. A `\u` followed by anything but hex
//!   digits, the closing quote included, is an invalid escape; the string is
//!   unterminated only where the input ends within hex digits. A control
//!   character below U+0020 may not stand in a string.
//! - An object keeps its members in the order their keys first appear; a
//!   repeated key keeps the value written last.
//! - Arrays and objects nest at most `DEFAULT_MAX_DEPTH` deep, or as deep as
//!   the caller allows; deeper nesting fails with `ParseError::DepthExceeded`.
//! - What remains after a value is the text right after it, up to the
//!   trailing whitespace of the input, or `None` where nothing remains.
//!
//! Cost: each call first copies the input into a vector of characters, which
//! takes time linear in its length. Every borrowed piece of text (a string, a
//! number, a key, the remainder) is then cut out by `substring_char`, which
//! walks the input from its start; a document with `k` such pieces therefore
//! takes time proportional to `k` times its length.

pub mod grammar;
pub mod laws;
pub mod parser;
pub mod value;

pub use parser::{
    parse, parse_bool, parse_null, parse_number, parse_string, parse_with_max_depth,
    DEFAULT_MAX_DEPTH,
};
pub use value::{Json, ParseError, Value};
