//! Converts the lines of a pipe-delimited header script into the dialect in
//! which flag names, message texts, icon paths and display texts are quoted
//! string literals. Everything else in a line is left byte for byte as it was.
//!
//! A statement is one line, held as its UTF-8 bytes. Every offset is a byte
//! offset into the line.

pub mod text;
pub mod encoding;
pub mod locate;
pub mod stringify;
pub mod wellformed;
pub mod document;
pub mod laws;
pub mod twice;
pub mod message_twice;

pub use crate::document::{convert, convert_bytes, convert_line};
pub use crate::locate::{find_last_item, find_line_end, skip_parts};
pub use crate::stringify::{
    convert_flags, convert_icons, convert_messages, convert_shop_and_wheel_texts, stringify_range,
};
