//! A JSON pretty-printer that works on raw bytes, in one pass and without a tree.
//!
//! `Formatter` checks the grammar of one JSON document (UTF-8 inside strings
//! included) and writes it again with two spaces of indentation per level,
//! optionally wrapped in ANSI colours. Strings and numbers are copied verbatim.
pub mod grammar;
pub mod style;
pub mod document;
pub mod format;
pub mod parser;
pub mod laws;
pub mod reformat;

pub use format::{BytePos, FormatError, Formatter};
pub use style::Color;
pub use parser::{ParseError, Parser};
