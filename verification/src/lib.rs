//! A small scanning primitive: a cursor over a text buffer with whitespace
//! skipping, literal and pattern consumption, and caret-annotated parse
//! errors resolved to line and column.
//!
//! All offsets are byte offsets into the UTF-8 encoding of the text, and the
//! contracts speak of that encoding: a parser is viewed as the bytes of its
//! text, the offset of its cursor and its base line number.
//!
//! - `parser`: the scanner and its operations.
//! - `error`: the parse error and its report.
//! - `lines`, `locate`: from an offset to a line, a column and an excerpt.
//! - `render`: the text of a report.
//! - `pattern`: the regular expressions that the scanner searches with.
//! - `boundary`: character boundaries in UTF-8.
//! - `laws`: what holds across calls.

pub mod boundary;
pub mod error;
pub mod laws;
pub mod lines;
pub mod locate;
pub mod parser;
pub mod pattern;
pub mod render;

pub use error::{PRes, ParsErr, ParsErrView};
pub use locate::{Excerpt, Located};
pub use parser::{Parser, ParserView, Pos};
pub use regex::Regex;
