//! Whitespace normalisation for text files: leading spaces become tabs,
//! trailing spaces go, blank lines become empty; and a count of the
//! non-ASCII characters in the body of a chapter file.

pub mod chapter;
pub mod normalize;
pub mod text;
