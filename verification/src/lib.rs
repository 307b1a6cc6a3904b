//! Verified parts of a parser for SSB subtitles: field values, macros, tags and errors.
pub mod error;
pub mod macros;
pub mod text;
pub mod values;
pub mod tags;
