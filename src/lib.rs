//! Parsing of a single HTML open tag, such as `<div width="40", height="30">`,
//! into its name and a mapping from attribute keys to values.
//!
//! Every parser here works on borrowed text and hands out slices of it. Each
//! one is proved to return exactly what the grammar in [`grammar`] describes,
//! errors included.
pub mod attributes;
pub mod grammar;
pub mod laws;
pub mod parse;
pub mod scan;
pub mod tag;
pub mod text;

pub use attributes::Attributes;
pub use grammar::{Expected, SyntaxError};
pub use parse::{parse_attribute, parse_key, parse_val};
pub use tag::{Tag, parse_tag};
