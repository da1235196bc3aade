//! Parser for `.books` catalog files: a title line with a year or a year
//! range, followed by indented `key: value` metadata lines.

pub mod catalog;
pub mod laws;
pub mod outside;
pub mod text;
