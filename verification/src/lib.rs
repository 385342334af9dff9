//! Discovery, parsing and rendering of desktop-entry descriptor files.
//!
//! A descriptor file is an INI-like text file; the library extracts a flat
//! record of `key=value` pairs from its first `[Desktop Entry]` section and
//! renders selected fields through a `%`-placeholder template string.

pub mod discover;
pub mod parser;
pub mod record;
pub mod render;
pub mod text;
