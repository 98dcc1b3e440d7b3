//! A parser for the ThethaCore configuration language.
//!
//! A document is a sequence of lines. A section header such as `<database<advanced>>` opens
//! the section `database/advanced`, and the lines `key == value` below it put values under
//! keys in that section. A value is a string in double quotes, an integer, a float, `True`,
//! `False`, `Null`, an array in square brackets or an object in braces; arrays and objects
//! hold values of any kind. Empty lines and lines that start with `#` or `//` say nothing.
//!
//! ```text
//! # the service
//! <general>
//! app_name == "TestApp"
//! version == 1.0
//! enabled == True
//! <database<advanced>>
//! hosts == ["a", "b"]
//! limits == { "soft" == 10, "hard" == 20 }
//! ```
//!
//! [`ThethaCoreConfig::parse`] reads a document and [`parse_value`] a single value. The first
//! line with an error fails the whole document.
//!
//! The functions of this crate are verified: each has a contract over sequences of characters,
//! and the contracts are proved. What a text means is written down once, as the functions
//! `parse_spec` and `decode_spec`, and the parser is proved to compute exactly that. Three
//! facts about the standard library are taken on trust; they stand at the head of the module
//! [`text`].
//!
//! - [`text`]: character classes, trimming, searching and splitting
//! - [`number`]: integer literals and the spelling of floats
//! - [`ordered_map`]: the map that holds sections and objects
//! - [`value`]: values, their model, and when two are the same
//! - [`error`]: errors and their messages
//! - [`decode`]: the value decoder
//! - [`parser`]: the lines of a document and its sections
pub mod decode;
pub mod error;
pub mod number;
pub mod ordered_map;
pub mod parser;
pub mod text;
pub mod value;

pub use decode::parse_value;
pub use error::{ErrorKind, ParseError};
pub use ordered_map::OrderedMap;
pub use parser::ThethaCoreConfig;
pub use value::Value;
