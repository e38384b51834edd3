//! A parser for a compact textual data format in which the first character
//! of a value tells its type, with the grammar stated as functions on
//! sequences of characters and every parsing function proved against them.

pub mod canonical;
pub mod chars;
pub mod element;
pub mod error;
pub mod grammar;
pub mod laws;
pub mod literal;
pub mod parser;
pub mod reduced;
pub mod scan;
pub mod spacing;
pub mod text;

pub use crate::element::{Document, Element};
pub use crate::error::ParseError;
pub use crate::parser::{parse, Parser};
pub use crate::reduced::{
    parse_bool, parse_document, parse_integer, parse_list, parse_string, parse_value,
    skip_whitespace, XferDocument, XferValue,
};
