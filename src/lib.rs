//! A tokenizer for SVG markup and a parser and writer for path data.
pub mod chars;
pub mod error;
pub mod node;
pub mod number;
pub mod parser;
pub mod path;
pub mod reader;
pub mod tag;

pub use crate::parser::read;
