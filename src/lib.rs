//! A JSON parser built from parser combinators: primitive parsers for
//! literals and character runs, combinators that compose them, and a grammar
//! for JSON values on top. Every parser is specified by a model of what it
//! does to its input, over sequences of characters.

pub mod combinator;
pub mod document;
pub mod json;
pub mod lexer;

pub use combinator::{
    Left, Or, Parser, Product, Quoted, Right, StrParser, ZeroOrMore, left, or, product,
    quoted_string_literal, right, str_parser, zero_or_more,
};
pub use json::{JSON, JsonModel, parse_json};
pub use lexer::{match_digit_chars, match_until_double_quote, match_whitespace_char};
