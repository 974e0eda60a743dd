//! A verified JSON pipeline: a tokenizer that splits source text into
//! classified tokens with exact offsets, and a recursive-descent parser that
//! builds a tree-shaped value from those tokens.  Both stages are specified
//! against mathematical models of the input and proved to follow them.

pub mod number;
pub mod parser;
pub mod tokenizer;

pub use parser::parse;
pub use parser::Json;
pub use parser::ParseError;
pub use tokenizer::tokenize;
pub use tokenizer::Token;
pub use tokenizer::TokenType;
pub use tokenizer::TokenizeError;
