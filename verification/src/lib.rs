//! A lexer for a line-oriented esoteric language with multi-word keywords
//! ("I HAS A", "BOTH SAEM"), line comments ("BTW"), block comments
//! ("OBTW" .. "TLDR"), string literals with two-character escapes, and a
//! small dynamic value model with explicit coercion rules.
//!
//! Every scanning routine is specified against a mathematical model of the
//! scan (`scan`), stated over sequences of characters.

pub mod chars;
pub mod numtext;
pub mod scan;
pub mod tokenizer;
pub mod laws;
pub mod token;
pub mod value;

pub use token::Error;
pub use token::ErrorModel;
pub use token::Token;
pub use token::TokenModel;
pub use value::Value;
pub use value::ValueModel;
pub use tokenizer::Tokenizer;
pub use tokenizer::tokenize;
pub use tokenizer::is_space;
