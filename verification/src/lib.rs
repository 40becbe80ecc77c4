//! Lexer for a small assembly language: it turns raw source text into a
//! sequence of typed tokens (decimal or hexadecimal numeric literals,
//! identifiers, and recognized mnemonic keywords), collecting recoverable,
//! line-aware errors for malformed numeric literals along the way.

pub mod chars;
pub mod laws;
pub mod model;
pub mod scanner;
pub mod token;

pub use token::LexError;
pub use token::Op;
pub use token::Token;
pub use token::TokenModel;
